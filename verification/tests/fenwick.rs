use bvec::fenwick::{FenwickTree, BRANCH_FACTOR};

#[test]
fn test_fenwick_into_array() {
    let mut a = FenwickTree::new();
    for i in 0..BRANCH_FACTOR {
        a.add_wrapping(i, i);
    }

    let b = a.into_array();
    for i in 0..BRANCH_FACTOR {
        assert_eq!(i, b[i]);
    }
}

#[test]
fn test_fenwick_init() {
    let mut lens = [0usize; BRANCH_FACTOR];
    for i in 0..BRANCH_FACTOR {
        lens[i] = i;
    }
    let a = FenwickTree::from_array(lens);

    let mut rem = 0;
    let mut c = 0;
    for i in 0..BRANCH_FACTOR * (BRANCH_FACTOR - 1) / 2 {
        rem += 1;
        if rem >= c {
            c += 1;
            rem = 0;
        }
        assert_eq!((rem, c), a.child_containing_index(i), "{i}");
    }
}

#[test]
fn test_fenwick_split() {
    let mut a = FenwickTree::new();
    for i in 0..BRANCH_FACTOR {
        a.add_wrapping(i, i);
    }

    let b = a.split();
    let a_array = a.into_array();
    let b_array = b.into_array();
    let mut a_correct = [0; BRANCH_FACTOR];
    let mut b_correct = [0; BRANCH_FACTOR];
    for i in 0..BRANCH_FACTOR / 2 {
        a_correct[i] = i;
    }
    for i in BRANCH_FACTOR / 2..BRANCH_FACTOR {
        b_correct[i - BRANCH_FACTOR / 2] = i;
    }
    assert_eq!(a_array, a_correct);
    assert_eq!(b_array, b_correct);
}

#[test]
fn test_fenwick_add_and_rank() {
    let mut a = FenwickTree::new();

    for i in 0..BRANCH_FACTOR {
        a.add_wrapping(i, i);
    }

    let mut rem = 0;
    let mut c = 0;
    for i in 0..BRANCH_FACTOR * (BRANCH_FACTOR - 1) / 2 {
        rem += 1;
        if rem >= c {
            c += 1;
            rem = 0;
        }
        assert_eq!((rem, c), a.child_containing_index(i), "{i}");
    }
}

#[test]
fn test_fenwick_add_and_rank_inclusive() {
    let mut a = FenwickTree::new();

    for i in 0..BRANCH_FACTOR {
        a.add_wrapping(i, i);
    }

    let mut rem = 0;
    let mut c = 0;
    for i in 0..BRANCH_FACTOR * (BRANCH_FACTOR - 1) / 2 {
        assert_eq!((rem, c), a.child_containing_index_inclusive(i), "{i}");
        if rem >= c {
            c += 1;
            rem = 0;
        }
        rem += 1;
    }
}

#[test]
fn test_fenwick_init_fini() {
    let mut a = FenwickTree::new();

    for i in 0..BRANCH_FACTOR {
        a.with_flat_lens(|arr| arr[i] = i);
    }

    let mut rem = 0;
    let mut c = 0;
    for i in 0..BRANCH_FACTOR * (BRANCH_FACTOR - 1) / 2 {
        assert_eq!((rem, c), a.child_containing_index_inclusive(i), "{i}");
        if rem >= c {
            c += 1;
            rem = 0;
        }
        rem += 1;
    }
}
