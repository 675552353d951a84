use bvec::BVec;
use core::mem::size_of;
use rand::{Rng, SeedableRng};

#[test]
fn test_new() {
    let _: BVec<i32> = BVec::new();
    let _ = BVec::<usize>::new();
}

#[test]
fn test_new_zst() {
    let _: BVec<()> = BVec::new();
    let _ = BVec::<()>::new();
}

#[test]
fn test_bvec_size() {
    assert_eq!(
        size_of::<BVec<i32>>(),
        size_of::<&()>() + 2 * size_of::<usize>()
    )
}

#[test]
fn test_push_front_back() {
    let mut b = BVec::<i32>::new();
    let mut l = 0;
    for x in 0..500 {
        b.push_back(x);
        l += 1;
        assert_eq!(l, b.len());
    }

    for x in (-500..0).rev() {
        b.push_front(x);
        l += 1;
        assert_eq!(l, b.len());
    }
}

#[test]
fn test_push_pop_front_back() {
    let mut rng = rand::rngs::StdRng::from_seed([123; 32]);

    let mut b = BVec::<i32>::new();
    let mut v = Vec::new();
    for x in 0..1000 {
        if rng.gen() {
            b.push_back(x);
            v.push(x);
        } else {
            b.push_front(x);
            v.insert(0, x);
        }
    }

    for _ in 0..1000 {
        let (x, y) = if rng.gen() {
            (b.remove(b.len() - 1), v.pop().unwrap())
        } else {
            (b.remove(0), v.remove(0))
        };
        assert_eq!(x, y);
        assert_eq!(b.len(), v.len());
    }
}

#[test]
fn test_random_insertions() {
    let mut rng = rand::rngs::StdRng::from_seed([123; 32]);

    let mut v = Vec::new();
    let mut b = BVec::<i32>::new();

    for x in 0..1000 {
        let index = rng.gen_range(0..=v.len());
        v.insert(index, x);
        b.insert(index, x);
        assert_eq!(v.len(), b.len());
    }
}

#[test]
fn test_random_removals() {
    let mut rng = rand::rngs::StdRng::from_seed([123; 32]);

    let mut v = Vec::new();
    let mut b = BVec::<i32>::new();

    for x in 0..1000 {
        v.push(x);
        b.push_back(x);
    }

    while !v.is_empty() {
        let index = rng.gen_range(0..v.len());
        let v_rem = v.remove(index);
        let b_rem = b.remove(index);
        assert_eq!(v.len(), b.len());
        assert_eq!(v_rem, b_rem);
    }

    assert!(b.is_empty());
}
