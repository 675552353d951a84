use bvec::BVec;
use rand::{Rng, SeedableRng};

fn filled(n: i32) -> BVec<i32> {
    let mut b = BVec::new();
    for x in 0..n {
        b.push_back(x);
    }
    b
}

#[test]
fn get_on_empty_and_past_end() {
    let b = BVec::<i32>::new();
    assert_eq!(b.get(0), None);
    assert_eq!(b.first(), None);
    assert_eq!(b.last(), None);
    assert!(b.is_empty());
    let b = filled(3);
    assert_eq!(b.get(3), None);
    assert_eq!(b.get(2), Some(&2));
}

#[test]
fn first_last_and_mut_access() {
    let mut b = filled(1000);
    assert_eq!(b.first(), Some(&0));
    assert_eq!(b.last(), Some(&999));
    *b.first_mut().unwrap() = -1;
    *b.last_mut().unwrap() = -2;
    *b.get_mut(500).unwrap() = -3;
    assert_eq!(b.get(0), Some(&-1));
    assert_eq!(b.get(999), Some(&-2));
    assert_eq!(b[500], -3);
    assert!(b.get_mut(1000).is_none());
    let mut e = BVec::<i32>::new();
    assert!(e.first_mut().is_none());
    assert!(e.last_mut().is_none());
}

#[test]
fn insert_then_get_gives_inserted_value() {
    let mut b = filled(300);
    b.insert(150, 7777);
    assert_eq!(b.get(150), Some(&7777));
    assert_eq!(b.get(149), Some(&149));
    assert_eq!(b.get(151), Some(&150));
    assert_eq!(b.len(), 301);
}

#[test]
fn insert_then_remove_restores() {
    let mut b = filled(2000);
    b.insert(1234, -5);
    assert_eq!(b.remove(1234), -5);
    for i in 0..2000 {
        assert_eq!(b[i], i as i32);
    }
}

#[test]
fn remove_then_insert_restores() {
    let mut b = filled(700);
    let x = b.remove(42);
    assert_eq!(x, 42);
    assert_eq!(b.len(), 699);
    b.insert(42, x);
    for i in 0..700 {
        assert_eq!(b[i], i as i32);
    }
}

#[test]
fn push_ends() {
    let mut b = filled(10);
    b.push_back(100);
    b.push_front(-100);
    assert_eq!(b.first(), Some(&-100));
    assert_eq!(b.last(), Some(&100));
    assert_eq!(b.get(1), Some(&0));
}

#[test]
fn remove_last_value_empties() {
    let mut b = BVec::new();
    b.push_back(1u8);
    assert_eq!(b.remove(0), 1);
    assert!(b.is_empty());
    assert_eq!(b.get(0), None);
    b.push_back(2);
    assert_eq!(b.get(0), Some(&2));
}

#[test]
fn deep_tree_of_zero_sized_values() {
    // two values per leaf: the tree grows several levels high
    let mut b = BVec::<()>::new();
    for _ in 0..5000 {
        b.push_front(());
    }
    assert_eq!(b.len(), 5000);
    for i in (0..5000).rev() {
        if i % 2 == 0 {
            b.remove(i / 2);
        } else {
            b.remove(0);
        }
    }
    assert!(b.is_empty());
}

#[test]
fn large_values_split_and_merge() {
    // values larger than a leaf's byte budget: two per leaf
    let mut rng = rand::rngs::StdRng::from_seed([7; 32]);
    let mut b = BVec::<[u8; 600]>::new();
    let mut v = Vec::new();
    for x in 0..600u32 {
        let i = rng.gen_range(0..=v.len());
        let mut item = [0u8; 600];
        item[0] = (x % 256) as u8;
        item[1] = (x / 256) as u8;
        v.insert(i, item);
        b.insert(i, item);
    }
    for i in 0..v.len() {
        assert_eq!(b[i], v[i]);
    }
    while !v.is_empty() {
        let i = rng.gen_range(0..v.len());
        assert_eq!(b.remove(i), v.remove(i));
    }
    assert!(b.is_empty());
}

#[test]
fn random_mix_matches_vec_in_tall_tree() {
    let mut rng = rand::rngs::StdRng::from_seed([42; 32]);
    let mut v = Vec::new();
    let mut b = BVec::<i32>::new();
    for x in 0..20000 {
        let i = rng.gen_range(0..=v.len());
        v.insert(i, x);
        b.insert(i, x);
    }
    for _ in 0..2000 {
        let i = rng.gen_range(0..v.len());
        assert_eq!(b.get(i), v.get(i));
    }
    for x in 0..30000 {
        if rng.gen_range(0..3) == 0 {
            let i = rng.gen_range(0..=v.len());
            v.insert(i, x);
            b.insert(i, x);
        } else if !v.is_empty() {
            let i = rng.gen_range(0..v.len());
            assert_eq!(b.remove(i), v.remove(i));
        }
        assert_eq!(b.len(), v.len());
    }
    for i in 0..v.len() {
        assert_eq!(b[i], v[i]);
    }
}

#[test]
fn clear_keeps_values() {
    let mut b = filled(5);
    b.clear();
    assert_eq!(b.len(), 5);
    assert_eq!(b.get(4), Some(&4));
}

#[test]
fn default_is_empty() {
    let b: BVec<String> = BVec::default();
    assert!(b.is_empty());
    assert_eq!(b.len(), 0);
}

#[test]
fn foo_inserts() {
    let mut b = filled(3);
    bvec::foo(&mut b, 1, 9);
    assert_eq!(b.get(1), Some(&9));
    assert_eq!(b.len(), 4);
}
