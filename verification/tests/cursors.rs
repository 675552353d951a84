use bvec::{BVec, CursorInner};
use rand::{Rng, SeedableRng};

fn filled(n: i32) -> BVec<i32> {
    let mut b = BVec::new();
    for x in 0..n {
        b.push_back(x);
    }
    b
}

#[test]
fn cursor_reads_and_moves() {
    let b = filled(1000);
    let mut c = b.cursor_at(10);
    assert_eq!(c.get(), Some(&10));
    assert_eq!(c.index(), 10);
    assert_eq!(c.len(), 1000);
    c.move_(500);
    assert_eq!(c.get(), Some(&510));
    c.move_(-500);
    assert_eq!(c.get(), Some(&10));
    assert_eq!(c.index(), 10);
    c.move_(990);
    assert!(!c.is_inbounds());
    assert_eq!(c.get(), None);
    c.move_(-1);
    assert_eq!(c.get(), Some(&999));
}

#[test]
fn random_cursor_move_right() {
    let mut rng = rand::rngs::StdRng::from_seed([123; 32]);
    let mut b = BVec::<i32>::new();
    let n = 1000;
    for x in 0..n as i32 {
        b.push_back(x);
    }
    for _ in 0..n {
        let (start, end) = (rng.gen_range(0..b.len()), rng.gen_range(0..b.len()));
        let mut c = b.cursor_at_mut(start);
        c.move_(end as isize - start as isize);
        assert_eq!(Some(&(end as i32)), c.get());
    }
}

#[test]
fn random_cursor_get() {
    let mut b = BVec::<i32>::new();
    let n = 1000;
    for x in 0..n as i32 {
        b.push_back(x);
    }
    for i in 0..n {
        let x = *b.get(i).unwrap();
        assert_eq!(x, i as i32);
        assert_eq!(x, *b.cursor_at_mut(i).get().unwrap());
        assert_eq!(x, *b.cursor_at(i).get().unwrap());
    }
}

#[test]
fn empty_cursor() {
    let mut bvec = BVec::<i32>::new();
    let cursor = bvec.cursor_at_mut(0);
    assert!(cursor.get().is_none());
    let mut c = bvec.cursor_at_mut(0);
    c.move_(0);
    assert!(!c.is_inbounds());
    let b = BVec::<i32>::new();
    let mut c = b.cursor_at(0);
    c.move_(0);
    assert_eq!(c.get(), None);
}

#[test]
fn random_double_removals() {
    let mut rng = rand::rngs::StdRng::from_seed([123; 32]);
    let mut v = Vec::new();
    let mut b = BVec::<i32>::new();
    for x in 0..1000 {
        v.push(x);
        b.push_back(x);
    }
    while v.len() > 1 {
        let index = rng.gen_range(0..v.len() - 1);
        let v1 = v.remove(index);
        let v2 = v.remove(index);
        let mut cursor = b.cursor_at_mut(index);
        let b1 = cursor.remove();
        let b2 = cursor.remove();
        assert_eq!(b1, v1);
        assert_eq!(b2, v2);
        assert_eq!(v.len(), cursor.len());
    }
}

#[test]
fn random_double_insertions() {
    let mut rng = rand::rngs::StdRng::from_seed([123; 32]);
    let mut v = Vec::new();
    let mut b = BVec::<i32>::new();
    for x in 0..500 {
        let index = rng.gen_range(0..=v.len());
        v.insert(index, 2 * x);
        v.insert(index, 2 * x + 1);
        let mut cursor = b.cursor_at_mut(index);
        cursor.insert(2 * x);
        cursor.insert(2 * x + 1);
        assert_eq!(cursor.get(), Some(&(2 * x + 1)));
        assert_eq!(v.len(), cursor.len());
    }
    for i in 0..v.len() {
        assert_eq!(b[i], v[i]);
    }
}

#[test]
fn cursor_mut_changes_value() {
    let mut b = filled(100);
    {
        let mut c = b.cursor_at_mut(40);
        *c.get_mut().unwrap() = -40;
        c.move_(60);
        assert!(c.get_mut().is_none());
    }
    assert_eq!(b[40], -40);
}

#[test]
fn bvec_iter() {
    let n = 1000;
    let b = filled(n);
    let mut it = b.iter();
    assert_eq!(it.size_hint(), (1000, Some(1000)));
    for x in 0..n {
        assert_eq!(it.next(), Some(&x));
    }
    assert_eq!(it.next(), None);
    assert_eq!(b.iter().count(), 1000);
}

#[test]
fn iter_nth_consumes_through_returned_value() {
    let b = filled(600);
    let mut it = b.iter();
    assert_eq!(it.nth(0), Some(&0));
    assert_eq!(it.nth(299), Some(&300));
    assert_eq!(it.next(), Some(&301));
    assert_eq!(it.size_hint().0, 298);
    assert_eq!(it.nth(298), None);
    assert_eq!(it.next(), None);
}

#[test]
fn drain_takes_front_to_back() {
    let mut b = filled(300);
    {
        let mut d = b.drain();
        for x in 0..300 {
            assert_eq!(d.next(), Some(x));
        }
        assert_eq!(d.next(), None);
    }
    assert!(b.is_empty());
}

#[test]
fn cloned_iter_runs_on_its_own() {
    let b = filled(50);
    let mut it = b.iter();
    it.nth(9);
    let mut copy = it.clone();
    assert_eq!(copy.next(), Some(&10));
    assert_eq!(copy.count(), 39);
    assert_eq!(it.next(), Some(&10));
}

#[test]
fn cursor_inner_moves_within_and_across_leaves() {
    let b = filled(2000);
    let mut c = CursorInner::new(&b, 5);
    assert_eq!(*c.get_unchecked(), 5);
    c.move_(5, 3);
    assert_eq!(*c.get_unchecked(), 8);
    c.move_(8, 1500);
    assert_eq!(*c.get_unchecked(), 1508);
    c.move_(1508, -1000);
    assert_eq!(*c.get_unchecked(), 508);
    c.move_(508, 1492);
    assert_eq!(c.len(), 2000);
    let mut e = CursorInner::new_past_the_end(&b);
    e.move_(2000, -1);
    assert_eq!(*e.get_unchecked(), 1999);
}

#[test]
fn cursor_mut_insert_and_remove_reach_the_sequence() {
    let mut b = filled(100);
    {
        let mut c = b.cursor_at_mut(50);
        c.insert(-1);
        assert_eq!(c.get(), Some(&-1));
        c.move_(2);
        assert_eq!(c.remove(), 51);
        assert_eq!(c.len(), 100);
    }
    assert_eq!(b.len(), 100);
    assert_eq!(b[50], -1);
    assert_eq!(b[51], 50);
    assert_eq!(b[52], 52);
}

#[test]
fn drain_dropped_early_leaves_nothing() {
    let mut b = filled(10);
    {
        let mut d = b.drain();
        assert_eq!(d.next(), Some(0));
        assert_eq!(d.next(), Some(1));
    }
    assert_eq!(b.len(), 0);
    assert_eq!(b.first(), None);
    let _ = b.drain();
    assert!(b.is_empty());
}

#[test]
fn unused_drain_empties_the_sequence() {
    let mut b = filled(1000);
    let _ = b.drain();
    assert!(b.is_empty());
    b.push_back(7);
    assert_eq!(b[0], 7);
}
