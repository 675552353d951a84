//! Shrinking internal nodes: taking children out, and refilling a child that
//! became underfull from a sibling or merging it with one.
use vstd::prelude::*;

use crate::fenwick::{
    lemma_sum_concat, lemma_sum_split, lemma_sum_update, modulus, sum, total,
    BRANCH_FACTOR,
};
use crate::node::{
    children_view, lemma_children_total, lemma_children_view_concat, lemma_children_view_one,
    lemma_leaf_cap, leaf_cap, lens_match, node_min, InternalNode, NodePtr, RawNodeWithLen,
    UNDERFULL_LEN,
};
use crate::node::insert::lemma_wrap;

verus! {

broadcast use vstd::std_specs::vec::group_vec_axioms;

/// `lens` with `amount` moved between the slots `from` and `to`.
pub open spec fn moved(lens: Seq<usize>, from: int, to: int, amount: int) -> Seq<usize> {
    lens.update(from, (lens[from] - amount) as usize).update(to, (lens[to] + amount) as usize)
}

/// `b` is a node of the same kind as `a` that holds directly the values
/// `va` (when a leaf) or the children `ca` (when internal).
pub open spec fn same_entries<T>(a: NodePtr<T>, b: NodePtr<T>, va: Seq<T>, ca: Seq<NodePtr<T>>) -> bool {
    if a.is_leaf() {
        b.is_leaf() && b.leaf().values@ == va
    } else {
        !b.is_leaf() && b.internal().children@ == ca
    }
}

/// `after` is `before` with children `p` and `p + 1` joined into one node
/// that holds the entries of both, in order.
pub open spec fn joined<T>(before: Seq<NodePtr<T>>, after: Seq<NodePtr<T>>, p: int) -> bool {
    &&& 0 <= p && p + 1 < before.len()
    &&& after.len() + 1 == before.len()
    &&& forall|i: int| 0 <= i < p ==> after[i] == before[i]
    &&& forall|i: int| p < i < after.len() ==> after[i] == before[i + 1]
    &&& same_entries(
        before[p],
        after[p],
        before[p].leaf().values@ + before[p + 1].leaf().values@,
        before[p].internal().children@ + before[p + 1].internal().children@,
    )
}

/// `after` is `before` with one entry moved between the siblings `p` and
/// `p + 1`: the last one of `p` to the front of `p + 1` when `rightward`,
/// else the first one of `p + 1` to the back of `p`.
pub open spec fn shifted<T>(before: Seq<NodePtr<T>>, after: Seq<NodePtr<T>>, p: int, rightward: bool) -> bool {
    let (vl, vr) = (before[p].leaf().values@, before[p + 1].leaf().values@);
    let (cl, cr) = (before[p].internal().children@, before[p + 1].internal().children@);
    &&& 0 <= p && p + 1 < before.len()
    &&& after.len() == before.len()
    &&& forall|i: int| 0 <= i < after.len() && i != p && i != p + 1 ==> after[i] == before[i]
    &&& if rightward {
        &&& same_entries(before[p], after[p], vl.drop_last(), cl.drop_last())
        &&& same_entries(before[p + 1], after[p + 1], seq![vl.last()] + vr, seq![cl.last()] + cr)
    } else {
        &&& same_entries(before[p], after[p], vl.push(vr[0]), cl.push(cr[0]))
        &&& same_entries(before[p + 1], after[p + 1], vr.drop_first(), cr.drop_first())
    }
}

impl<T> InternalNode<T> {
    /// Adds the length of child `index + 1` to that of child `index` and
    /// closes the gap.
    pub fn merge_length_from_next(&mut self, index: usize)
        requires
            old(self).lengths.fits(),
            index + 1 < BRANCH_FACTOR,
        ensures
            final(self).lengths.fits(),
            final(self).children == old(self).children,
            final(self).lengths@ == old(self).lengths@.take(index as int) + seq![
                (old(self).lengths@[index as int] + old(self).lengths@[index + 1]) as usize,
            ] + old(self).lengths@.subrange(index + 2, BRANCH_FACTOR as int) + seq![0usize],
            total(final(self).lengths@) == total(old(self).lengths@),
    {
        let ghost ol = self.lengths@;
        let ghost want = ol.take(index as int) + seq![(ol[index as int] + ol[index + 1]) as usize]
            + ol.subrange(index + 2, BRANCH_FACTOR as int) + seq![0usize];
        proof {
            lemma_sum_split(ol, 0, index as int, BRANCH_FACTOR as int);
            lemma_sum_split(ol, index as int, index + 2, BRANCH_FACTOR as int);
            lemma_sum_split(ol, index as int, index + 1, index + 2);
            crate::fenwick::lemma_sum_nonneg(ol, 0, index as int);
            crate::fenwick::lemma_sum_nonneg(ol, index + 2, BRANCH_FACTOR as int);
            assert(sum(ol, index as int, index + 1) == ol[index as int]) by {
                assert(sum(ol, index as int, index as int) == 0);
            }
        }
        self.lengths.fini();
        let a = self.lengths.flat_at(index);
        let b = self.lengths.flat_at(index + 1);
        self.lengths.set_flat(index, a + b);
        let mut i = index + 1;
        while i + 1 < BRANCH_FACTOR
            invariant
                index + 1 <= i < BRANCH_FACTOR,
                self.lengths.is_flat(),
                self.lengths@.len() == BRANCH_FACTOR,
                self.children == old(self).children,
                ol.len() == BRANCH_FACTOR,
                forall|t: int| 0 <= t < index ==> #[trigger] self.lengths@[t] == ol[t],
                self.lengths@[index as int] == (ol[index as int] + ol[index + 1]) as usize,
                forall|t: int| index + 1 <= t < i ==> #[trigger] self.lengths@[t] == ol[t + 1],
                forall|t: int| i <= t < BRANCH_FACTOR ==> #[trigger] self.lengths@[t] == ol[t],
            decreases BRANCH_FACTOR - i,
        {
            let v = self.lengths.flat_at(i + 1);
            self.lengths.set_flat(i, v);
            i = i + 1;
        }
        self.lengths.set_flat(BRANCH_FACTOR - 1, 0);
        proof {
            assert forall|t: int| 0 <= t < BRANCH_FACTOR implies #[trigger] self.lengths@[t] == want[t] by {
                if t < index {
                } else if t == index {
                } else if t < BRANCH_FACTOR - 1 {
                    assert(want[t] == ol.subrange(index + 2, BRANCH_FACTOR as int)[t - index - 1]);
                } else {
                }
            }
            assert(self.lengths@ =~= want);
            let p1 = ol.take(index as int);
            let p2 = seq![(ol[index as int] + ol[index + 1]) as usize];
            let p3 = ol.subrange(index + 2, BRANCH_FACTOR as int);
            let p4 = seq![0usize];
            lemma_sum_concat(p1 + p2 + p3, p4);
            lemma_sum_concat(p1 + p2, p3);
            lemma_sum_concat(p1, p2);
            crate::fenwick::lemma_sum_ext(p1, ol, 0, index as int);
            crate::fenwick::lemma_sum_shift(ol, p3, index + 2, 0, p3.len() as int);
            assert(sum(p2, 0, 1) == p2[0]) by {
                assert(sum(p2, 0, 0) == 0);
            }
            assert(sum(p4, 0, 1) == 0) by {
                assert(sum(p4, 0, 0) == 0);
            }
            assert(want.len() == BRANCH_FACTOR);
        }
        self.lengths.init();
    }

    /// Moves `amount` of length from child `index + 1` to child `index`.
    pub fn steal_length_from_next(&mut self, index: usize, amount: usize)
        requires
            old(self).lengths.fits(),
            index + 1 < BRANCH_FACTOR,
            old(self).lengths@[index + 1] >= amount,
        ensures
            final(self).lengths.fits(),
            final(self).children == old(self).children,
            final(self).lengths@ == moved(old(self).lengths@, index + 1, index as int, amount as int),
            total(final(self).lengths@) == total(old(self).lengths@),
    {
        self.move_length(index + 1, index, amount);
    }

    /// Moves `amount` of length from child `index - 1` to child `index`.
    pub fn steal_length_from_previous(&mut self, index: usize, amount: usize)
        requires
            old(self).lengths.fits(),
            0 < index < BRANCH_FACTOR,
            old(self).lengths@[index - 1] >= amount,
        ensures
            final(self).lengths.fits(),
            final(self).children == old(self).children,
            final(self).lengths@ == moved(old(self).lengths@, index - 1, index as int, amount as int),
            total(final(self).lengths@) == total(old(self).lengths@),
    {
        self.move_length(index - 1, index, amount);
    }

    /// Takes `amount` off the length of child `from` and adds it to child
    /// `to`, by two wrapping additions.
    fn move_length(&mut self, from: usize, to: usize, amount: usize)
        requires
            old(self).lengths.fits(),
            from < BRANCH_FACTOR,
            to < BRANCH_FACTOR,
            from != to,
            old(self).lengths@[from as int] >= amount,
        ensures
            final(self).lengths.fits(),
            final(self).children == old(self).children,
            final(self).lengths@ == moved(old(self).lengths@, from as int, to as int, amount as int),
            total(final(self).lengths@) == total(old(self).lengths@),
    {
        let ghost ol = self.lengths@;
        let ghost l1 = ol.update(from as int, (ol[from as int] - amount) as usize);
        proof {
            let x = ol[from as int] as int;
            if amount == 0 {
                lemma_wrap(x, 0);
            } else {
                lemma_wrap(x, modulus() - amount);
            }
            lemma_sum_update(ol, from as int, (ol[from as int] - amount) as usize, 0, BRANCH_FACTOR as int);
            lemma_sum_split(ol, 0, from as int, BRANCH_FACTOR as int);
            lemma_sum_split(ol, from as int, from + 1, BRANCH_FACTOR as int);
            lemma_sum_split(l1, 0, to as int, BRANCH_FACTOR as int);
            lemma_sum_split(l1, to as int, to + 1, BRANCH_FACTOR as int);
            crate::fenwick::lemma_sum_nonneg(ol, 0, from as int);
            crate::fenwick::lemma_sum_nonneg(ol, from + 1, BRANCH_FACTOR as int);
            crate::fenwick::lemma_sum_nonneg(l1, 0, to as int);
            crate::fenwick::lemma_sum_nonneg(l1, to + 1, BRANCH_FACTOR as int);
            assert(sum(ol, from as int, from + 1) == ol[from as int]) by {
                assert(sum(ol, from as int, from as int) == 0);
            }
            assert(sum(l1, to as int, to + 1) == l1[to as int]) by {
                assert(sum(l1, to as int, to as int) == 0);
            }
            lemma_sum_update(l1, to as int, (l1[to as int] + amount) as usize, 0, BRANCH_FACTOR as int);
            lemma_wrap(l1[to as int] as int, amount as int);
        }
        let neg = 0usize.wrapping_sub(amount);
        assert(neg as int == if amount == 0 { 0 } else { modulus() - amount });
        self.add_length_wrapping(from, neg);
        assert(self.lengths@ == l1);
        self.add_length_wrapping(to, amount);
        proof {
            assert(self.lengths@ =~= moved(ol, from as int, to as int, amount as int));
        }
    }

    /// Takes the length of the first child out and shifts the others down.
    pub fn pop_front_length(&mut self) -> (r: usize)
        requires
            old(self).lengths.fits(),
            0 < old(self).children@.len() <= BRANCH_FACTOR,
        ensures
            final(self).lengths.fits(),
            final(self).children == old(self).children,
            r == old(self).lengths@[0],
            final(self).lengths@ == old(self).lengths@.subrange(1, old(self).children@.len() as int)
                + seq![0usize] + old(self).lengths@.skip(old(self).children@.len() as int),
            total(final(self).lengths@) == total(old(self).lengths@) - r,
    {
        let ghost ol = self.lengths@;
        let len_children = self.len_children();
        let ghost want = ol.subrange(1, len_children as int) + seq![0usize] + ol.skip(len_children as int);
        self.lengths.fini();
        let first_len = self.lengths.flat_at(0);
        let mut i: usize = 1;
        while i < len_children
            invariant
                1 <= i <= len_children <= BRANCH_FACTOR,
                self.lengths.is_flat(),
                self.lengths@.len() == BRANCH_FACTOR,
                self.children == old(self).children,
                ol.len() == BRANCH_FACTOR,
                forall|t: int| 0 <= t < i - 1 ==> #[trigger] self.lengths@[t] == ol[t + 1],
                forall|t: int| i - 1 <= t < BRANCH_FACTOR ==> #[trigger] self.lengths@[t] == ol[t],
            decreases len_children - i,
        {
            let v = self.lengths.flat_at(i);
            self.lengths.set_flat(i - 1, v);
            i = i + 1;
        }
        self.lengths.set_flat(len_children - 1, 0);
        proof {
            assert forall|t: int| 0 <= t < BRANCH_FACTOR implies #[trigger] self.lengths@[t] == want[t] by {
                if t < len_children - 1 {
                } else if t == len_children - 1 {
                } else {
                    assert(want[t] == ol.skip(len_children as int)[t - len_children]);
                }
            }
            assert(self.lengths@ =~= want);
            let p1 = ol.subrange(1, len_children as int);
            let p2 = seq![0usize];
            let p3 = ol.skip(len_children as int);
            lemma_sum_concat(p1 + p2, p3);
            lemma_sum_concat(p1, p2);
            crate::fenwick::lemma_sum_shift(ol, p1, 1, 0, p1.len() as int);
            crate::fenwick::lemma_sum_shift(ol, p3, len_children as int, 0, p3.len() as int);
            assert(sum(p2, 0, 1) == 0) by {
                assert(sum(p2, 0, 0) == 0);
            }
            lemma_sum_split(ol, 0, 1, BRANCH_FACTOR as int);
            lemma_sum_split(ol, 1, len_children as int, BRANCH_FACTOR as int);
            assert(sum(ol, 0, 1) == ol[0]) by {
                assert(sum(ol, 0, 0) == 0);
            }
        }
        self.lengths.init();
        first_len
    }

    /// Takes the length of the last child out.
    pub fn pop_back_length(&mut self) -> (r: usize)
        requires
            old(self).lengths.fits(),
            0 < old(self).children@.len() <= BRANCH_FACTOR,
        ensures
            final(self).lengths.fits(),
            final(self).children == old(self).children,
            r == old(self).lengths@[old(self).children@.len() - 1],
            final(self).lengths@ == old(self).lengths@.update(old(self).children@.len() - 1, 0usize),
            total(final(self).lengths@) == total(old(self).lengths@) - r,
    {
        let ghost ol = self.lengths@;
        let len_children = self.len_children();
        self.lengths.fini();
        let last_len = self.lengths.flat_at(len_children - 1);
        self.lengths.set_flat(len_children - 1, 0);
        proof {
            lemma_sum_update(ol, len_children - 1, 0usize, 0, BRANCH_FACTOR as int);
        }
        self.lengths.init();
        last_len
    }

    /// Records `len` as the length of a new last child.
    pub fn push_back_length(&mut self, len: usize)
        requires
            old(self).lengths.fits(),
            old(self).children@.len() < BRANCH_FACTOR,
            old(self).lengths@[old(self).children@.len() as int] == 0,
            total(old(self).lengths@) + len <= usize::MAX,
        ensures
            final(self).lengths.fits(),
            final(self).children == old(self).children,
            final(self).lengths@ == old(self).lengths@.update(old(self).children@.len() as int, len),
            total(final(self).lengths@) == total(old(self).lengths@) + len,
    {
        let ghost ol = self.lengths@;
        let len_children = self.len_children();
        self.lengths.fini();
        self.lengths.set_flat(len_children, len);
        proof {
            lemma_sum_update(ol, len_children as int, len, 0, BRANCH_FACTOR as int);
        }
        self.lengths.init();
    }

    /// Records `len` as the length of a new first child, shifting the others up.
    pub fn push_front_length(&mut self, len: usize)
        requires
            old(self).lengths.fits(),
            old(self).children@.len() < BRANCH_FACTOR,
            old(self).lengths@[old(self).children@.len() as int] == 0,
            total(old(self).lengths@) + len <= usize::MAX,
        ensures
            final(self).lengths.fits(),
            final(self).children == old(self).children,
            final(self).lengths@ == seq![len] + old(self).lengths@.take(old(self).children@.len() as int)
                + old(self).lengths@.skip(old(self).children@.len() as int + 1),
            total(final(self).lengths@) == total(old(self).lengths@) + len,
    {
        let len_children = self.len_children();
        self.insert_length(0, len);
        proof {
            let ol = old(self).lengths@;
            assert(ol.take(0) + seq![len] + ol.subrange(0, len_children as int) + ol.skip(len_children as int + 1)
                =~= seq![len] + ol.take(len_children as int) + ol.skip(len_children as int + 1));
            let p1 = seq![len];
            let p2 = ol.take(len_children as int);
            let p3 = ol.skip(len_children as int + 1);
            lemma_sum_concat(p1 + p2, p3);
            lemma_sum_concat(p1, p2);
            crate::fenwick::lemma_sum_ext(p2, ol, 0, len_children as int);
            crate::fenwick::lemma_sum_shift(ol, p3, len_children + 1, 0, p3.len() as int);
            assert(sum(p1, 0, 1) == len) by {
                assert(sum(p1, 0, 0) == 0);
            }
            lemma_sum_split(ol, 0, len_children as int, BRANCH_FACTOR as int);
            lemma_sum_split(ol, len_children as int, len_children + 1, BRANCH_FACTOR as int);
            assert(sum(ol, len_children as int, len_children + 1) == 0) by {
                assert(sum(ol, len_children as int, len_children as int) == 0);
            }
        }
    }
}


// ---------------------------------------------------------------------------
// Moving children between nodes.
// ---------------------------------------------------------------------------

/// Replacing children `i` and `i + 1` by one node holding both keeps the
/// values.
pub proof fn lemma_children_view_merge<T>(cs: Seq<NodePtr<T>>, i: int, m: NodePtr<T>)
    requires
        0 <= i,
        i + 1 < cs.len(),
        m@ == cs[i]@ + cs[i + 1]@,
    ensures
        children_view(cs.take(i) + seq![m] + cs.skip(i + 2)) == children_view(cs),
{
    assert(cs =~= cs.take(i) + seq![cs[i]] + seq![cs[i + 1]] + cs.skip(i + 2));
    lemma_children_view_concat(cs.take(i) + seq![cs[i]] + seq![cs[i + 1]], cs.skip(i + 2));
    lemma_children_view_concat(cs.take(i) + seq![cs[i]], seq![cs[i + 1]]);
    lemma_children_view_concat(cs.take(i), seq![cs[i]]);
    lemma_children_view_concat(cs.take(i) + seq![m], cs.skip(i + 2));
    lemma_children_view_concat(cs.take(i), seq![m]);
    lemma_children_view_one(cs[i]);
    lemma_children_view_one(cs[i + 1]);
    lemma_children_view_one(m);
    let a = children_view(cs.take(i));
    let b = children_view(cs.skip(i + 2));
    assert(a + cs[i]@ + cs[i + 1]@ + b =~= a + m@ + b);
}

/// Moving values between children `i` and `i + 1` keeps the values.
pub proof fn lemma_children_view_steal<T>(cs: Seq<NodePtr<T>>, i: int, a: NodePtr<T>, b: NodePtr<T>)
    requires
        0 <= i,
        i + 1 < cs.len(),
        a@ + b@ == cs[i]@ + cs[i + 1]@,
    ensures
        children_view(cs.update(i, a).update(i + 1, b)) == children_view(cs),
{
    let ns = cs.update(i, a).update(i + 1, b);
    assert(ns =~= cs.take(i) + seq![a] + seq![b] + cs.skip(i + 2));
    assert(cs =~= cs.take(i) + seq![cs[i]] + seq![cs[i + 1]] + cs.skip(i + 2));
    lemma_children_view_concat(cs.take(i) + seq![cs[i]] + seq![cs[i + 1]], cs.skip(i + 2));
    lemma_children_view_concat(cs.take(i) + seq![cs[i]], seq![cs[i + 1]]);
    lemma_children_view_concat(cs.take(i), seq![cs[i]]);
    lemma_children_view_concat(cs.take(i) + seq![a] + seq![b], cs.skip(i + 2));
    lemma_children_view_concat(cs.take(i) + seq![a], seq![b]);
    lemma_children_view_concat(cs.take(i), seq![a]);
    lemma_children_view_one(cs[i]);
    lemma_children_view_one(cs[i + 1]);
    lemma_children_view_one(a);
    lemma_children_view_one(b);
    let p = children_view(cs.take(i));
    let q = children_view(cs.skip(i + 2));
    assert(p + cs[i]@ + cs[i + 1]@ + q =~= p + (cs[i]@ + cs[i + 1]@) + q);
    assert(p + a@ + b@ + q =~= p + (a@ + b@) + q);
}

impl<T> InternalNode<T> {
    /// Copies the lengths of `other`'s children after those of this node's.
    pub fn append_lengths(&mut self, other: &mut InternalNode<T>)
        requires
            old(self).shape(0),
            old(other).shape(0),
            old(self).children@.len() + old(other).children@.len() <= BRANCH_FACTOR,
            total(old(self).lengths@) + total(old(other).lengths@) <= usize::MAX,
        ensures
            final(self).lengths.fits(),
            final(self).children == old(self).children,
            final(other).children == old(other).children,
            final(self).lengths@ == old(self).lengths@.take(old(self).children@.len() as int)
                + old(other).lengths@.take(old(other).children@.len() as int) + old(self).lengths@.skip(
                (old(self).children@.len() + old(other).children@.len()) as int,
            ),
            total(final(self).lengths@) == total(old(self).lengths@) + total(old(other).lengths@),
    {
        let ghost ol = self.lengths@;
        let ghost oo = other.lengths@;
        let a = self.len_children();
        let b = other.len_children();
        let ghost want = ol.take(a as int) + oo.take(b as int) + ol.skip((a + b) as int);
        proof {
            lemma_children_total(ol, self.children@);
            lemma_children_total(oo, other.children@);
        }
        other.lengths.fini();
        self.lengths.fini();
        let mut i: usize = 0;
        while i < b
            invariant
                a + b <= BRANCH_FACTOR,
                i <= b,
                self.lengths.is_flat(),
                other.lengths.is_flat(),
                self.lengths@.len() == BRANCH_FACTOR,
                other.lengths@ == oo,
                self.children == old(self).children,
                other.children == old(other).children,
                ol.len() == BRANCH_FACTOR,
                oo.len() == BRANCH_FACTOR,
                forall|t: int| 0 <= t < a ==> #[trigger] self.lengths@[t] == ol[t],
                forall|t: int| a <= t < a + i ==> #[trigger] self.lengths@[t] == oo[t - a],
                forall|t: int| a + i <= t < BRANCH_FACTOR ==> #[trigger] self.lengths@[t] == ol[t],
            decreases b - i,
        {
            let v = other.lengths.flat_at(i);
            self.lengths.set_flat(a + i, v);
            i = i + 1;
        }
        proof {
            assert forall|t: int| 0 <= t < BRANCH_FACTOR implies #[trigger] self.lengths@[t] == want[t] by {
                if t < a {
                } else if t < a + b {
                    assert(want[t] == oo.take(b as int)[t - a]);
                } else {
                    assert(want[t] == ol.skip((a + b) as int)[t - a - b]);
                }
            }
            assert(self.lengths@ =~= want);
            let p1 = ol.take(a as int);
            let p2 = oo.take(b as int);
            let p3 = ol.skip((a + b) as int);
            lemma_sum_concat(p1 + p2, p3);
            lemma_sum_concat(p1, p2);
            crate::fenwick::lemma_sum_ext(p1, ol, 0, a as int);
            crate::fenwick::lemma_sum_ext(p2, oo, 0, b as int);
            crate::fenwick::lemma_sum_shift(ol, p3, a + b, 0, p3.len() as int);
            lemma_sum_split(ol, 0, a as int, BRANCH_FACTOR as int);
            lemma_sum_split(oo, 0, b as int, BRANCH_FACTOR as int);
            crate::node::lemma_zero_tail(ol, old(self).children@, a as int, BRANCH_FACTOR as int);
            crate::node::lemma_zero_tail(oo, old(other).children@, b as int, BRANCH_FACTOR as int);
            crate::node::lemma_zero_tail(ol, old(self).children@, a + b, BRANCH_FACTOR as int);
            crate::fenwick::lemma_sum_shift(ol, p3, a + b, 0, p3.len() as int);
        }
        self.lengths.init();
    }

    /// Moves all of `other`'s children after this node's.
    pub fn append_children(&mut self, other: &mut InternalNode<T>)
        requires
            old(self).shape(0),
            old(other).shape(0),
            old(self).children@.len() + old(other).children@.len() <= BRANCH_FACTOR,
            total(old(self).lengths@) + total(old(other).lengths@) <= usize::MAX,
        ensures
            final(self).shape(0),
            final(self).children@ == old(self).children@ + old(other).children@,
            final(other).children@ == Seq::<NodePtr<T>>::empty(),
    {
        let ghost ocs = self.children@;
        let ghost ol = self.lengths@;
        let ghost ocs2 = other.children@;
        let ghost ol2 = other.lengths@;
        self.append_lengths(other);
        self.children.append(&mut other.children);
        proof {
            let nl = self.lengths@;
            let ncs = self.children@;
            assert forall|i: int| 0 <= i < BRANCH_FACTOR implies #[trigger] nl[i] as int == if i < ncs.len() {
                ncs[i]@.len() as int
            } else {
                0
            } by {
                if i < ocs.len() {
                    assert(nl[i] == ol[i]);
                } else if i < ncs.len() {
                    assert(nl[i] == ol2.take(ocs2.len() as int)[i - ocs.len()]);
                    assert(ol2[i - ocs.len()] as int == ocs2[i - ocs.len()]@.len());
                } else {
                    assert(nl[i] == ol.skip(ncs.len() as int)[i - ncs.len()]);
                }
            }
        }
    }

    /// Inserts `child` before the first child.
    pub fn push_front_child(&mut self, child: RawNodeWithLen<T>)
        requires
            old(self).shape(0),
            old(self).children@.len() < BRANCH_FACTOR,
            child.0 == child.1@.len(),
            total(old(self).lengths@) + child.0 <= usize::MAX,
        ensures
            final(self).shape(0),
            final(self).children@ == seq![child.1] + old(self).children@,
    {
        proof {
            assert(old(self).lengths@[old(self).children@.len() as int] == 0);
        }
        let ghost ol = self.lengths@;
        let ghost ocs = self.children@;
        self.push_front_length(child.0);
        self.children.insert(0, child.1);
        proof {
            let nl = self.lengths@;
            let ncs = self.children@;
            assert(ncs =~= seq![child.1] + ocs);
            assert forall|i: int| 0 <= i < BRANCH_FACTOR implies #[trigger] nl[i] as int == if i < ncs.len() {
                ncs[i]@.len() as int
            } else {
                0
            } by {
                if i == 0 {
                } else if i < ncs.len() {
                    assert(nl[i] == ol[i - 1]);
                } else {
                    assert(nl[i] == ol[i]);
                }
            }
        }
    }

    /// Takes the first child out, with its length.
    pub fn pop_front_child(&mut self) -> (r: RawNodeWithLen<T>)
        requires
            old(self).shape(1),
        ensures
            final(self).shape(0),
            final(self).children@ == old(self).children@.drop_first(),
            r.1 == old(self).children@[0],
            r.0 == r.1@.len(),
            total(final(self).lengths@) == total(old(self).lengths@) - r.0,
    {
        let ghost ol = self.lengths@;
        let ghost ocs = self.children@;
        let node_len = self.pop_front_length();
        let node = self.children.remove(0);
        proof {
            let nl = self.lengths@;
            let ncs = self.children@;
            assert(ncs =~= ocs.drop_first());
            assert(ol[0] as int == ocs[0]@.len());
            assert forall|i: int| 0 <= i < BRANCH_FACTOR implies #[trigger] nl[i] as int == if i < ncs.len() {
                ncs[i]@.len() as int
            } else {
                0
            } by {
                if i < ncs.len() {
                    assert(nl[i] == ol[i + 1]);
                } else if i == ncs.len() {
                } else {
                    assert(nl[i] == ol[i]);
                }
            }
        }
        RawNodeWithLen(node_len, node)
    }

    /// Takes the last child out, with its length.
    pub fn pop_back_child(&mut self) -> (r: RawNodeWithLen<T>)
        requires
            old(self).shape(1),
        ensures
            final(self).shape(0),
            final(self).children@ == old(self).children@.drop_last(),
            r.1 == old(self).children@.last(),
            r.0 == r.1@.len(),
            total(final(self).lengths@) == total(old(self).lengths@) - r.0,
    {
        let ghost ol = self.lengths@;
        let ghost ocs = self.children@;
        let last_len = self.pop_back_length();
        let len_children = self.len_children();
        let last = self.children.remove(len_children - 1);
        proof {
            let nl = self.lengths@;
            let ncs = self.children@;
            assert(ncs =~= ocs.drop_last());
            assert(ol[ocs.len() - 1] as int == ocs.last()@.len());
            assert forall|i: int| 0 <= i < BRANCH_FACTOR implies #[trigger] nl[i] as int == if i < ncs.len() {
                ncs[i]@.len() as int
            } else {
                0
            } by {
                if i < ncs.len() {
                    assert(nl[i] == ol[i]);
                }
            }
        }
        RawNodeWithLen(last_len, last)
    }
}

// ---------------------------------------------------------------------------
// Refilling an underfull child.
// ---------------------------------------------------------------------------

/// Two different slots together hold at most the total.
pub proof fn lemma_two_slots(ol: Seq<usize>, i: int, j: int)
    requires
        ol.len() == BRANCH_FACTOR,
        0 <= i < j < BRANCH_FACTOR,
    ensures
        ol[i] + ol[j] <= total(ol),
{
    lemma_sum_split(ol, 0, i, BRANCH_FACTOR as int);
    lemma_sum_split(ol, i, i + 1, BRANCH_FACTOR as int);
    lemma_sum_split(ol, i + 1, j, BRANCH_FACTOR as int);
    lemma_sum_split(ol, j, j + 1, BRANCH_FACTOR as int);
    crate::fenwick::lemma_sum_nonneg(ol, 0, i);
    crate::fenwick::lemma_sum_nonneg(ol, i + 1, j);
    crate::fenwick::lemma_sum_nonneg(ol, j + 1, BRANCH_FACTOR as int);
    assert(sum(ol, i, i + 1) == ol[i]) by {
        assert(sum(ol, i, i) == 0);
    }
    assert(sum(ol, j, j + 1) == ol[j]) by {
        assert(sum(ol, j, j) == 0);
    }
}

/// After merging or stealing, the lengths match the new children.
proof fn lemma_lens_after_merge<T>(ol: Seq<usize>, cs: Seq<NodePtr<T>>, i: int, m: NodePtr<T>, nl: Seq<usize>)
    requires
        lens_match(ol, cs),
        0 <= i,
        i + 1 < cs.len(),
        m@.len() == cs[i]@.len() + cs[i + 1]@.len(),
        ol[i] + ol[i + 1] <= usize::MAX,
        nl == ol.take(i) + seq![(ol[i] + ol[i + 1]) as usize] + ol.subrange(i + 2, BRANCH_FACTOR as int)
            + seq![0usize],
    ensures
        lens_match(nl, cs.take(i) + seq![m] + cs.skip(i + 2)),
{
    let ncs = cs.take(i) + seq![m] + cs.skip(i + 2);
    assert forall|t: int| 0 <= t < BRANCH_FACTOR implies #[trigger] nl[t] as int == if t < ncs.len() {
        ncs[t]@.len() as int
    } else {
        0
    } by {
        if t < i {
            assert(nl[t] == ol[t]);
            assert(ncs[t] == cs[t]);
        } else if t == i {
            assert(ol[i] as int == cs[i]@.len());
            assert(ol[i + 1] as int == cs[i + 1]@.len());
        } else if t < BRANCH_FACTOR - 1 {
            assert(nl[t] == ol.subrange(i + 2, BRANCH_FACTOR as int)[t - i - 1]);
            assert(nl[t] == ol[t + 1]);
            assert(ol[t + 1] as int == if t + 1 < cs.len() { cs[t + 1]@.len() as int } else { 0 });
            if t < ncs.len() {
                assert(ncs[t] == cs[t + 1]);
            }
        } else {
        }
    }
}

proof fn lemma_lens_after_steal<T>(ol: Seq<usize>, cs: Seq<NodePtr<T>>, i: int, j: int, a: NodePtr<T>, b: NodePtr<T>, amount: int)
    requires
        lens_match(ol, cs),
        0 <= i < cs.len(),
        0 <= j < cs.len(),
        i != j,
        a@.len() == cs[i]@.len() + amount,
        b@.len() == cs[j]@.len() - amount,
        0 <= amount <= ol[j],
        ol[i] + ol[j] <= usize::MAX,
    ensures
        lens_match(moved(ol, j, i, amount), cs.update(i, a).update(j, b)),
{
    let ncs = cs.update(i, a).update(j, b);
    let nl = moved(ol, j, i, amount);
    assert forall|t: int| 0 <= t < BRANCH_FACTOR implies #[trigger] nl[t] as int == if t < ncs.len() {
        ncs[t]@.len() as int
    } else {
        0
    } by {
        assert(ol[t] as int == if t < cs.len() { cs[t]@.len() as int } else { 0 });
        assert(ol[i] as int == cs[i]@.len());
        assert(ol[j] as int == cs[j]@.len());
    }
}

impl<T> InternalNode<T> {
    /// The first child, a leaf, is underfull: merges it with the second one
    /// when that one is almost underfull, or else moves a value over from it.
    pub fn handle_underfull_leaf_child_head(&mut self)
        requires
            old(self).shape(2),
            old(self).children_wf_but(1, 0),
            old(self).children@[0].leaf().values@.len() <= (leaf_cap::<T>() - 1) / 2,
        ensures
            final(self).shape(old(self).children@.len() - 1),
            final(self).children_wf(1),
            final(self)@ == old(self)@,
            if old(self).children@[1].leaf().values@.len() <= (leaf_cap::<T>() - 1) / 2 + 1 {
                joined(old(self).children@, final(self).children@, 0)
            } else {
                shifted(old(self).children@, final(self).children@, 0, false)
            },
    {
        proof {
            lemma_leaf_cap::<T>();
        }
        let ghost cs = self.children@;
        let ghost ol = self.lengths@;
        proof {
            assert(cs[0].wf(0, node_min::<T>(0) - 1));
            assert(cs[1].wf(0, node_min::<T>(0)));
            lemma_children_total(ol, cs);
        }
        let mut next_ptr = self.children.remove(1);
        let next = next_ptr.leaf_mut();
        if next.is_almost_underfull() {
            let cur_ptr = &mut self.children[0];
            let cur = cur_ptr.leaf_mut();
            cur.values.append(&mut next.values);
            let ghost m = self.children@[0];
            proof {
                assert(self.children@ =~= cs.take(0) + seq![m] + cs.skip(2));
                lemma_two_slots(ol, 0, 1);
            }
            self.merge_length_from_next(0);
            proof {
                lemma_lens_after_merge(ol, cs, 0, m, self.lengths@);
                lemma_children_view_merge(cs, 0, m);
                assert forall|i: int| 0 <= i < self.children@.len() implies (#[trigger] self.children@[i]).wf(
                    0,
                    node_min::<T>(0),
                ) by {
                    if i > 0 {
                        assert(self.children@[i] == cs[i + 1]);
                    }
                }
            }
        } else {
            let x = next.pop_front_child();
            let cur_ptr = &mut self.children[0];
            cur_ptr.leaf_mut().push_back_child(x);
            let ghost a = self.children@[0];
            self.children.insert(1, next_ptr);
            proof {
                let b = self.children@[1];
                assert(self.children@ =~= cs.update(0, a).update(1, b));
                assert(a@ + b@ =~= cs[0]@ + cs[1]@);
                lemma_two_slots(ol, 0, 1);
                lemma_lens_after_steal(ol, cs, 0, 1, a, b, 1);
                lemma_children_view_steal(cs, 0, a, b);
                assert forall|i: int| 0 <= i < self.children@.len() implies (#[trigger] self.children@[i]).wf(
                    0,
                    node_min::<T>(0),
                ) by {
                    if i > 1 {
                        assert(self.children@[i] == cs[i]);
                    }
                }
            }
            self.steal_length_from_next(0, 1);
        }
    }

    /// Child `index` (not the first), a leaf, is underfull: merges it into
    /// the previous one when that one is almost underfull, or else moves a
    /// value over from it.
    pub fn handle_underfull_leaf_child_tail(&mut self, index: usize)
        requires
            old(self).shape(2),
            0 < index < old(self).children@.len(),
            old(self).children_wf_but(1, index as int),
            old(self).children@[index as int].leaf().values@.len() <= (leaf_cap::<T>() - 1) / 2,
        ensures
            final(self).shape(old(self).children@.len() - 1),
            final(self).children_wf(1),
            final(self)@ == old(self)@,
            if old(self).children@[index - 1].leaf().values@.len() <= (leaf_cap::<T>() - 1) / 2 + 1 {
                joined(old(self).children@, final(self).children@, index - 1)
            } else {
                shifted(old(self).children@, final(self).children@, index - 1, true)
            },
    {
        proof {
            lemma_leaf_cap::<T>();
        }
        let ghost cs = self.children@;
        let ghost ol = self.lengths@;
        let ghost p = index - 1;
        proof {
            assert(cs[index as int].wf(0, node_min::<T>(0) - 1));
            assert(cs[p].wf(0, node_min::<T>(0)));
            lemma_children_total(ol, cs);
        }
        let mut cur_ptr = self.children.remove(index);
        let cur = cur_ptr.leaf_mut();
        let prev_ptr = &mut self.children[index - 1];
        let prev = prev_ptr.leaf_mut();
        if prev.is_almost_underfull() {
            prev.values.append(&mut cur.values);
            let ghost m = self.children@[p];
            proof {
                assert(self.children@ =~= cs.take(p) + seq![m] + cs.skip(p + 2));
                lemma_two_slots(ol, p, p + 1);
            }
            self.merge_length_from_next(index - 1);
            proof {
                lemma_lens_after_merge(ol, cs, p, m, self.lengths@);
                lemma_children_view_merge(cs, p, m);
                assert forall|i: int| 0 <= i < self.children@.len() implies (#[trigger] self.children@[i]).wf(
                    0,
                    node_min::<T>(0),
                ) by {
                    if i < p {
                        assert(self.children@[i] == cs[i]);
                    } else if i > p {
                        assert(self.children@[i] == cs[i + 1]);
                    }
                }
            }
        } else {
            let x = prev.pop_back_child();
            cur.push_front_child(x);
            let ghost a = self.children@[p];
            self.children.insert(index, cur_ptr);
            proof {
                let b = self.children@[index as int];
                assert(self.children@ =~= cs.update(p, a).update(p + 1, b));
                assert(a@ + b@ =~= cs[p]@ + cs[p + 1]@);
                lemma_two_slots(ol, p, p + 1);
                lemma_lens_after_steal(ol, cs, index as int, p, b, a, 1);
                assert(cs.update(index as int, b).update(p, a) =~= cs.update(p, a).update(p + 1, b));
                lemma_children_view_steal(cs, p, a, b);
                assert forall|i: int| 0 <= i < self.children@.len() implies (#[trigger] self.children@[i]).wf(
                    0,
                    node_min::<T>(0),
                ) by {
                    if i != p && i != index {
                        assert(self.children@[i] == cs[i]);
                    }
                }
            }
            self.steal_length_from_previous(index, 1);
        }
    }
}

/// A node that merges two internal siblings is well formed.
proof fn lemma_merged_internal<T>(a: InternalNode<T>, b: InternalNode<T>, m: InternalNode<T>, h: nat)
    requires
        h >= 1,
        a.children_wf(h),
        b.children_wf(h),
        m.children@ == a.children@ + b.children@,
    ensures
        m.children_wf(h),
        children_view(m.children@) == children_view(a.children@) + children_view(b.children@),
{
    assert forall|i: int| 0 <= i < m.children@.len() implies (#[trigger] m.children@[i]).wf(
        (h - 1) as nat,
        node_min::<T>((h - 1) as nat),
    ) by {
        if i < a.children@.len() {
            assert(m.children@[i] == a.children@[i]);
        } else {
            assert(m.children@[i] == b.children@[i - a.children@.len()]);
        }
    }
    lemma_children_view_concat(a.children@, b.children@);
}

impl<T> InternalNode<T> {
    /// The first child, an internal node, is underfull: merges it with the
    /// second one when that one is almost underfull, or else moves a child
    /// over from it.
    pub fn handle_underfull_internal_child_head(&mut self, Ghost(h): Ghost<nat>)
        requires
            h >= 2,
            old(self).shape(2),
            old(self).children_wf_but(h, 0),
            old(self).children@[0].internal().children@.len() <= UNDERFULL_LEN,
        ensures
            final(self).shape(old(self).children@.len() - 1),
            final(self).children_wf(h),
            final(self)@ == old(self)@,
            if old(self).children@[1].internal().children@.len() <= UNDERFULL_LEN + 1 {
                joined(old(self).children@, final(self).children@, 0)
            } else {
                shifted(old(self).children@, final(self).children@, 0, false)
            },
    {
        let ghost cs = self.children@;
        let ghost ol = self.lengths@;
        proof {
            assert(cs[0].wf((h - 1) as nat, node_min::<T>((h - 1) as nat) - 1));
            assert(cs[1].wf((h - 1) as nat, node_min::<T>((h - 1) as nat)));
            lemma_children_total(ol, cs);
            lemma_two_slots(ol, 0, 1);
            lemma_children_total(cs[0].internal().lengths@, cs[0].internal().children@);
            lemma_children_total(cs[1].internal().lengths@, cs[1].internal().children@);
        }
        let mut next_ptr = self.children.remove(1);
        let next = next_ptr.internal_mut();
        if next.is_almost_underfull() {
            let ghost nx = *next;
            let cur_ptr = &mut self.children[0];
            let cur = cur_ptr.internal_mut();
            let ghost c0 = *cur;
            cur.append_children(next);
            let ghost m = self.children@[0];
            proof {
                lemma_merged_internal(c0, nx, m.internal(), (h - 1) as nat);
                assert(self.children@ =~= cs.take(0) + seq![m] + cs.skip(2));
                assert(m.wf((h - 1) as nat, node_min::<T>((h - 1) as nat)));
            }
            self.merge_length_from_next(0);
            proof {
                lemma_lens_after_merge(ol, cs, 0, m, self.lengths@);
                lemma_children_view_merge(cs, 0, m);
                assert forall|i: int| 0 <= i < self.children@.len() implies (#[trigger] self.children@[i]).wf(
                    (h - 1) as nat,
                    node_min::<T>((h - 1) as nat),
                ) by {
                    if i > 0 {
                        assert(self.children@[i] == cs[i + 1]);
                    }
                }
            }
        } else {
            let ghost nx = *next;
            let x = next.pop_front_child();
            let x_len = x.0;
            let ghost xn = x.1;
            let ghost nx2 = *next;
            proof {
                assert(nx.children@ =~= seq![xn] + nx2.children@);
                lemma_children_view_concat(seq![xn], nx2.children@);
                lemma_children_view_one(xn);
                assert(xn.wf((h - 2) as nat, node_min::<T>((h - 2) as nat)));
            }
            let cur_ptr = &mut self.children[0];
            let cur = cur_ptr.internal_mut();
            let ghost c0 = *cur;
            cur.push_back_child(x);
            let ghost a = self.children@[0];
            self.children.insert(1, next_ptr);
            proof {
                let b = self.children@[1];
                let ac = a.internal().children@;
                assert(ac =~= c0.children@ + seq![xn]);
                lemma_children_view_concat(c0.children@, seq![xn]);
                assert forall|i: int| 0 <= i < ac.len() implies (#[trigger] ac[i]).wf(
                    (h - 2) as nat,
                    node_min::<T>((h - 2) as nat),
                ) by {
                    if i < c0.children@.len() {
                        assert(ac[i] == c0.children@[i]);
                    }
                }
                assert forall|i: int| 0 <= i < nx2.children@.len() implies (#[trigger] nx2.children@[i]).wf(
                    (h - 2) as nat,
                    node_min::<T>((h - 2) as nat),
                ) by {
                    assert(nx2.children@[i] == nx.children@[i + 1]);
                }
                assert(a.wf((h - 1) as nat, node_min::<T>((h - 1) as nat)));
                assert(b.wf((h - 1) as nat, node_min::<T>((h - 1) as nat)));
                assert(self.children@ =~= cs.update(0, a).update(1, b));
                assert(a@ + b@ =~= cs[0]@ + cs[1]@);
                lemma_lens_after_steal(ol, cs, 0, 1, a, b, x_len as int);
                lemma_children_view_steal(cs, 0, a, b);
                assert forall|i: int| 0 <= i < self.children@.len() implies (#[trigger] self.children@[i]).wf(
                    (h - 1) as nat,
                    node_min::<T>((h - 1) as nat),
                ) by {
                    if i > 1 {
                        assert(self.children@[i] == cs[i]);
                    }
                }
            }
            self.steal_length_from_next(0, x_len);
        }
    }

    /// Child `index` (not the first), an internal node, is underfull: merges
    /// it into the previous one when that one is almost underfull, or else
    /// moves a child over from it.
    pub fn handle_underfull_internal_child_tail(&mut self, index: usize, Ghost(h): Ghost<nat>)
        requires
            h >= 2,
            old(self).shape(2),
            0 < index < old(self).children@.len(),
            old(self).children_wf_but(h, index as int),
            old(self).children@[index as int].internal().children@.len() <= UNDERFULL_LEN,
        ensures
            final(self).shape(old(self).children@.len() - 1),
            final(self).children_wf(h),
            final(self)@ == old(self)@,
            if old(self).children@[index - 1].internal().children@.len() <= UNDERFULL_LEN + 1 {
                joined(old(self).children@, final(self).children@, index - 1)
            } else {
                shifted(old(self).children@, final(self).children@, index - 1, true)
            },
    {
        let ghost cs = self.children@;
        let ghost ol = self.lengths@;
        let ghost p = index - 1;
        proof {
            assert(cs[index as int].wf((h - 1) as nat, node_min::<T>((h - 1) as nat) - 1));
            assert(cs[p].wf((h - 1) as nat, node_min::<T>((h - 1) as nat)));
            lemma_children_total(ol, cs);
            lemma_two_slots(ol, p, p + 1);
            lemma_children_total(cs[p].internal().lengths@, cs[p].internal().children@);
            lemma_children_total(cs[p + 1].internal().lengths@, cs[p + 1].internal().children@);
        }
        let mut cur_ptr = self.children.remove(index);
        let cur = cur_ptr.internal_mut();
        let prev_ptr = &mut self.children[index - 1];
        let prev = prev_ptr.internal_mut();
        if prev.is_almost_underfull() {
            let ghost c0 = *cur;
            let ghost p0 = *prev;
            prev.append_children(cur);
            let ghost m = self.children@[p];
            proof {
                lemma_merged_internal(p0, c0, m.internal(), (h - 1) as nat);
                assert(self.children@ =~= cs.take(p) + seq![m] + cs.skip(p + 2));
                assert(m.wf((h - 1) as nat, node_min::<T>((h - 1) as nat)));
            }
            self.merge_length_from_next(index - 1);
            proof {
                lemma_lens_after_merge(ol, cs, p, m, self.lengths@);
                lemma_children_view_merge(cs, p, m);
                assert forall|i: int| 0 <= i < self.children@.len() implies (#[trigger] self.children@[i]).wf(
                    (h - 1) as nat,
                    node_min::<T>((h - 1) as nat),
                ) by {
                    if i < p {
                        assert(self.children@[i] == cs[i]);
                    } else if i > p {
                        assert(self.children@[i] == cs[i + 1]);
                    }
                }
            }
        } else {
            let ghost p0 = *prev;
            let x = prev.pop_back_child();
            let x_len = x.0;
            let ghost xn = x.1;
            let ghost p2 = *prev;
            let ghost c0 = *cur;
            proof {
                assert(p0.children@ =~= p2.children@ + seq![xn]);
                lemma_children_view_concat(p2.children@, seq![xn]);
                lemma_children_view_one(xn);
                assert(xn.wf((h - 2) as nat, node_min::<T>((h - 2) as nat)));
            }
            cur.push_front_child(x);
            let ghost a = self.children@[p];
            self.children.insert(index, cur_ptr);
            proof {
                let b = self.children@[index as int];
                let bc = b.internal().children@;
                assert(bc =~= seq![xn] + c0.children@);
                lemma_children_view_concat(seq![xn], c0.children@);
                assert forall|i: int| 0 <= i < bc.len() implies (#[trigger] bc[i]).wf(
                    (h - 2) as nat,
                    node_min::<T>((h - 2) as nat),
                ) by {
                    if i > 0 {
                        assert(bc[i] == c0.children@[i - 1]);
                    }
                }
                assert forall|i: int| 0 <= i < p2.children@.len() implies (#[trigger] p2.children@[i]).wf(
                    (h - 2) as nat,
                    node_min::<T>((h - 2) as nat),
                ) by {
                    assert(p2.children@[i] == p0.children@[i]);
                }
                assert(a.wf((h - 1) as nat, node_min::<T>((h - 1) as nat)));
                assert(b.wf((h - 1) as nat, node_min::<T>((h - 1) as nat)));
                assert(self.children@ =~= cs.update(p, a).update(p + 1, b));
                assert(a@ + b@ =~= cs[p]@ + cs[p + 1]@);
                lemma_lens_after_steal(ol, cs, index as int, p, b, a, x_len as int);
                assert(cs.update(index as int, b).update(p, a) =~= cs.update(p, a).update(p + 1, b));
                lemma_children_view_steal(cs, p, a, b);
                assert forall|i: int| 0 <= i < self.children@.len() implies (#[trigger] self.children@[i]).wf(
                    (h - 1) as nat,
                    node_min::<T>((h - 1) as nat),
                ) by {
                    if i != p && i != index {
                        assert(self.children@[i] == cs[i]);
                    }
                }
            }
            self.steal_length_from_previous(index, x_len);
        }
    }

    /// Refills child `index`, an internal node, when it is underfull; tells
    /// whether it was.
    pub fn maybe_handle_underfull_child(&mut self, index: usize, Ghost(h): Ghost<nat>) -> (r: bool)
        requires
            h >= 2,
            old(self).shape(2),
            index < old(self).children@.len(),
            old(self).children_wf_but(h, index as int),
        ensures
            r == (old(self).children@[index as int].internal().children@.len() <= UNDERFULL_LEN),
            final(self).shape(old(self).children@.len() - 1),
            final(self).children_wf(h),
            final(self)@ == old(self)@,
            !r ==> *final(self) == *old(self),
            r && index > 0 ==> if old(self).children@[index - 1].internal().children@.len()
                <= UNDERFULL_LEN + 1 {
                joined(old(self).children@, final(self).children@, index - 1)
            } else {
                shifted(old(self).children@, final(self).children@, index - 1, true)
            },
            r && index == 0 ==> if old(self).children@[1].internal().children@.len() <= UNDERFULL_LEN
                + 1 {
                joined(old(self).children@, final(self).children@, 0)
            } else {
                shifted(old(self).children@, final(self).children@, 0, false)
            },
    {
        proof {
            assert(self.children@[index as int].wf((h - 1) as nat, node_min::<T>((h - 1) as nat) - 1));
        }
        let is_child_underfull = self.children[index].internal_ref().is_underfull();
        if is_child_underfull {
            if index > 0 {
                self.handle_underfull_internal_child_tail(index, Ghost(h));
            } else {
                self.handle_underfull_internal_child_head(Ghost(h));
            }
        } else {
            proof {
                assert forall|i: int| 0 <= i < self.children@.len() implies (#[trigger] self.children@[i]).wf(
                    (h - 1) as nat,
                    node_min::<T>((h - 1) as nat),
                ) by {
                    assert(self.children@[i].wf((h - 1) as nat, if i == index { node_min::<T>((h - 1) as nat) - 1 } else { node_min::<T>((h - 1) as nat) }));
                }
            }
        }
        is_child_underfull
    }
}
} // verus!
