//! Growing internal nodes: inserting children and splitting full nodes.
use vstd::prelude::*;

use crate::fenwick::{
    lemma_sum_split, lemma_sum_update, lemma_sum_ext, lemma_sum_shift, modulus, total, sum, BRANCH_FACTOR,
};
use crate::node::{
    children_view, lemma_children_total, lemma_children_view_at, lemma_children_view_concat,
    lemma_children_view_one, lens_match, InternalNode, NodePtr, RawNodeWithLen,
};

verus! {

broadcast use vstd::std_specs::vec::group_vec_axioms;

/// `(x + a) % M` for `x`, `a` in the `usize` range, without the modulus.
pub proof fn lemma_wrap(x: int, a: int)
    requires
        0 <= x <= usize::MAX,
        0 <= a <= usize::MAX,
    ensures
        (x + a) % modulus() == if x + a < modulus() {
            x + a
        } else {
            x + a - modulus()
        },
{
    if x + a < modulus() {
        vstd::arithmetic::div_mod::lemma_small_mod((x + a) as nat, modulus() as nat);
    } else {
        vstd::arithmetic::div_mod::lemma_small_mod((x + a - modulus()) as nat, modulus() as nat);
        vstd::arithmetic::div_mod::lemma_mod_sub_multiples_vanish(x + a, modulus());
    }
}

/// The values below `cs` after child `c` was replaced by `x` and `y`.
pub proof fn lemma_children_view_replace2<T>(cs: Seq<NodePtr<T>>, c: int, x: NodePtr<T>, y: NodePtr<T>)
    requires
        0 <= c < cs.len(),
    ensures
        children_view(cs.update(c, x).insert(c + 1, y)) == children_view(cs.take(c)) + x@ + y@
            + children_view(cs.skip(c + 1)),
{
    let ns = cs.update(c, x).insert(c + 1, y);
    assert(ns =~= cs.take(c) + seq![x] + (seq![y] + cs.skip(c + 1)));
    lemma_children_view_concat(cs.take(c) + seq![x], seq![y] + cs.skip(c + 1));
    lemma_children_view_concat(cs.take(c), seq![x]);
    lemma_children_view_concat(seq![y], cs.skip(c + 1));
    lemma_children_view_one(x);
    lemma_children_view_one(y);
}

/// The values below `cs` after child `c` was replaced by `x`.
pub proof fn lemma_children_view_replace<T>(cs: Seq<NodePtr<T>>, c: int, x: NodePtr<T>)
    requires
        0 <= c < cs.len(),
    ensures
        children_view(cs.update(c, x)) == children_view(cs.take(c)) + x@ + children_view(
            cs.skip(c + 1),
        ),
{
    let ns = cs.update(c, x);
    lemma_children_view_at(ns, c);
    assert(ns.take(c) =~= cs.take(c));
    assert(ns.skip(c + 1) =~= cs.skip(c + 1));
}

/// The values below `cs` with `x` inserted as child `c`.
pub proof fn lemma_children_view_insert<T>(cs: Seq<NodePtr<T>>, c: int, x: NodePtr<T>)
    requires
        0 <= c <= cs.len(),
    ensures
        children_view(cs.insert(c, x)) == children_view(cs.take(c)) + x@ + children_view(
            cs.skip(c),
        ),
        children_view(cs) == children_view(cs.take(c)) + children_view(cs.skip(c)),
{
    assert(cs.insert(c, x) =~= cs.take(c) + seq![x] + cs.skip(c));
    assert(cs =~= cs.take(c) + cs.skip(c));
    lemma_children_view_concat(cs.take(c) + seq![x], cs.skip(c));
    lemma_children_view_concat(cs.take(c), seq![x]);
    lemma_children_view_concat(cs.take(c), cs.skip(c));
    lemma_children_view_one(x);
}

impl<T> InternalNode<T> {
    /// Makes room for a child at `index` in the lengths and records `len`
    /// there; the slot just past the last child is overwritten.
    pub fn insert_length(&mut self, index: usize, len: usize)
        requires
            old(self).lengths.fits(),
            index <= old(self).children@.len() < BRANCH_FACTOR,
            total(old(self).lengths@) - old(self).lengths@[old(self).children@.len() as int] + len
                <= usize::MAX,
        ensures
            final(self).lengths.fits(),
            final(self).children == old(self).children,
            final(self).lengths@ == old(self).lengths@.take(index as int) + seq![len]
                + old(self).lengths@.subrange(index as int, old(self).children@.len() as int)
                + old(self).lengths@.skip(old(self).children@.len() as int + 1),
    {
        let ghost old_lens = self.lengths@;
        let len_children = self.len_children();
        let ghost want = old_lens.take(index as int) + seq![len] + old_lens.subrange(
            index as int,
            len_children as int,
        ) + old_lens.skip(len_children as int + 1);
        self.lengths.fini();
        let mut i = len_children;
        while i > index
            invariant
                index <= i <= len_children < BRANCH_FACTOR,
                self.lengths.is_flat(),
                self.lengths@.len() == BRANCH_FACTOR,
                self.children == old(self).children,
                old_lens.len() == BRANCH_FACTOR,
                forall|t: int| 0 <= t <= i ==> #[trigger] self.lengths@[t] == old_lens[t],
                forall|t: int| i < t <= len_children ==> #[trigger] self.lengths@[t] == old_lens[t - 1],
                forall|t: int| len_children < t < BRANCH_FACTOR ==> #[trigger] self.lengths@[t] == old_lens[t],
            decreases i,
        {
            let v = self.lengths.flat_at(i - 1);
            self.lengths.set_flat(i, v);
            i = i - 1;
        }
        let ghost before = self.lengths@;
        proof {
            assert(i == index);
            assert(forall|t: int| 0 <= t <= index ==> #[trigger] before[t] == old_lens[t]);
        }
        self.lengths.set_flat(index, len);
        proof {
            assert(self.lengths@ == before.update(index as int, len));
            assert forall|t: int| 0 <= t < BRANCH_FACTOR implies #[trigger] self.lengths@[t] == want[t] by {
                if t < index {
                    assert(want[t] == old_lens[t]);
                    assert(self.lengths@[t] == old_lens[t]);
                } else if t == index {
                    assert(want[t] == len);
                } else if t <= len_children {
                    assert(want[t] == old_lens.subrange(index as int, len_children as int)[t - index - 1]);
                } else {
                    assert(want[t] == old_lens.skip(len_children as int + 1)[t - len_children - 1]);
                }
            }
            assert(self.lengths@ =~= want);
            let ol = old_lens;
            let nl = self.lengths@;
            // total(nl) = total(ol) - ol[len_children] + len
            lemma_sum_split(ol, 0, index as int, BRANCH_FACTOR as int);
            lemma_sum_split(ol, index as int, len_children as int, BRANCH_FACTOR as int);
            lemma_sum_split(ol, len_children as int, len_children + 1, BRANCH_FACTOR as int);
            lemma_sum_split(nl, 0, index as int, BRANCH_FACTOR as int);
            lemma_sum_split(nl, index as int, index + 1, BRANCH_FACTOR as int);
            lemma_sum_split(nl, index + 1, len_children + 1, BRANCH_FACTOR as int);
            lemma_sum_ext(nl, ol, 0, index as int);
            lemma_sum_shift(ol, nl, -1, index + 1, len_children + 1);
            lemma_sum_ext(nl, ol, len_children + 1, BRANCH_FACTOR as int);
            assert(sum(nl, index as int, index + 1) == len) by {
                assert(sum(nl, index as int, index as int) == 0);
            }
            assert(sum(ol, len_children as int, len_children + 1) == ol[len_children as int]) by {
                assert(sum(ol, len_children as int, len_children as int) == 0);
            }
        }
        self.lengths.init();
    }

    /// Inserts `node` as child `index` into a node with room for it.
    pub fn insert_fitting(&mut self, index: usize, node: RawNodeWithLen<T>)
        requires
            old(self).lengths.fits(),
            lens_match(old(self).lengths@, old(self).children@),
            index <= old(self).children@.len() < BRANCH_FACTOR,
            node.0 == node.1@.len(),
            total(old(self).lengths@) + node.0 <= usize::MAX,
        ensures
            final(self).lengths.fits(),
            lens_match(final(self).lengths@, final(self).children@),
            final(self).children@ == old(self).children@.insert(index as int, node.1),
            total(final(self).lengths@) == total(old(self).lengths@) + node.0,
    {
        let ghost ol = self.lengths@;
        let ghost ocs = self.children@;
        proof {
            assert(ol[ocs.len() as int] == 0);
        }
        self.insert_length(index, node.0);
        self.children.insert(index, node.1);
        proof {
            let nl = self.lengths@;
            let ncs = self.children@;
            assert forall|i: int| 0 <= i < BRANCH_FACTOR implies #[trigger] nl[i] as int == if i < ncs.len() {
                ncs[i]@.len() as int
            } else {
                0
            } by {
                if i < index {
                    assert(nl[i] == ol[i]);
                } else if i == index {
                } else if i <= ocs.len() {
                    assert(nl[i] == ol[i - 1]);
                } else {
                    assert(nl[i] == ol[i]);
                }
            }
            lemma_children_total(ol, ocs);
            lemma_children_total(nl, ncs);
            lemma_children_view_insert(ocs, index as int, node.1);
        }
    }

    /// When full, moves the upper half of the children into a new node.
    pub fn split_if_full(&mut self) -> (r: Option<InternalNode<T>>)
        requires
            old(self).lengths.fits(),
            lens_match(old(self).lengths@, old(self).children@),
        ensures
            match r {
                None => old(self).children@.len() < BRANCH_FACTOR && *final(self) == *old(self),
                Some(n) => {
                    &&& old(self).children@.len() == BRANCH_FACTOR
                    &&& final(self).children@ == old(self).children@.take((BRANCH_FACTOR / 2) as int)
                    &&& n.children@ == old(self).children@.skip((BRANCH_FACTOR / 2) as int)
                    &&& final(self).shape((BRANCH_FACTOR / 2) as int)
                    &&& n.shape((BRANCH_FACTOR / 2) as int)
                },
            },
    {
        if self.is_full() {
            let ghost ol = self.lengths@;
            let ghost ocs = self.children@;
            let lengths = self.lengths.split();
            let children = self.children.split_off(BRANCH_FACTOR / 2);
            let new_sibling = InternalNode { lengths, children };
            proof {
                assert forall|i: int| 0 <= i < BRANCH_FACTOR implies #[trigger] self.lengths@[i] as int == if i
                    < self.children@.len() {
                    self.children@[i]@.len() as int
                } else {
                    0
                } by {
                    assert(ol[i] as int == ocs[i]@.len());
                }
                assert forall|i: int| 0 <= i < BRANCH_FACTOR implies #[trigger] new_sibling.lengths@[i] as int
                    == if i < new_sibling.children@.len() {
                    new_sibling.children@[i]@.len() as int
                } else {
                    0
                } by {
                    if i < 16 {
                        assert(ol[i + 16] as int == ocs[i + 16]@.len());
                    }
                }
            }
            Some(new_sibling)
        } else {
            None
        }
    }

    /// Inserts `node` as child `index`; a full node is split first, and the
    /// new right sibling is handed back with its length.
    pub fn insert_child(&mut self, index: usize, node: RawNodeWithLen<T>) -> (r: Option<
        RawNodeWithLen<T>,
    >)
        requires
            old(self).shape(0),
            index <= old(self).children@.len(),
            node.0 == node.1@.len(),
            total(old(self).lengths@) + node.0 <= usize::MAX,
        ensures
            match r {
                None => {
                    &&& old(self).children@.len() < BRANCH_FACTOR
                    &&& final(self).shape(0)
                    &&& final(self).children@ == old(self).children@.insert(index as int, node.1)
                },
                Some(rn) => {
                    &&& old(self).children@.len() == BRANCH_FACTOR
                    &&& !rn.1.is_leaf()
                    &&& final(self).shape((BRANCH_FACTOR / 2) as int)
                    &&& rn.1.internal().shape((BRANCH_FACTOR / 2) as int)
                    &&& rn.0 == rn.1@.len()
                    &&& final(self).children@ + rn.1.internal().children@ == old(self).children@.insert(
                        index as int,
                        node.1,
                    )
                    &&& final(self).children@.len() == if index <= BRANCH_FACTOR / 2 {
                        BRANCH_FACTOR / 2 + 1int
                    } else {
                        (BRANCH_FACTOR / 2) as int
                    }
                },
            },
    {
        let ghost ocs = self.children@;
        let ghost old_total = total(self.lengths@);
        proof {
            lemma_children_total(self.lengths@, self.children@);
        }
        if let Some(mut new_sibling) = self.split_if_full() {
            proof {
                lemma_children_total(self.lengths@, self.children@);
                lemma_children_total(new_sibling.lengths@, new_sibling.children@);
                assert(ocs =~= self.children@ + new_sibling.children@);
                lemma_children_view_concat(self.children@, new_sibling.children@);
            }
            if index <= self.len_children() {
                self.insert_fitting(index, node);
                proof {
                    assert(self.children@ + new_sibling.children@ =~= ocs.insert(index as int, node.1));
                }
            } else {
                let at = index - self.len_children();
                new_sibling.insert_fitting(at, node);
                proof {
                    assert(self.children@ + new_sibling.children@ =~= ocs.insert(index as int, node.1));
                }
            }
            let len = new_sibling.len();
            Some(RawNodeWithLen(len, NodePtr::from_internal(new_sibling)))
        } else {
            self.insert_fitting(index, node);
            None
        }
    }

    /// Child `child_index` was split and `split` is its new right half:
    /// takes the right half's length off the child's slot and inserts the
    /// right half after it (splitting this node when full).
    pub fn insert_split_of_child(&mut self, child_index: usize, split: RawNodeWithLen<T>) -> (r:
        Option<RawNodeWithLen<T>>)
        requires
            old(self).lengths.fits(),
            child_index < old(self).children@.len() <= BRANCH_FACTOR,
            split.0 == split.1@.len(),
            lens_match(
                old(self).lengths@.update(
                    child_index as int,
                    (old(self).lengths@[child_index as int] - split.0) as usize,
                ),
                old(self).children@,
            ),
            old(self).lengths@[child_index as int] >= split.0,
        ensures
            match r {
                None => {
                    &&& old(self).children@.len() < BRANCH_FACTOR
                    &&& final(self).shape(0)
                    &&& final(self).children@ == old(self).children@.insert(
                        child_index + 1,
                        split.1,
                    )
                },
                Some(rn) => {
                    &&& old(self).children@.len() == BRANCH_FACTOR
                    &&& !rn.1.is_leaf()
                    &&& final(self).shape((BRANCH_FACTOR / 2) as int)
                    &&& rn.1.internal().shape((BRANCH_FACTOR / 2) as int)
                    &&& rn.0 == rn.1@.len()
                    &&& final(self).children@ + rn.1.internal().children@
                        == old(self).children@.insert(child_index + 1, split.1)
                    &&& final(self).children@.len() == if child_index + 1 <= BRANCH_FACTOR / 2 {
                        BRANCH_FACTOR / 2 + 1int
                    } else {
                        (BRANCH_FACTOR / 2) as int
                    }
                },
            },
    {
        let ghost ol = self.lengths@;
        let amount = 0usize.wrapping_sub(split.0);
        self.add_length_wrapping(child_index, amount);
        proof {
            let x = ol[child_index as int] as int;
            if split.0 == 0 {
                lemma_wrap(x, 0);
            } else {
                lemma_wrap(x, modulus() - split.0);
            }
            assert(self.lengths@ =~= ol.update(child_index as int, (ol[child_index as int] - split.0) as usize));
            lemma_sum_update(ol, child_index as int, (ol[child_index as int] - split.0) as usize, 0, BRANCH_FACTOR as int);
        }
        self.insert_child(child_index + 1, split)
    }

    /// Appends `child` as the last child of a node with room for it.
    pub fn push_back_child(&mut self, child: RawNodeWithLen<T>)
        requires
            old(self).shape(0),
            old(self).children@.len() < BRANCH_FACTOR,
            child.0 == child.1@.len(),
            total(old(self).lengths@) + child.0 <= usize::MAX,
        ensures
            final(self).shape(0),
            final(self).children@ == old(self).children@.push(child.1),
    {
        let len_children = self.len_children();
        self.insert_fitting(len_children, child);
        proof {
            assert(self.children@ =~= old(self).children@.push(child.1));
        }
    }

    /// A new node over the given children, in order.
    pub fn from_child_array(children: Vec<RawNodeWithLen<T>>) -> (r: NodePtr<T>)
        requires
            children@.len() < BRANCH_FACTOR,
            forall|i: int| 0 <= i < children@.len() ==> #[trigger] children@[i].0 == children@[i].1@.len(),
            children_view(children@.map_values(|c: RawNodeWithLen<T>| c.1)).len() <= usize::MAX,
        ensures
            !r.is_leaf(),
            r.internal().shape(0),
            r.internal().children@ == children@.map_values(|c: RawNodeWithLen<T>| c.1),
    {
        let ghost all = children@.map_values(|c: RawNodeWithLen<T>| c.1);
        let ghost orig = children@;
        let mut boxed_children = InternalNode::new();
        let mut children = children;
        while children.len() > 0
            invariant
                orig.len() < BRANCH_FACTOR,
                all.len() == orig.len(),
                forall|i: int| 0 <= i < orig.len() ==> #[trigger] all[i] == orig[i].1,
                forall|i: int| 0 <= i < orig.len() ==> #[trigger] orig[i].0 == orig[i].1@.len(),
                children_view(all).len() <= usize::MAX,
                boxed_children.shape(0),
                boxed_children.children@.len() + children@.len() == orig.len(),
                boxed_children.children@ == all.take(boxed_children.children@.len() as int),
                children@ == orig.skip(boxed_children.children@.len() as int),
            decreases children@.len(),
        {
            let ghost k = boxed_children.children@.len() as int;
            let c = children.remove(0);
            proof {
                lemma_children_total(boxed_children.lengths@, boxed_children.children@);
                assert(all.take(k + 1) =~= all.take(k).insert(k, c.1));
                lemma_children_view_insert(all.take(k + 1), k, c.1);
                lemma_children_view_insert(all, k + 1, c.1);
                lemma_children_view_insert(all.take(k), k, c.1);
                assert(all.take(k).take(k) =~= all.take(k));
                assert(all.take(k).skip(k) =~= Seq::<NodePtr<T>>::empty());
                assert(children_view(Seq::<NodePtr<T>>::empty()) =~= Seq::<T>::empty());
                assert(all.take(k + 1).take(k + 1) =~= all.take(k + 1));
            }
            boxed_children.push_back_child(c);
            proof {
                assert(children@ =~= orig.skip(k + 1));
                assert(boxed_children.children@ =~= all.take(k + 1));
            }
        }
        proof {
            assert(boxed_children.children@ =~= all);
        }
        NodePtr::from_internal(boxed_children)
    }
}

} // verus!
