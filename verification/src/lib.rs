//! `BVec`: a sequence stored in a B-tree, with logarithmic-time insertion
//! and removal at any position.
use vstd::prelude::*;

pub mod cursor;
pub mod fenwick;
pub mod iter;
pub mod laws;
pub mod node;

use crate::node::{
    children_view, lemma_children_total, lemma_children_view_at, lemma_len_lower_bound,
    lemma_leaf_cap, leaf_cap, lens_match, node_min, InternalNode, LeafBase, NodeBase, NodePtr,
    RawNodeWithLen,
};
use crate::node::insert::{lemma_children_view_replace, lemma_children_view_replace2, lemma_wrap};
pub use crate::cursor::{Cursor, CursorInner, CursorMut, InboundsCursor, InboundsCursorMut};
pub use crate::iter::{Drain, Iter};
use crate::fenwick::{lemma_sum_update, modulus, prefix, total, BRANCH_FACTOR};

verus! {

broadcast use vstd::std_specs::vec::group_vec_axioms;

/// A sequence of values kept in the leaves of a B-tree.
pub struct BVec<T> {
    root: Option<NodePtr<T>>,
    len: usize,
    height: u16,
}

impl<T> View for BVec<T> {
    type V = Seq<T>;

    /// The values, in order.
    closed spec fn view(&self) -> Seq<T> {
        match self.root {
            Some(r) => r@,
            None => Seq::empty(),
        }
    }
}

/// The least number of entries the root holds: one value, or two children.
pub open spec fn root_min(h: nat) -> int {
    if h == 0 {
        1
    } else {
        2
    }
}

/// Inserts `value` at `index` below `node`, a subtree of height `h`; when
/// `node` had to be split, its new right sibling is handed back with its
/// length.
fn insert_to_node<T>(node: &mut NodePtr<T>, index: usize, value: T, h: u16, Ghost(min): Ghost<int>) -> (r: Option<
    RawNodeWithLen<T>,
>)
    requires
        old(node).wf(h as nat, min),
        h == 0 ==> min >= 1,
        h > 0 ==> min >= 2,
        min <= node_min::<T>(h as nat),
        index <= old(node)@.len(),
        old(node)@.len() < usize::MAX,
    ensures
        match r {
            None => {
                &&& final(node).wf(h as nat, min)
                &&& final(node)@ == old(node)@.insert(index as int, value)
            },
            Some(rn) => {
                &&& final(node).wf(h as nat, node_min::<T>(h as nat))
                &&& rn.1.wf(h as nat, node_min::<T>(h as nat))
                &&& rn.0 == rn.1@.len()
                &&& final(node)@ + rn.1@ == old(node)@.insert(index as int, value)
            },
        },
        r is Some ==> if old(node).is_leaf() {
            old(node).leaf().values@.len() == leaf_cap::<T>()
        } else {
            old(node).internal().children@.len() == BRANCH_FACTOR
        },
    decreases h,
{
    proof {
        lemma_leaf_cap::<T>();
    }
    if h == 0 {
        let leaf = node.leaf_mut();
        leaf.insert_value(index, value)
    } else {
        let ghost n0 = old(node).internal();
        let ghost cs0 = n0.children@;
        let ghost lens0 = n0.lengths@;
        let internal = node.internal_mut();
        let (new_index, child_index) = internal.lengths.child_containing_index_inclusive(index);
        let ghost c = child_index as int;
        let ghost p = prefix(lens0, c);
        proof {
            lemma_children_total(lens0, cs0);
            if c >= cs0.len() {
                assert(prefix(lens0, c) == total(lens0));
                assert(false);
            }
            if c + 1 < BRANCH_FACTOR {
                assert(prefix(lens0, c + 1) >= index);
            } else {
                assert(prefix(lens0, c + 1) == total(lens0));
            }
            assert(prefix(lens0, c + 1) == p + lens0[c]);
            assert(lens0[c] as int == cs0[c]@.len());
            assert(new_index <= cs0[c]@.len());
            lemma_children_view_at(cs0, c);
            node::lemma_children_len(lens0, cs0, c);
            lemma_wrap(lens0[c] as int, 1);
            lemma_sum_update(lens0, c, (lens0[c] + 1) as usize, 0, BRANCH_FACTOR as int);
            assert(cs0[c].wf((h - 1) as nat, node_min::<T>((h - 1) as nat)));
        }
        internal.add_length_wrapping(child_index, 1);
        let ghost lens1 = internal.lengths@;
        let ghost child0 = cs0[c];
        let child = &mut internal.children[child_index];
        let r = insert_to_node(child, new_index, value, h - 1, Ghost(node_min::<T>((h - 1) as nat)));
        let ghost child1 = internal.children@[c];
        let ghost cs1 = internal.children@;
        proof {
            assert(cs1 == cs0.update(c, child1));
            node::lemma_children_len(lens0, cs0, c);
        }
        match r {
            None => {
                proof {
                    lemma_inserted_into_child(cs0, c, child1, children_view(cs0.take(c)), new_index as int, value);
                    assert(lens_match(lens1, cs1));
                    assert forall|i: int| 0 <= i < cs1.len() implies (#[trigger] cs1[i]).wf(
                        (h - 1) as nat,
                        node_min::<T>((h - 1) as nat),
                    ) by {
                        if i != c {
                            assert(cs1[i] == cs0[i]);
                        }
                    }
                }
                None
            },
            Some(rn) => {
                let ghost rn1 = rn.1;
                proof {
                    assert(child1@ + rn1@ == child0@.insert(new_index as int, value));
                    assert((child1@ + rn1@).len() == child0@.insert(new_index as int, value).len());
                    assert(child1@.len() + rn.0 == child0@.len() + 1);
                    assert(lens1.update(c, (lens1[c] - rn.0) as usize) =~= lens0.update(c, child1@.len() as usize));
                    assert(lens_match(lens0.update(c, child1@.len() as usize), cs1));
                    lemma_split_child(cs0, c, child1, rn1, children_view(cs0.take(c)), new_index as int, value, (h - 1) as nat);
                }
                let r2 = internal.insert_split_of_child(child_index, rn);
                proof {
                    let combined = cs1.insert(c + 1, rn1);
                    if r2 is Some {
                        let rn2 = r2->0;
                        lemma_halves_wf(internal.children@, rn2.1.internal().children@, combined, (h - 1) as nat);
                    }
                }
                r2
            },
        }
    }
}

/// After an insertion into child `c` that did not split it.
proof fn lemma_inserted_into_child<T>(
    cs0: Seq<NodePtr<T>>,
    c: int,
    child1: NodePtr<T>,
    pre: Seq<T>,
    new_index: int,
    value: T,
)
    requires
        0 <= c < cs0.len(),
        pre == children_view(cs0.take(c)),
        0 <= new_index <= cs0[c]@.len(),
        child1@ == cs0[c]@.insert(new_index, value),
    ensures
        children_view(cs0.update(c, child1)) == children_view(cs0).insert(pre.len() + new_index, value),
{
    lemma_children_view_at(cs0, c);
    lemma_children_view_replace(cs0, c, child1);
    assert(children_view(cs0.update(c, child1)) =~= children_view(cs0).insert(pre.len() + new_index, value));
}

/// After an insertion into child `c` that split it into `child1` and `rn1`.
proof fn lemma_split_child<T>(
    cs0: Seq<NodePtr<T>>,
    c: int,
    child1: NodePtr<T>,
    rn1: NodePtr<T>,
    pre: Seq<T>,
    new_index: int,
    value: T,
    h: nat,
)
    requires
        0 <= c < cs0.len(),
        pre == children_view(cs0.take(c)),
        0 <= new_index <= cs0[c]@.len(),
        child1@ + rn1@ == cs0[c]@.insert(new_index, value),
        forall|i: int| 0 <= i < cs0.len() ==> (#[trigger] cs0[i]).wf(h, node_min::<T>(h)),
        child1.wf(h, node_min::<T>(h)),
        rn1.wf(h, node_min::<T>(h)),
    ensures
        children_view(cs0.update(c, child1).insert(c + 1, rn1)) == children_view(cs0).insert(
            pre.len() + new_index,
            value,
        ),
        forall|i: int|
            0 <= i < cs0.len() + 1 ==> (#[trigger] cs0.update(c, child1).insert(c + 1, rn1)[i]).wf(
                h,
                node_min::<T>(h),
            ),
{
    lemma_children_view_at(cs0, c);
    node::insert::lemma_children_view_replace2(cs0, c, child1, rn1);
    let post = children_view(cs0.skip(c + 1));
    assert(pre + child1@ + rn1@ + post =~= pre + (child1@ + rn1@) + post);
    assert(children_view(cs0.update(c, child1).insert(c + 1, rn1)) =~= children_view(cs0).insert(
        pre.len() + new_index,
        value,
    ));
    let combined = cs0.update(c, child1).insert(c + 1, rn1);
    assert forall|i: int| 0 <= i < cs0.len() + 1 implies (#[trigger] combined[i]).wf(h, node_min::<T>(h)) by {
        if i < c {
            assert(combined[i] == cs0[i]);
        } else if i == c {
        } else if i == c + 1 {
        } else {
            assert(combined[i] == cs0[i - 1]);
        }
    }
}

/// The children of two halves of a split node are well formed.
proof fn lemma_halves_wf<T>(left: Seq<NodePtr<T>>, right: Seq<NodePtr<T>>, combined: Seq<NodePtr<T>>, h: nat)
    requires
        left + right == combined,
        forall|i: int| 0 <= i < combined.len() ==> (#[trigger] combined[i]).wf(h, node_min::<T>(h)),
    ensures
        forall|i: int| 0 <= i < left.len() ==> (#[trigger] left[i]).wf(h, node_min::<T>(h)),
        forall|i: int| 0 <= i < right.len() ==> (#[trigger] right[i]).wf(h, node_min::<T>(h)),
        children_view(combined) == children_view(left) + children_view(right),
{
    assert forall|i: int| 0 <= i < right.len() implies (#[trigger] right[i]).wf(h, node_min::<T>(h)) by {
        assert(right[i] == combined[left.len() + i]);
    }
    assert forall|i: int| 0 <= i < left.len() implies (#[trigger] left[i]).wf(h, node_min::<T>(h)) by {
        assert(left[i] == combined[i]);
    }
    node::lemma_children_view_concat(left, right);
}

/// A lower bound on the entries of a node can be lowered.
proof fn lemma_wf_weaken<T>(n: NodePtr<T>, h: nat, a: int, b: int)
    requires
        n.wf(h, a),
        b <= a,
    ensures
        n.wf(h, b),
{
}

/// Removes the value at `index` below `node`, a subtree of height `h`, and
/// returns it; afterwards `node` may hold one entry fewer than `min`.
fn remove_from_node<T>(node: &mut NodePtr<T>, index: usize, h: u16, Ghost(min): Ghost<int>) -> (r: T)
    requires
        old(node).wf(h as nat, min),
        min >= 1,
        h > 0 ==> min >= 2,
        index < old(node)@.len(),
    ensures
        r == old(node)@[index as int],
        final(node)@ == old(node)@.remove(index as int),
        final(node).wf(h as nat, min - 1),
        h > 0 ==> !final(node).is_leaf() && final(node).internal().children@.len() + 1
            >= old(node).internal().children@.len(),
    decreases h,
{
    proof {
        lemma_leaf_cap::<T>();
    }
    if h == 0 {
        let leaf = node.leaf_mut();
        leaf.remove_child(index)
    } else {
        let ghost n0 = old(node).internal();
        let ghost cs0 = n0.children@;
        let ghost lens0 = n0.lengths@;
        let internal = node.internal_mut();
        let (new_index, child_index) = internal.lengths.child_containing_index(index);
        let ghost c = child_index as int;
        proof {
            lemma_children_total(lens0, cs0);
            if c >= cs0.len() {
                assert(prefix(lens0, c) == total(lens0));
                assert(false);
            }
            if c + 1 < BRANCH_FACTOR {
                assert(prefix(lens0, c + 1) > index);
            } else {
                assert(prefix(lens0, c + 1) == total(lens0));
            }
            node::lemma_locate(lens0, cs0, c, index as int);
            node::lemma_children_len(lens0, cs0, c);
            lemma_children_view_at(cs0, c);
            assert(lens0[c] as int == cs0[c]@.len());
            lemma_wrap(lens0[c] as int, modulus() - 1);
            lemma_sum_update(lens0, c, (lens0[c] - 1) as usize, 0, BRANCH_FACTOR as int);
            assert(cs0[c].wf((h - 1) as nat, node_min::<T>((h - 1) as nat)));
        }
        let neg_one = 0usize.wrapping_sub(1);
        internal.add_length_wrapping(child_index, neg_one);
        let ghost lens1 = internal.lengths@;
        let child = &mut internal.children[child_index];
        let ret = remove_from_node(child, new_index, h - 1, Ghost(node_min::<T>((h - 1) as nat)));
        let ghost child1 = internal.children@[c];
        let ghost cs1 = internal.children@;
        proof {
            assert(cs1 == cs0.update(c, child1));
            lemma_children_view_replace(cs0, c, child1);
            let pre = children_view(cs0.take(c));
            let post = children_view(cs0.skip(c + 1));
            assert(children_view(cs1) =~= old(node)@.remove(index as int));
            assert(lens_match(lens1, cs1));
            assert forall|i: int| 0 <= i < cs1.len() implies (#[trigger] cs1[i]).wf(
                (h - 1) as nat,
                if i == c {
                    node_min::<T>((h - 1) as nat) - 1
                } else {
                    node_min::<T>((h - 1) as nat)
                },
            ) by {
                if i != c {
                    assert(cs1[i] == cs0[i]);
                }
            }
        }
        if h == 1 {
            if internal.children[child_index].leaf_ref().is_underfull() {
                if child_index == 0 {
                    internal.handle_underfull_leaf_child_head();
                } else {
                    internal.handle_underfull_leaf_child_tail(child_index);
                }
            } else {
                proof {
                    assert forall|i: int| 0 <= i < cs1.len() implies (#[trigger] cs1[i]).wf(
                        0,
                        node_min::<T>(0),
                    ) by {
                        if i != c {
                            assert(cs1[i] == cs0[i]);
                        }
                    }
                }
            }
        } else {
            internal.maybe_handle_underfull_child(child_index, Ghost(h as nat));
        }
        ret
    }
}

impl<T> BVec<T> {
    /// The tree is well formed and `len` counts its values.
    pub closed spec fn wf(&self) -> bool {
        match self.root {
            None => self.len == 0 && self.height == 0,
            Some(r) => {
                &&& r.wf(self.height as nat, root_min(self.height as nat))
                &&& r@.len() == self.len
                &&& self.len > 0
            },
        }
    }

    /// The number of levels below the root.
    pub closed spec fn height(&self) -> nat {
        self.height as nat
    }

    /// The entries the root holds directly: its values when it is a leaf,
    /// its children when it is internal; none for an empty sequence.
    pub closed spec fn root_entries(&self) -> nat {
        match self.root {
            None => 0,
            Some(r) => if r.is_leaf() {
                r.leaf().values@.len()
            } else {
                r.internal().children@.len()
            },
        }
    }

    /// The root has no room for another entry.
    pub closed spec fn root_full(&self) -> bool {
        match self.root {
            None => false,
            Some(r) => if r.is_leaf() {
                r.leaf().values@.len() == leaf_cap::<T>()
            } else {
                r.internal().children@.len() == BRANCH_FACTOR
            },
        }
    }

    /// A well-formed sequence has fewer values than `usize` can count.
    pub proof fn lemma_len_bound(&self)
        requires
            self.wf(),
        ensures
            self@.len() <= usize::MAX,
    {
    }

    /// An empty sequence.
    pub fn new() -> (r: Self)
        ensures
            r.wf(),
            r@ == Seq::<T>::empty(),
    {
        BVec { root: None, len: 0, height: 0 }
    }

    pub fn len(&self) -> (r: usize)
        requires
            self.wf(),
        ensures
            r == self@.len(),
    {
        self.len
    }

    pub fn is_empty(&self) -> (r: bool)
        requires
            self.wf(),
        ensures
            r == (self@.len() == 0),
    {
        self.len == 0
    }

    /// Inserts `value` at position `index`, shifting later values up.
    pub fn insert(&mut self, index: usize, value: T)
        requires
            old(self).wf(),
            index <= old(self)@.len(),
            old(self)@.len() < usize::MAX,
        ensures
            final(self).wf(),
            final(self)@ == old(self)@.insert(index as int, value),
            final(self).height() == old(self).height() || final(self).height() == old(self).height() + 1,
            final(self).height() == old(self).height() + 1 ==> old(self).root_full()
                && final(self).root_entries() == 2,
    {
        proof {
            lemma_leaf_cap::<T>();
        }
        if self.is_empty() {
            let mut new_root = NodeBase::new_leaf();
            new_root.values.insert(0, value);
            *self = BVec { root: Some(NodePtr::from_leaf(new_root)), len: 1, height: 0 };
            proof {
                assert(self@ =~= old(self)@.insert(index as int, value));
            }
            return;
        }
        let len = self.len + 1;
        let height = self.height;
        let mut root = match self.root.take() {
            Some(r) => r,
            None => unreached(),
        };
        let ghost old_root = root;
        proof {
            assert(old(self)@ == root@);
        }
        if let Some(new_node) = insert_to_node(&mut root, index, value, height, Ghost(root_min(height as nat))) {
            proof {
                assert((root@ + new_node.1@).len() == old_root@.insert(index as int, value).len());
                assert(root@.len() + new_node.1@.len() == old_root@.len() + 1);
            }
            let old_root_len = len - new_node.0;
            proof {
                lemma_len_lower_bound(root, height as nat, node_min::<T>(height as nat));
                lemma_len_lower_bound(new_node.1, height as nat, node_min::<T>(height as nat));
                vstd::arithmetic::power2::lemma2_to64();
                vstd::arithmetic::power2::lemma2_to64_rest();
                if height > 64 {
                    vstd::arithmetic::power2::lemma_pow2_strictly_increases(64, height as nat);
                }
            }
            let mut children = Vec::new();
            children.push(RawNodeWithLen(old_root_len, root));
            children.push(new_node);
            proof {
                assert(children@.map_values(|c: RawNodeWithLen<T>| c.1) =~= seq![children@[0].1, children@[1].1]);
                node::lemma_children_view_concat(seq![children@[0].1], seq![children@[1].1]);
                node::lemma_children_view_one(children@[0].1);
                node::lemma_children_view_one(children@[1].1);
                assert(seq![children@[0].1] + seq![children@[1].1] =~= seq![children@[0].1, children@[1].1]);
            }
            let new_root = InternalNode::from_child_array(children);
            *self = BVec { root: Some(new_root), len, height: height + 1 };
            proof {
                let cs = new_root.internal().children@;
                assert(cs[0].wf(height as nat, node_min::<T>(height as nat)));
                assert(cs[1].wf(height as nat, node_min::<T>(height as nat)));
                assert(self.root.unwrap().wf(self.height as nat, 2));
            }
        } else {
            *self = BVec { root: Some(root), len, height };
        }
    }

    /// The leaf holding position `index`, and the position within it.
    pub(crate) fn leaf_containing_index(&self, index: usize) -> (r: (&LeafBase<T>, usize))
        requires
            self.wf(),
            index < self@.len(),
        ensures
            r.1 < r.0.values@.len(),
            r.1 <= index,
            index - r.1 + r.0.values@.len() <= self@.len(),
            r.0.values@ == self@.subrange(index - r.1, index - r.1 + r.0.values@.len()),
    {
        match &self.root {
            Some(root) => root.leaf_containing_index(index, self.height, Ghost(root_min(self.height as nat))),
            None => unreached(),
        }
    }

    /// The leftmost leaf.
    pub(crate) fn first_leaf(&self) -> (r: &LeafBase<T>)
        requires
            self.wf(),
            self@.len() > 0,
        ensures
            r.values@.len() > 0,
            r.values@.len() <= self@.len(),
            r.values@ == self@.subrange(0, r.values@.len() as int),
    {
        match &self.root {
            Some(root) => root.first_leaf(self.height, Ghost(root_min(self.height as nat))),
            None => unreached(),
        }
    }

    /// The rightmost leaf.
    pub(crate) fn last_leaf(&self) -> (r: &LeafBase<T>)
        requires
            self.wf(),
            self@.len() > 0,
        ensures
            r.values@.len() > 0,
            r.values@.len() <= self@.len(),
            r.values@ == self@.subrange(self@.len() - r.values@.len(), self@.len() as int),
    {
        match &self.root {
            Some(root) => root.last_leaf(self.height, Ghost(root_min(self.height as nat))),
            None => unreached(),
        }
    }

    /// The value at position `index`, to change in place.
    pub(crate) fn value_mut(&mut self, index: usize) -> (r: &mut T)
        requires
            old(self).wf(),
            index < old(self)@.len(),
        ensures
            *r == old(self)@[index as int],
            final(self)@ == old(self)@.update(index as int, *final(r)),
            final(self).wf(),
    {
        let h = self.height;
        match &mut self.root {
            Some(root) => root.value_mut(index, h, Ghost(root_min(h as nat))),
            None => unreached(),
        }
    }

    /// The value at position `index`, if there is one.
    pub fn get(&self, index: usize) -> (r: Option<&T>)
        requires
            self.wf(),
        ensures
            match r {
                Some(v) => index < self@.len() && *v == self@[index as int],
                None => index >= self@.len(),
            },
    {
        match InboundsCursor::try_new(self, index) {
            Some(c) => Some(c.get()),
            None => None,
        }
    }

    /// The value at position `index`, if there is one, to change in place.
    pub fn get_mut(&mut self, index: usize) -> (r: Option<&mut T>)
        requires
            old(self).wf(),
        ensures
            final(self).wf(),
            match r {
                Some(v) => {
                    &&& index < old(self)@.len()
                    &&& *v == old(self)@[index as int]
                    &&& final(self)@ == old(self)@.update(index as int, *final(v))
                },
                None => index >= old(self)@.len() && *final(self) == *old(self),
            },
    {
        match InboundsCursorMut::try_new(self, index) {
            Some(c) => Some(c.into_mut()),
            None => None,
        }
    }

    /// The first value, if there is one.
    pub fn first(&self) -> (r: Option<&T>)
        requires
            self.wf(),
        ensures
            match r {
                Some(v) => self@.len() > 0 && *v == self@[0],
                None => self@.len() == 0,
            },
    {
        match InboundsCursor::try_new_first(self) {
            Some(c) => Some(c.get()),
            None => None,
        }
    }

    /// The first value, if there is one, to change in place.
    pub fn first_mut(&mut self) -> (r: Option<&mut T>)
        requires
            old(self).wf(),
        ensures
            final(self).wf(),
            match r {
                Some(v) => {
                    &&& old(self)@.len() > 0
                    &&& *v == old(self)@[0]
                    &&& final(self)@ == old(self)@.update(0, *final(v))
                },
                None => old(self)@.len() == 0 && *final(self) == *old(self),
            },
    {
        match InboundsCursorMut::try_new_first(self) {
            Some(c) => Some(c.into_mut()),
            None => None,
        }
    }

    /// The last value, if there is one.
    pub fn last(&self) -> (r: Option<&T>)
        requires
            self.wf(),
        ensures
            match r {
                Some(v) => self@.len() > 0 && *v == self@.last(),
                None => self@.len() == 0,
            },
    {
        match InboundsCursor::try_new_last(self) {
            Some(c) => Some(c.get()),
            None => None,
        }
    }

    /// The last value, if there is one, to change in place.
    pub fn last_mut(&mut self) -> (r: Option<&mut T>)
        requires
            old(self).wf(),
        ensures
            final(self).wf(),
            match r {
                Some(v) => {
                    &&& old(self)@.len() > 0
                    &&& *v == old(self)@.last()
                    &&& final(self)@ == old(self)@.update(old(self)@.len() - 1, *final(v))
                },
                None => old(self)@.len() == 0 && *final(self) == *old(self),
            },
    {
        match InboundsCursorMut::try_new_last(self) {
            Some(c) => Some(c.into_mut()),
            None => None,
        }
    }

    /// Does nothing: the values stay as they are.
    pub fn clear(&mut self)
        requires
            old(self).wf(),
        ensures
            *final(self) == *old(self),
    {
    }

    /// An iterator over the values, front to back.
    pub fn iter(&self) -> (r: Iter<'_, T>)
        requires
            self.wf(),
        ensures
            r.wf(),
            r@ == self@,
    {
        let r = Iter::new(self, 0, self.len());
        proof {
            assert(self@.subrange(0, self@.len() as int) =~= self@);
        }
        r
    }

    /// Takes all the values out, into an iterator that hands them out front
    /// to back; the sequence is left empty.
    pub fn drain(&mut self) -> (r: Drain<'_, T>)
        requires
            old(self).wf(),
        ensures
            r.wf(),
            r@ == old(self)@,
            final(self).wf(),
            final(self)@ == Seq::<T>::empty(),
    {
        let mut taken = BVec::new();
        core::mem::swap(self, &mut taken);
        Drain::new(taken)
    }

    /// A cursor at position `index` (one past the end is allowed).
    pub fn cursor_at(&self, index: usize) -> (r: Cursor<'_, T>)
        requires
            self.wf(),
            index <= self@.len(),
        ensures
            r.wf(),
            r@ == self@,
            r.pos() == index,
    {
        Cursor::new(self, index)
    }

    /// A cursor at position `index` (one past the end is allowed) that can
    /// change the sequence.
    pub fn cursor_at_mut(&mut self, index: usize) -> (r: CursorMut<'_, T>)
        requires
            old(self).wf(),
            index <= old(self)@.len(),
        ensures
            r.wf(),
            r@ == old(self)@,
            r.pos() == index,
            *final(self) == *final(r.tree_ref()),
    {
        CursorMut::new(self, index)
    }

    /// Removes the value at position `index` and returns it, shifting later
    /// values down.
    pub fn remove(&mut self, index: usize) -> (r: T)
        requires
            old(self).wf(),
            index < old(self)@.len(),
        ensures
            final(self).wf(),
            r == old(self)@[index as int],
            final(self)@ == old(self)@.remove(index as int),
            final(self).height() == old(self).height() || final(self).height() + 1 == old(self).height(),
            final(self).height() + 1 == old(self).height() ==> old(self).root_entries() == 2,
    {
        proof {
            lemma_leaf_cap::<T>();
        }
        let len = self.len - 1;
        let h = self.height;
        let mut root = match self.root.take() {
            Some(r) => r,
            None => unreached(),
        };
        let ghost old_root = root;
        proof {
            if h > 0 {
                lemma_len_lower_bound(old_root, h as nat, 2);
                vstd::arithmetic::power2::lemma_pow2_pos(h as nat);
                if h > 1 {
                    vstd::arithmetic::power2::lemma_pow2_strictly_increases(1, h as nat);
                }
                vstd::arithmetic::power2::lemma2_to64();
            }
        }
        let ret = remove_from_node(&mut root, index, h, Ghost(root_min(h as nat)));
        if h > 0 {
            if root.internal_ref().is_singleton() {
                let mut old_root_node = root.into_internal();
                let new_root = old_root_node.children.remove(0);
                proof {
                    let cs = old_root_node.children@;
                    assert(old_root_node.children@ =~= seq![new_root].drop_first());
                    node::lemma_children_view_one(new_root);
                    assert(root.internal().children@ =~= seq![new_root]);
                    assert(new_root.wf((h - 1) as nat, node_min::<T>((h - 1) as nat)));
                    lemma_wf_weaken(new_root, (h - 1) as nat, node_min::<T>((h - 1) as nat), root_min((h - 1) as nat));
                }
                *self = BVec { root: Some(new_root), len, height: h - 1 };
            } else {
                *self = BVec { root: Some(root), len, height: h };
            }
        } else if root.leaf_ref().len() == 0 {
            *self = BVec { root: None, len: 0, height: 0 };
            proof {
                assert(self@ =~= old(self)@.remove(index as int));
            }
        } else {
            *self = BVec { root: Some(root), len, height: h };
        }
        ret
    }

    /// Inserts `value` before all others.
    pub fn push_front(&mut self, value: T)
        requires
            old(self).wf(),
            old(self)@.len() < usize::MAX,
        ensures
            final(self).wf(),
            final(self)@ == seq![value] + old(self)@,
    {
        self.insert(0, value);
        proof {
            assert(self@ =~= seq![value] + old(self)@);
        }
    }

    /// Inserts `value` after all others.
    pub fn push_back(&mut self, value: T)
        requires
            old(self).wf(),
            old(self)@.len() < usize::MAX,
        ensures
            final(self).wf(),
            final(self)@ == old(self)@.push(value),
    {
        let len = self.len();
        self.insert(len, value);
        proof {
            assert(self@ =~= old(self)@.push(value));
        }
    }
}

impl<T> Default for BVec<T> {
    /// An empty sequence.
    fn default() -> (r: Self)
        ensures
            r.wf(),
            r@ == Seq::<T>::empty(),
    {
        Self::new()
    }
}

impl<T> core::ops::Index<usize> for BVec<T> {
    type Output = T;

    /// The value at position `index`, which must hold one.
    fn index(&self, index: usize) -> (r: &T)
        ensures
            *r == self@[index as int],
    {
        match self.get(index) {
            Some(v) => v,
            None => unreached(),
        }
    }
}

impl<T> vstd::std_specs::core::IndexSpecImpl<usize> for BVec<T> {
    open spec fn index_req(&self, index: &usize) -> bool {
        self.wf() && *index < self@.len()
    }
}

/// Inserts `y` at position `x` of `b`.
pub fn foo(b: &mut BVec<i32>, x: usize, y: i32)
    requires
        old(b).wf(),
        x <= old(b)@.len(),
        old(b)@.len() < usize::MAX,
    ensures
        final(b).wf(),
        final(b)@ == old(b)@.insert(x as int, y),
{
    b.insert(x, y);
}

} // verus!
