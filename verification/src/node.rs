//! The nodes of the B-tree behind `BVec`.
//!
//! A node is either a leaf, holding up to `leaf_cap::<T>()` values, or an
//! internal node, holding up to `BRANCH_FACTOR` children together with a
//! Fenwick tree over their lengths.  The abstract value of a node is the
//! sequence of values in its leaves, left to right.
use vstd::prelude::*;

use crate::fenwick::{
    lemma_sum_split, prefix, sum, total, FenwickTree,
    BRANCH_FACTOR,
};

pub mod counted;
pub mod insert;
pub mod remove;

pub use counted::{Node, NodeInner, NodeVariant, NodeVariantMut};

verus! {

broadcast use vstd::std_specs::vec::group_vec_axioms;

/// A leaf takes about this many bytes of values (but at least two values).
pub const LEAF_CAP_BYTES: usize = 512;

/// How many values a leaf holds at most: twice the number of values that
/// fit in `LEAF_CAP_BYTES`, or two when a value is larger than that.
pub open spec fn leaf_cap<T>() -> int {
    2 * if vstd::layout::size_of::<T>() <= LEAF_CAP_BYTES as int {
        if vstd::layout::size_of::<T>() == 0 {
            1
        } else {
            LEAF_CAP_BYTES as int / vstd::layout::size_of::<T>() as int
        }
    } else {
        1
    }
}

/// The fewest entries a node of height `h` that is not the root holds:
/// half a leaf, or half of `BRANCH_FACTOR` children.
pub open spec fn node_min<T>(h: nat) -> int {
    if h == 0 {
        leaf_cap::<T>() / 2
    } else {
        BRANCH_FACTOR as int / 2
    }
}

pub proof fn lemma_leaf_cap<T>()
    ensures
        2 <= leaf_cap::<T>() <= 2 * LEAF_CAP_BYTES,
        leaf_cap::<T>() % 2 == 0,
{
    let s = vstd::layout::size_of::<T>();
    if s != 0 && s <= 512 {
        assert(512int / (s as int) >= 1) by (nonlinear_arith)
            requires
                1 <= s <= 512,
        ;
        assert(512int / (s as int) <= 512) by (nonlinear_arith)
            requires
                1 <= s,
        ;
    }
}

/// A node and the number of values below it.
pub struct RawNodeWithLen<T>(pub usize, pub NodePtr<T>);

/// An owned node.
pub struct NodePtr<T> {
    pub node: Box<NodeBase<T>>,
}

/// The two kinds of node.
pub enum NodeBase<T> {
    Internal(InternalNode<T>),
    Leaf(LeafBase<T>),
}

/// A leaf: the values themselves.
///
/// Leaves are not chained to their neighbours: there is no link to the next
/// or previous leaf, and a cursor that leaves a leaf finds the next one by
/// searching down from the root.
pub struct LeafBase<T> {
    pub values: Vec<T>,
}

/// An internal node: its children and the lengths of their values.
pub struct InternalNode<T> {
    pub lengths: FenwickTree,
    pub children: Vec<NodePtr<T>>,
}

/// The values below the nodes of `cs`, in order.
pub open spec fn children_view<T>(cs: Seq<NodePtr<T>>) -> Seq<T>
    decreases cs,
{
    if cs.len() == 0 {
        Seq::empty()
    } else {
        children_view(cs.drop_last()) + cs.last().view()
    }
}

/// Slot `i` of `lens` holds the length of child `i`, and slots past the
/// last child hold zero.
pub open spec fn lens_match<T>(lens: Seq<usize>, cs: Seq<NodePtr<T>>) -> bool {
    &&& lens.len() == BRANCH_FACTOR
    &&& cs.len() <= BRANCH_FACTOR
    &&& forall|i: int|
        0 <= i < BRANCH_FACTOR ==> #[trigger] lens[i] as int == if i < cs.len() {
            cs[i].view().len() as int
        } else {
            0
        }
}

impl<T> NodePtr<T> {
    pub open spec fn view(&self) -> Seq<T>
        decreases self,
    {
        match *self.node {
            NodeBase::Leaf(l) => l.values@,
            NodeBase::Internal(n) => children_view(n.children@),
        }
    }

    pub open spec fn is_leaf(&self) -> bool {
        *self.node is Leaf
    }

    pub open spec fn leaf(&self) -> LeafBase<T> {
        (*self.node)->Leaf_0
    }

    pub open spec fn internal(&self) -> InternalNode<T> {
        (*self.node)->Internal_0
    }

    /// A well-formed subtree of height `h` whose top node holds at least
    /// `min` entries; every node below the top is at least half full.
    pub open spec fn wf(&self, h: nat, min: int) -> bool
        decreases self,
    {
        match *self.node {
            NodeBase::Leaf(l) => h == 0 && min <= l.values@.len() <= leaf_cap::<T>(),
            NodeBase::Internal(n) => {
                &&& h > 0
                &&& n.shape(min)
                &&& forall|i: int|
                    0 <= i < n.children@.len() ==> (#[trigger] n.children@[i]).wf(
                        (h - 1) as nat,
                        node_min::<T>((h - 1) as nat),
                    )
            }
        }
    }
}

impl<T> InternalNode<T> {
    /// The lengths agree with the children, and there are between `min` and
    /// `BRANCH_FACTOR` children.
    pub open spec fn shape(&self, min: int) -> bool {
        &&& self.lengths.fits()
        &&& lens_match(self.lengths@, self.children@)
        &&& min <= self.children@.len() <= BRANCH_FACTOR
    }

    pub open spec fn view(&self) -> Seq<T> {
        children_view(self.children@)
    }

    /// Every child is a well-formed subtree of height `h - 1` that is at
    /// least half full.
    pub open spec fn children_wf(&self, h: nat) -> bool {
        forall|i: int|
            0 <= i < self.children@.len() ==> (#[trigger] self.children@[i]).wf(
                (h - 1) as nat,
                node_min::<T>((h - 1) as nat),
            )
    }

    /// Like `children_wf`, except that child `c` may hold one entry fewer.
    pub open spec fn children_wf_but(&self, h: nat, c: int) -> bool {
        forall|i: int|
            0 <= i < self.children@.len() ==> (#[trigger] self.children@[i]).wf(
                (h - 1) as nat,
                if i == c {
                    node_min::<T>((h - 1) as nat) - 1
                } else {
                    node_min::<T>((h - 1) as nat)
                },
            )
    }
}

// ---------------------------------------------------------------------------
// Facts about the values below a sequence of children.
// ---------------------------------------------------------------------------

pub proof fn lemma_children_view_concat<T>(a: Seq<NodePtr<T>>, b: Seq<NodePtr<T>>)
    ensures
        children_view(a + b) == children_view(a) + children_view(b),
    decreases b.len(),
{
    if b.len() == 0 {
        assert(a + b =~= a);
        assert(children_view(b) =~= Seq::<T>::empty());
        assert(children_view(a) + children_view(b) =~= children_view(a));
    } else {
        lemma_children_view_concat(a, b.drop_last());
        assert((a + b).drop_last() =~= a + b.drop_last());
        assert((a + b).last() == b.last());
        assert(children_view(a + b) =~= children_view(a) + children_view(b));
    }
}

pub proof fn lemma_children_view_one<T>(x: NodePtr<T>)
    ensures
        children_view(seq![x]) == x@,
{
    assert(seq![x].drop_last() =~= Seq::<NodePtr<T>>::empty());
    assert(children_view(Seq::<NodePtr<T>>::empty()) =~= Seq::<T>::empty());
    assert(children_view(seq![x]) =~= x@);
}

/// The values below `cs` split around child `c`.
pub proof fn lemma_children_view_at<T>(cs: Seq<NodePtr<T>>, c: int)
    requires
        0 <= c < cs.len(),
    ensures
        children_view(cs) == children_view(cs.take(c)) + cs[c]@ + children_view(cs.skip(c + 1)),
{
    assert(cs =~= cs.take(c) + seq![cs[c]] + cs.skip(c + 1));
    lemma_children_view_concat(cs.take(c) + seq![cs[c]], cs.skip(c + 1));
    lemma_children_view_concat(cs.take(c), seq![cs[c]]);
    lemma_children_view_one(cs[c]);
}

/// The number of values below the first `k` children is the prefix sum of
/// their lengths.
pub proof fn lemma_children_len<T>(lens: Seq<usize>, cs: Seq<NodePtr<T>>, k: int)
    requires
        lens_match(lens, cs),
        0 <= k <= cs.len(),
    ensures
        children_view(cs.take(k)).len() == prefix(lens, k),
    decreases k,
{
    if k > 0 {
        lemma_children_len(lens, cs, k - 1);
        assert(cs.take(k) =~= cs.take(k - 1) + seq![cs[k - 1]]);
        lemma_children_view_concat(cs.take(k - 1), seq![cs[k - 1]]);
        lemma_children_view_one(cs[k - 1]);
        assert(lens[k - 1] as int == cs[k - 1]@.len());
    }
}

/// The number of values below all children is the total of the lengths.
pub proof fn lemma_children_total<T>(lens: Seq<usize>, cs: Seq<NodePtr<T>>)
    requires
        lens_match(lens, cs),
    ensures
        children_view(cs).len() == total(lens),
        forall|k: int| cs.len() <= k <= BRANCH_FACTOR ==> #[trigger] prefix(lens, k) == total(lens),
{
    lemma_children_len(lens, cs, cs.len() as int);
    assert(cs.take(cs.len() as int) =~= cs);
    assert forall|k: int| cs.len() <= k <= BRANCH_FACTOR implies #[trigger] prefix(lens, k) == total(lens) by {
        lemma_sum_split(lens, 0, k, BRANCH_FACTOR as int);
        lemma_zero_tail(lens, cs, k, BRANCH_FACTOR as int);
    }
}

pub proof fn lemma_zero_tail<T>(lens: Seq<usize>, cs: Seq<NodePtr<T>>, a: int, b: int)
    requires
        lens_match(lens, cs),
        cs.len() <= a,
        b <= BRANCH_FACTOR,
    ensures
        sum(lens, a, b) == 0,
    decreases b - a,
{
    if b > a {
        lemma_zero_tail(lens, cs, a, b - 1);
    }
}

/// Where position `index` lands when the children are searched with the
/// prefix sums of their lengths.
pub proof fn lemma_locate<T>(lens: Seq<usize>, cs: Seq<NodePtr<T>>, c: int, index: int)
    requires
        lens_match(lens, cs),
        0 <= c < cs.len(),
        prefix(lens, c) <= index < prefix(lens, c + 1),
    ensures
        0 <= index - prefix(lens, c) < cs[c]@.len(),
        children_view(cs)[index] == cs[c]@[index - prefix(lens, c)],
        index < children_view(cs).len(),
{
    lemma_children_view_at(cs, c);
    lemma_children_len(lens, cs, c);
    assert(lens[c] as int == cs[c]@.len());
}


// ---------------------------------------------------------------------------
// Construction and access.
// ---------------------------------------------------------------------------

impl<T> NodeBase<T> {
    /// The capacity of a leaf for values of type `T`.
    pub fn leaf_cap() -> (r: usize)
        ensures
            r == leaf_cap::<T>(),
    {
        let s = core::mem::size_of::<T>();
        let per = if s <= LEAF_CAP_BYTES {
            if s == 0 {
                1
            } else {
                LEAF_CAP_BYTES / s
            }
        } else {
            1
        };
        proof {
            lemma_leaf_cap::<T>();
        }
        2 * per
    }

    /// A new, empty leaf.
    pub fn new_leaf() -> (r: LeafBase<T>)
        ensures
            r.values@ == Seq::<T>::empty(),
    {
        LeafBase::new()
    }
}

impl<T> NodePtr<T> {
    pub fn from_leaf(leaf: LeafBase<T>) -> (r: Self)
        ensures
            r.is_leaf(),
            r.leaf() == leaf,
            r@ == leaf.values@,
    {
        NodePtr { node: Box::new(NodeBase::Leaf(leaf)) }
    }

    pub fn from_internal(internal: InternalNode<T>) -> (r: Self)
        ensures
            !r.is_leaf(),
            r.internal() == internal,
            r@ == internal@,
    {
        NodePtr { node: Box::new(NodeBase::Internal(internal)) }
    }

    pub fn is_leaf_node(&self) -> (r: bool)
        ensures
            r == self.is_leaf(),
    {
        match &*self.node {
            NodeBase::Leaf(_) => true,
            NodeBase::Internal(_) => false,
        }
    }

    pub fn leaf_ref(&self) -> (r: &LeafBase<T>)
        requires
            self.is_leaf(),
        ensures
            *r == self.leaf(),
    {
        match &*self.node {
            NodeBase::Leaf(l) => l,
            NodeBase::Internal(_) => unreached(),
        }
    }

    pub fn leaf_mut(&mut self) -> (r: &mut LeafBase<T>)
        requires
            old(self).is_leaf(),
        ensures
            *r == old(self).leaf(),
            final(self).is_leaf(),
            final(self).leaf() == *final(r),
    {
        match &mut *self.node {
            NodeBase::Leaf(l) => l,
            NodeBase::Internal(_) => unreached(),
        }
    }

    pub fn internal_ref(&self) -> (r: &InternalNode<T>)
        requires
            !self.is_leaf(),
        ensures
            *r == self.internal(),
    {
        match &*self.node {
            NodeBase::Internal(n) => n,
            NodeBase::Leaf(_) => unreached(),
        }
    }

    pub fn internal_mut(&mut self) -> (r: &mut InternalNode<T>)
        requires
            !old(self).is_leaf(),
        ensures
            *r == old(self).internal(),
            !final(self).is_leaf(),
            final(self).internal() == *final(r),
    {
        match &mut *self.node {
            NodeBase::Internal(n) => n,
            NodeBase::Leaf(_) => unreached(),
        }
    }

    pub fn into_leaf(self) -> (r: LeafBase<T>)
        requires
            self.is_leaf(),
        ensures
            r == self.leaf(),
    {
        match *self.node {
            NodeBase::Leaf(l) => l,
            NodeBase::Internal(_) => unreached(),
        }
    }

    pub fn into_internal(self) -> (r: InternalNode<T>)
        requires
            !self.is_leaf(),
        ensures
            r == self.internal(),
    {
        match *self.node {
            NodeBase::Internal(n) => n,
            NodeBase::Leaf(_) => unreached(),
        }
    }
}

// ---------------------------------------------------------------------------
// Leaves.
// ---------------------------------------------------------------------------

impl<T> LeafBase<T> {
    /// A new, empty leaf.
    pub fn new() -> (r: Self)
        ensures
            r.values@ == Seq::<T>::empty(),
    {
        LeafBase { values: Vec::new() }
    }

    pub fn len(&self) -> (r: usize)
        ensures
            r == self.values@.len(),
    {
        self.values.len()
    }

    pub fn is_full(&self) -> (r: bool)
        ensures
            r == (self.values@.len() == leaf_cap::<T>()),
    {
        self.len() == NodeBase::<T>::leaf_cap()
    }

    /// Holds at most half a leaf, less one.
    pub fn is_underfull(&self) -> (r: bool)
        ensures
            r == (self.values@.len() <= (leaf_cap::<T>() - 1) / 2),
    {
        proof {
            lemma_leaf_cap::<T>();
        }
        self.len() <= (NodeBase::<T>::leaf_cap() - 1) / 2
    }

    /// Would be underfull after losing one value.
    pub fn is_almost_underfull(&self) -> (r: bool)
        ensures
            r == (self.values@.len() <= (leaf_cap::<T>() - 1) / 2 + 1),
    {
        proof {
            lemma_leaf_cap::<T>();
        }
        self.len() <= (NodeBase::<T>::leaf_cap() - 1) / 2 + 1
    }

    /// When full, moves the upper half into a new leaf.
    pub fn split_if_full(&mut self) -> (r: Option<LeafBase<T>>)
        ensures
            match r {
                None => old(self).values@.len() != leaf_cap::<T>() && *final(self) == *old(self),
                Some(n) => {
                    &&& old(self).values@.len() == leaf_cap::<T>()
                    &&& final(self).values@ == old(self).values@.take(leaf_cap::<T>() / 2)
                    &&& n.values@ == old(self).values@.skip(leaf_cap::<T>() / 2)
                },
            },
    {
        if self.is_full() {
            proof {
                lemma_leaf_cap::<T>();
            }
            let half = self.len() / 2;
            let upper = self.values.split_off(half);
            Some(LeafBase { values: upper })
        } else {
            None
        }
    }

    /// Inserts `value` at `index`; a full leaf is split first, and the new
    /// right sibling is handed back with its length.
    pub fn insert_value(&mut self, index: usize, value: T) -> (r: Option<RawNodeWithLen<T>>)
        requires
            index <= old(self).values@.len(),
            old(self).values@.len() <= leaf_cap::<T>(),
        ensures
            final(self).values@.len() <= leaf_cap::<T>(),
            final(self).values@.len() >= old(self).values@.len() || final(self).values@.len()
                >= node_min::<T>(0),
            match r {
                None => {
                    &&& old(self).values@.len() < leaf_cap::<T>()
                    &&& final(self).values@ == old(self).values@.insert(index as int, value)
                },
                Some(rn) => {
                    &&& old(self).values@.len() == leaf_cap::<T>()
                    &&& rn.1.wf(0, node_min::<T>(0))
                    &&& rn.0 == rn.1@.len()
                    &&& final(self).values@.len() >= node_min::<T>(0)
                    &&& final(self).values@ + rn.1@ == old(self).values@.insert(index as int, value)
                    &&& final(self).values@.len() == if index <= leaf_cap::<T>() / 2 {
                        leaf_cap::<T>() / 2 + 1
                    } else {
                        leaf_cap::<T>() / 2
                    }
                },
            },
    {
        proof {
            lemma_leaf_cap::<T>();
        }
        let ghost old_values = self.values@;
        if let Some(mut new_sibling) = self.split_if_full() {
            if index <= self.len() {
                self.values.insert(index, value);
            } else {
                let at = index - self.len();
                new_sibling.values.insert(at, value);
            }
            proof {
                assert(self.values@ + new_sibling.values@ =~= old_values.insert(index as int, value));
            }
            let len = new_sibling.len();
            Some(RawNodeWithLen(len, NodePtr::from_leaf(new_sibling)))
        } else {
            self.values.insert(index, value);
            None
        }
    }

    pub fn remove_child(&mut self, index: usize) -> (r: T)
        requires
            index < old(self).values@.len(),
        ensures
            r == old(self).values@[index as int],
            final(self).values@ == old(self).values@.remove(index as int),
    {
        self.values.remove(index)
    }

    pub fn push_front_child(&mut self, child: T)
        ensures
            final(self).values@ == seq![child] + old(self).values@,
    {
        self.values.insert(0, child);
        proof {
            assert(self.values@ =~= seq![child] + old(self).values@);
        }
    }

    pub fn push_back_child(&mut self, child: T)
        ensures
            final(self).values@ == old(self).values@.push(child),
    {
        let len = self.len();
        self.values.insert(len, child);
    }

    pub fn pop_front_child(&mut self) -> (r: T)
        requires
            old(self).values@.len() > 0,
        ensures
            r == old(self).values@[0],
            final(self).values@ == old(self).values@.drop_first(),
    {
        let r = self.remove_child(0);
        proof {
            assert(self.values@ =~= old(self).values@.drop_first());
        }
        r
    }

    pub fn pop_back_child(&mut self) -> (r: T)
        requires
            old(self).values@.len() > 0,
        ensures
            r == old(self).values@.last(),
            final(self).values@ == old(self).values@.drop_last(),
    {
        let last = self.len() - 1;
        let r = self.remove_child(last);
        proof {
            assert(self.values@ =~= old(self).values@.drop_last());
        }
        r
    }
}

// ---------------------------------------------------------------------------
// Internal nodes.
// ---------------------------------------------------------------------------

/// An internal node that is not the root is underfull at this many children.
pub const UNDERFULL_LEN: usize = (BRANCH_FACTOR - 1) / 2;

impl<T> InternalNode<T> {
    /// A node without children.
    pub fn new() -> (r: Self)
        ensures
            r.shape(0),
            r.children@.len() == 0,
            r@ == Seq::<T>::empty(),
    {
        let r = InternalNode { lengths: FenwickTree::new(), children: Vec::new() };
        proof {
            assert(children_view(r.children@) =~= Seq::<T>::empty());
            crate::fenwick::lemma_sum_zero(r.lengths@, 0, 32);
        }
        r
    }

    /// The number of values below this node.
    pub fn len(&self) -> (r: usize)
        requires
            self.shape(0),
        ensures
            r == self@.len(),
    {
        proof {
            lemma_children_total(self.lengths@, self.children@);
            vstd::arithmetic::div_mod::lemma_small_mod(
                total(self.lengths@) as nat,
                crate::fenwick::modulus() as nat,
            );
        }
        self.lengths.total_len()
    }

    pub fn len_children(&self) -> (r: usize)
        ensures
            r == self.children@.len(),
    {
        self.children.len()
    }

    pub fn is_full(&self) -> (r: bool)
        ensures
            r == (self.children@.len() == BRANCH_FACTOR),
    {
        self.len_children() == BRANCH_FACTOR
    }

    pub fn is_underfull(&self) -> (r: bool)
        ensures
            r == (self.children@.len() <= UNDERFULL_LEN),
    {
        self.len_children() <= UNDERFULL_LEN
    }

    pub fn is_almost_underfull(&self) -> (r: bool)
        ensures
            r == (self.children@.len() <= UNDERFULL_LEN + 1),
    {
        self.len_children() <= UNDERFULL_LEN + 1
    }

    pub fn is_singleton(&self) -> (r: bool)
        ensures
            r == (self.children@.len() == 1),
    {
        self.len_children() == 1
    }

    /// Adds `amount` to the recorded length of child `index`, wrapping.
    pub fn add_length_wrapping(&mut self, index: usize, amount: usize)
        requires
            old(self).lengths.wf(),
        ensures
            final(self).lengths.wf(),
            final(self).children == old(self).children,
            final(self).lengths@ == crate::fenwick::added(old(self).lengths@, index as int, amount),
    {
        self.lengths.add_wrapping(index, amount);
    }
}

/// A subtree of height `h` holds at least `2^h` values.
pub proof fn lemma_len_lower_bound<T>(n: NodePtr<T>, h: nat, min: int)
    requires
        n.wf(h, min),
        min >= 1,
        h > 0 ==> min >= 2,
    ensures
        n@.len() >= vstd::arithmetic::power2::pow2(h),
    decreases h,
{
    lemma_leaf_cap::<T>();
    vstd::arithmetic::power2::lemma2_to64();
    if h > 0 {
        let cs = n.internal().children@;
        assert(cs[0].wf((h - 1) as nat, node_min::<T>((h - 1) as nat)));
        assert(cs[1].wf((h - 1) as nat, node_min::<T>((h - 1) as nat)));
        lemma_len_lower_bound(cs[0], (h - 1) as nat, node_min::<T>((h - 1) as nat));
        lemma_len_lower_bound(cs[1], (h - 1) as nat, node_min::<T>((h - 1) as nat));
        lemma_children_view_at(cs, 1);
        assert(cs.take(1) =~= seq![cs[0]]);
        lemma_children_view_one(cs[0]);
        vstd::arithmetic::power2::lemma_pow2_unfold(h);
    }
}

// ---------------------------------------------------------------------------
// Finding values.
// ---------------------------------------------------------------------------

impl<T> NodePtr<T> {
    /// The leaf holding position `index` of this subtree of height `h`, and
    /// the position within it.
    pub fn leaf_containing_index(&self, index: usize, h: u16, Ghost(min): Ghost<int>) -> (r: (
        &LeafBase<T>,
        usize,
    ))
        requires
            self.wf(h as nat, min),
            index < self@.len(),
        ensures
            r.1 < r.0.values@.len(),
            r.1 <= index,
            index - r.1 + r.0.values@.len() <= self@.len(),
            r.0.values@ == self@.subrange(index - r.1, index - r.1 + r.0.values@.len()),
    {
        let mut cur = self;
        let mut index = index;
        let mut k = h;
        let ghost mut cm = min;
        let ghost orig = index;
        let ghost mut base: int = 0;
        while k > 0
            invariant
                cur.wf(k as nat, cm),
                index < cur@.len(),
                0 <= base,
                base + index == orig,
                base + cur@.len() <= self@.len(),
                cur@ == self@.subrange(base, base + cur@.len()),
            decreases k,
        {
            let internal = cur.internal_ref();
            let ghost lens = internal.lengths@;
            let ghost cs = internal.children@;
            let (new_index, c) = internal.lengths.child_containing_index(index);
            proof {
                lemma_children_total(lens, cs);
                if c >= cs.len() {
                    assert(prefix(lens, c as int) == total(lens));
                    assert(false);
                }
                if c + 1 < BRANCH_FACTOR {
                    assert(prefix(lens, c + 1) > index);
                } else {
                    assert(prefix(lens, c + 1) == total(lens));
                }
                lemma_locate(lens, cs, c as int, index as int);
                lemma_children_view_at(cs, c as int);
                lemma_children_len(lens, cs, c as int);
                let p = prefix(lens, c as int);
                assert(cs[c as int]@ =~= cur@.subrange(p, p + cs[c as int]@.len()));
                assert(cs[c as int]@ =~= self@.subrange(base + p, base + p + cs[c as int]@.len()));
                base = base + p;
            }
            cur = &internal.children[c];
            index = new_index;
            k = k - 1;
            proof {
                cm = node_min::<T>(k as nat);
            }
        }
        (cur.leaf_ref(), index)
    }

    /// The leftmost leaf of this subtree of height `h`.
    pub fn first_leaf(&self, h: u16, Ghost(min): Ghost<int>) -> (r: &LeafBase<T>)
        requires
            self.wf(h as nat, min),
            self@.len() > 0,
        ensures
            r.values@.len() > 0,
            r.values@.len() <= self@.len(),
            r.values@ == self@.subrange(0, r.values@.len() as int),
    {
        let mut cur = self;
        let mut k = h;
        let ghost mut cm = min;
        while k > 0
            invariant
                cur.wf(k as nat, cm),
                cur@.len() > 0,
                cur@.len() <= self@.len(),
                cur@ == self@.subrange(0, cur@.len() as int),
            decreases k,
        {
            let internal = cur.internal_ref();
            let ghost cs = internal.children@;
            proof {
                lemma_children_total(internal.lengths@, cs);
                assert(cs.len() > 0);
                lemma_children_view_at(cs, 0);
                assert(cs.take(0) =~= Seq::<NodePtr<T>>::empty());
                assert(children_view(Seq::<NodePtr<T>>::empty()) =~= Seq::<T>::empty());
                lemma_leaf_cap::<T>();
                lemma_len_lower_bound(cs[0], (k - 1) as nat, node_min::<T>((k - 1) as nat));
                vstd::arithmetic::power2::lemma_pow2_pos((k - 1) as nat);
                assert(cs[0]@ =~= cur@.subrange(0, cs[0]@.len() as int));
                assert(cs[0]@ =~= self@.subrange(0, cs[0]@.len() as int));
            }
            cur = &internal.children[0];
            k = k - 1;
            proof {
                cm = node_min::<T>(k as nat);
            }
        }
        cur.leaf_ref()
    }

    /// The rightmost leaf of this subtree of height `h`.
    pub fn last_leaf(&self, h: u16, Ghost(min): Ghost<int>) -> (r: &LeafBase<T>)
        requires
            self.wf(h as nat, min),
            self@.len() > 0,
        ensures
            r.values@.len() > 0,
            r.values@.len() <= self@.len(),
            r.values@ == self@.subrange(self@.len() - r.values@.len(), self@.len() as int),
    {
        let mut cur = self;
        let mut k = h;
        let ghost mut cm = min;
        while k > 0
            invariant
                cur.wf(k as nat, cm),
                cur@.len() > 0,
                cur@.len() <= self@.len(),
                cur@ == self@.subrange(self@.len() - cur@.len(), self@.len() as int),
            decreases k,
        {
            let internal = cur.internal_ref();
            let ghost cs = internal.children@;
            let n = internal.len_children();
            proof {
                lemma_children_total(internal.lengths@, cs);
                assert(cs.len() > 0);
                lemma_children_view_at(cs, n - 1);
                assert(cs.skip(n as int) =~= Seq::<NodePtr<T>>::empty());
                assert(children_view(Seq::<NodePtr<T>>::empty()) =~= Seq::<T>::empty());
                lemma_leaf_cap::<T>();
                lemma_len_lower_bound(cs[n - 1], (k - 1) as nat, node_min::<T>((k - 1) as nat));
                vstd::arithmetic::power2::lemma_pow2_pos((k - 1) as nat);
                let cl = cs[n - 1]@.len() as int;
                assert(cs[n - 1]@ =~= cur@.subrange(cur@.len() - cl, cur@.len() as int));
                assert(cs[n - 1]@ =~= self@.subrange(self@.len() - cl, self@.len() as int));
            }
            cur = &internal.children[n - 1];
            k = k - 1;
            proof {
                cm = node_min::<T>(k as nat);
            }
        }
        cur.leaf_ref()
    }

    /// The value at position `index` of this subtree of height `h`, to
    /// change in place.
    pub fn value_mut(&mut self, index: usize, h: u16, Ghost(min): Ghost<int>) -> (r: &mut T)
        requires
            old(self).wf(h as nat, min),
            index < old(self)@.len(),
        ensures
            *r == old(self)@[index as int],
            final(self)@ == old(self)@.update(index as int, *final(r)),
            final(self).wf(h as nat, min),
        decreases h,
    {
        if h == 0 {
            let leaf = self.leaf_mut();
            &mut leaf.values[index]
        } else {
            let ghost n0 = old(self).internal();
            let ghost lens = n0.lengths@;
            let ghost cs = n0.children@;
            let internal = self.internal_mut();
            let (new_index, c) = internal.lengths.child_containing_index(index);
            proof {
                lemma_children_total(lens, cs);
                if c >= cs.len() {
                    assert(prefix(lens, c as int) == total(lens));
                    assert(false);
                }
                if c + 1 < BRANCH_FACTOR {
                    assert(prefix(lens, c + 1) > index);
                } else {
                    assert(prefix(lens, c + 1) == total(lens));
                }
                lemma_locate(lens, cs, c as int, index as int);
                lemma_children_view_at(cs, c as int);
                lemma_children_len(lens, cs, c as int);
                assert(cs[c as int].wf((h - 1) as nat, node_min::<T>((h - 1) as nat)));
            }
            let child = &mut internal.children[c];
            let ghost c1 = *final(child);
            let r = child.value_mut(new_index, h - 1, Ghost(node_min::<T>((h - 1) as nat)));
            proof {
                let ncs = cs.update(c as int, c1);
                crate::node::insert::lemma_children_view_replace(cs, c as int, c1);
                assert(children_view(ncs) =~= old(self)@.update(index as int, *final(r)));
                assert(lens_match(lens, ncs));
                assert forall|i: int| 0 <= i < ncs.len() implies (#[trigger] ncs[i]).wf(
                    (h - 1) as nat,
                    node_min::<T>((h - 1) as nat),
                ) by {
                    if i != c {
                        assert(ncs[i] == cs[i]);
                    }
                }
            }
            r
        }
    }
}

} // verus!
