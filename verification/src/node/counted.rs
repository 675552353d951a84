//! A node that records how many values lie below it: a length up to `C`
//! marks a leaf holding that many values, a larger one an internal node with
//! `B` child slots.
use vstd::prelude::*;

verus! {

broadcast use vstd::std_specs::vec::group_vec_axioms;

/// A node of a tree with up to `B` children per internal node and up to
/// `C` values per leaf.
pub struct Node<T, const B: usize, const C: usize> {
    length: usize,
    inner: Box<NodeInner<T, B, C>>,
}

/// What a node holds: child slots, or values.
pub enum NodeInner<T, const B: usize, const C: usize> {
    Children(Vec<Option<Node<T, B, C>>>),
    Values(Vec<T>),
}

/// Read access to what a node holds.
pub enum NodeVariant<'a, T, const B: usize, const C: usize> {
    Internal { handle: &'a Vec<Option<Node<T, B, C>>> },
    Leaf { handle: &'a Vec<T> },
}

/// Write access to what a node holds.
pub enum NodeVariantMut<'a, T, const B: usize, const C: usize> {
    Internal { handle: &'a mut Vec<Option<Node<T, B, C>>> },
    Leaf { handle: &'a mut Vec<T> },
}

/// The values below the nodes in `cs`, skipping empty slots.
pub open spec fn slots_view<T, const B: usize, const C: usize>(cs: Seq<Option<Node<T, B, C>>>) -> Seq<T>
    decreases cs,
{
    if cs.len() == 0 {
        Seq::empty()
    } else {
        slots_view(cs.drop_last()) + match cs.last() {
            Some(n) => n.view(),
            None => Seq::empty(),
        }
    }
}

/// The taken slots of `cs` come first: no slot after an empty one is taken.
pub open spec fn packed<T, const B: usize, const C: usize>(cs: Seq<Option<Node<T, B, C>>>) -> bool {
    forall|i: int, j: int| 0 <= i < j < cs.len() && (#[trigger] cs[i]) is None ==> (#[trigger] cs[j]) is None
}

impl<T, const B: usize, const C: usize> Node<T, B, C> {
    /// The recorded length.
    pub closed spec fn length(&self) -> nat {
        self.length as nat
    }

    /// The values below this node, in order.
    pub closed spec fn view(&self) -> Seq<T>
        decreases self,
    {
        match *self.inner {
            NodeInner::Values(v) => v@,
            NodeInner::Children(cs) => slots_view(cs@),
        }
    }

    pub closed spec fn is_leaf(&self) -> bool {
        *self.inner is Values
    }

    /// The child slots, for an internal node.
    pub closed spec fn slots(&self) -> Seq<Option<Node<T, B, C>>> {
        (*self.inner)->Children_0@
    }

    /// The recorded length counts the values below, a leaf holds at most `C`
    /// values and an internal node more than `C`, in `B` slots, the taken
    /// ones first.
    pub closed spec fn wf(&self) -> bool
        decreases self,
    {
        &&& self.length > 0
        &&& self.length == self.view().len()
        &&& match *self.inner {
            NodeInner::Values(v) => v@.len() <= C,
            NodeInner::Children(cs) => {
                &&& cs@.len() == B
                &&& self.length > C
                &&& packed(cs@)
                &&& forall|i: int| 0 <= i < cs@.len() && (#[trigger] cs@[i]) is Some ==> cs@[i]->0.wf()
            },
        }
    }

    /// A well-formed node records the number of values below it, and is a
    /// leaf exactly when that number is at most `C`.
    pub proof fn lemma_wf(&self)
        requires
            self.wf(),
        ensures
            self.length() == self.view().len(),
            self.length() > 0,
            self.is_leaf() <==> self.length() <= C,
            !self.is_leaf() ==> self.slots().len() == B && packed(self.slots()),
    {
    }

    /// The number of values below this node.
    pub fn len(&self) -> (r: usize)
        ensures
            r == self.length(),
    {
        self.length
    }

    /// A leaf with `C` values, or an internal node whose last slot is taken.
    pub fn is_full(&self) -> (r: bool)
        ensures
            r == if self.is_leaf() {
                self.view().len() == C
            } else {
                self.slots().len() > 0 && self.slots().last() is Some
            },
    {
        match &*self.inner {
            NodeInner::Values(v) => v.len() == C,
            NodeInner::Children(cs) => {
                if cs.len() == 0 {
                    false
                } else {
                    match &cs[cs.len() - 1] {
                        Some(_) => true,
                        None => false,
                    }
                }
            },
        }
    }

    /// An internal node over the given slots, recording `length`.
    pub fn from_children(length: usize, children: Vec<Option<Self>>) -> (r: Self)
        requires
            length != 0,
        ensures
            r.length() == length,
            !r.is_leaf(),
            r.slots() == children@,
            r.view() == slots_view(children@),
    {
        Node { length, inner: Box::new(NodeInner::Children(children)) }
    }

    /// An internal node whose first slots hold `children`, in order.
    pub fn from_child_array(children: Vec<Self>) -> (r: Self)
        requires
            children@.len() <= B,
            forall|i: int| 0 <= i < children@.len() ==> (#[trigger] children@[i]).wf(),
            slots_view(children@.map_values(|c: Self| Some(c))).len() <= usize::MAX,
            slots_view(children@.map_values(|c: Self| Some(c))).len() > C,
        ensures
            r.wf(),
            !r.is_leaf(),
            r.length() == r.view().len(),
            r.view() == slots_view(children@.map_values(|c: Self| Some(c))),
            r.slots().len() == B,
            forall|i: int| 0 <= i < children@.len() ==> #[trigger] r.slots()[i] == Some(children@[i]),
            forall|i: int| children@.len() <= i < B ==> #[trigger] r.slots()[i] is None,
    {
        let ghost all = children@.map_values(|c: Self| Some(c));
        let ghost orig = children@;
        let mut inner_children: Vec<Option<Self>> = Vec::new();
        let mut length: usize = 0;
        let mut children = children;
        while children.len() > 0
            invariant
                orig.len() <= B,
                all.len() == orig.len(),
                forall|i: int| 0 <= i < orig.len() ==> #[trigger] all[i] == Some(orig[i]),
                forall|i: int| 0 <= i < orig.len() ==> (#[trigger] orig[i]).wf(),
                slots_view(all).len() <= usize::MAX,
                inner_children@.len() + children@.len() == orig.len(),
                inner_children@ == all.take(inner_children@.len() as int),
                children@ == orig.skip(inner_children@.len() as int),
                length == slots_view(inner_children@).len(),
            decreases children@.len(),
        {
            let ghost k = inner_children@.len() as int;
            let child = children.remove(0);
            proof {
                assert(all.take(k + 1) =~= all.take(k).push(Some(child)));
                assert(all.take(k + 1).drop_last() =~= all.take(k));
                lemma_slots_prefix(all, k + 1);
            }
            length = length + child.len();
            inner_children.push(Some(child));
            proof {
                assert(children@ =~= orig.skip(k + 1));
                assert(inner_children@ =~= all.take(k + 1));
            }
        }
        let ghost full = inner_children@;
        while inner_children.len() < B
            invariant
                orig.len() <= B,
                full.len() == orig.len(),
                inner_children@.len() <= B,
                inner_children@.len() >= full.len(),
                inner_children@.take(full.len() as int) == full,
                forall|i: int| full.len() <= i < inner_children@.len() ==> #[trigger] inner_children@[i] is None,
                slots_view(inner_children@) == slots_view(full),
            decreases B - inner_children@.len(),
        {
            let ghost before = inner_children@;
            inner_children.push(None);
            proof {
                assert(inner_children@.drop_last() =~= before);
                assert(inner_children@.take(full.len() as int) =~= full);
            }
        }
        proof {
            assert(inner_children@.take(full.len() as int) == full);
            assert(full =~= all);
        }
        let r = Self::from_children(length, inner_children);
        proof {
            assert forall|i: int| 0 <= i < r.slots().len() && (#[trigger] r.slots()[i]) is Some implies r.slots()[i]->0.wf() by {
                if i < orig.len() {
                    assert(r.slots()[i] == inner_children@.take(full.len() as int)[i]);
                    assert(r.slots()[i] == all[i]);
                }
            }
            assert forall|i: int| 0 <= i < orig.len() implies #[trigger] r.slots()[i] == Some(orig[i]) by {
                assert(r.slots()[i] == inner_children@.take(full.len() as int)[i]);
            }
            assert forall|i: int, j: int|
                0 <= i < j < r.slots().len() && (#[trigger] r.slots()[i]) is None implies (#[trigger] r.slots()[j]) is None by {
                if i < orig.len() {
                    assert(r.slots()[i] == Some(orig[i]));
                }
            }
        }
        r
    }

    /// A leaf holding `values`, recording `length`.
    fn from_values(length: usize, values: Vec<T>) -> (r: Self)
        requires
            length != 0,
            length <= C,
            length == values@.len(),
        ensures
            r.wf(),
            r.is_leaf(),
            r.view() == values@,
    {
        Node { length, inner: Box::new(NodeInner::Values(values)) }
    }

    /// A leaf holding just `value`.
    pub fn from_value(value: T) -> (r: Self)
        requires
            C >= 1,
        ensures
            r.wf(),
            r.is_leaf(),
            r.length() == 1,
            r.view() == seq![value],
    {
        let mut boxed_values = Vec::new();
        boxed_values.push(value);
        Self::from_values(1, boxed_values)
    }

    /// What the node holds: its values or its child slots.
    pub fn variant(&self) -> (r: NodeVariant<'_, T, B, C>)
        ensures
            match r {
                NodeVariant::Leaf { handle } => self.is_leaf() && handle@ == self.view(),
                NodeVariant::Internal { handle } => !self.is_leaf() && handle@ == self.slots(),
            },
    {
        match &*self.inner {
            NodeInner::Values(v) => NodeVariant::Leaf { handle: v },
            NodeInner::Children(cs) => NodeVariant::Internal { handle: cs },
        }
    }

    /// What the node holds, to change in place.
    pub fn variant_mut(&mut self) -> (r: NodeVariantMut<'_, T, B, C>)
        ensures
            match r {
                NodeVariantMut::Leaf { handle } => {
                    &&& old(self).is_leaf()
                    &&& handle@ == old(self).view()
                    &&& final(self).is_leaf()
                    &&& final(self).view() == final(handle)@
                },
                NodeVariantMut::Internal { handle } => {
                    &&& !old(self).is_leaf()
                    &&& handle@ == old(self).slots()
                    &&& !final(self).is_leaf()
                    &&& final(self).slots() == final(handle)@
                },
            },
            final(self).length() == old(self).length(),
    {
        match &mut *self.inner {
            NodeInner::Values(v) => NodeVariantMut::Leaf { handle: v },
            NodeInner::Children(cs) => NodeVariantMut::Internal { handle: cs },
        }
    }
}

/// The values below the first `k` slots extend those below the first `k - 1`.
proof fn lemma_slots_prefix<T, const B: usize, const C: usize>(all: Seq<Option<Node<T, B, C>>>, k: int)
    requires
        0 < k <= all.len(),
    ensures
        slots_view(all.take(k)) == slots_view(all.take(k - 1)) + match all[k - 1] {
            Some(n) => n.view(),
            None => Seq::empty(),
        },
        slots_view(all.take(k)).len() <= slots_view(all).len(),
    decreases all.len() - k,
{
    assert(all.take(k).drop_last() =~= all.take(k - 1));
    if k < all.len() {
        lemma_slots_prefix(all, k + 1);
    } else {
        assert(all.take(k) =~= all);
    }
}

/// The values below `a + b` are those below `a`, then those below `b`.
proof fn lemma_slots_concat<T, const B: usize, const C: usize>(
    a: Seq<Option<Node<T, B, C>>>,
    b: Seq<Option<Node<T, B, C>>>,
)
    ensures
        slots_view(a + b) == slots_view(a) + slots_view(b),
    decreases b.len(),
{
    if b.len() == 0 {
        assert(a + b =~= a);
        assert(slots_view(a) + slots_view(b) =~= slots_view(a));
    } else {
        lemma_slots_concat(a, b.drop_last());
        assert((a + b).drop_last() =~= a + b.drop_last());
        assert((a + b).last() == b.last());
        assert(slots_view(a + b) =~= slots_view(a) + slots_view(b));
    }
}

/// The values below one slot.
proof fn lemma_slots_one<T, const B: usize, const C: usize>(x: Option<Node<T, B, C>>)
    ensures
        slots_view(seq![x]) == match x {
            Some(n) => n.view(),
            None => Seq::empty(),
        },
{
    let e = Seq::<Option<Node<T, B, C>>>::empty();
    assert(seq![x].drop_last() =~= e);
    assert(slots_view(e) == Seq::<T>::empty());
    assert(seq![x].last() == x);
    assert(slots_view(seq![x]) == slots_view(e) + match x {
        Some(n) => n.view(),
        None => Seq::<T>::empty(),
    });
    assert(slots_view(seq![x]) =~= match x {
        Some(n) => n.view(),
        None => Seq::<T>::empty(),
    });
}

impl<T, const B: usize, const C: usize> Node<T, B, C> {
    /// The number of values below the slots `cs`.
    fn slots_len(cs: &Vec<Option<Self>>) -> (r: usize)
        requires
            forall|i: int| 0 <= i < cs@.len() && (#[trigger] cs@[i]) is Some ==> cs@[i]->0.wf(),
            slots_view(cs@).len() <= usize::MAX,
        ensures
            r == slots_view(cs@).len(),
    {
        let mut sum: usize = 0;
        let mut j: usize = 0;
        while j < cs.len()
            invariant
                j <= cs@.len(),
                forall|i: int| 0 <= i < cs@.len() && (#[trigger] cs@[i]) is Some ==> cs@[i]->0.wf(),
                slots_view(cs@).len() <= usize::MAX,
                sum == slots_view(cs@.take(j as int)).len(),
            decreases cs@.len() - j,
        {
            proof {
                lemma_slots_prefix(cs@, j + 1);
            }
            match &cs[j] {
                Some(c) => {
                    sum = sum + c.len();
                },
                None => {},
            }
            j = j + 1;
        }
        proof {
            assert(cs@.take(j as int) =~= cs@);
        }
        sum
    }

    /// The values below the slots `cs`, when there are at most `C` of them
    /// (so every taken slot holds a leaf), gathered into one vector.
    fn gather(cs: Vec<Option<Self>>) -> (r: Vec<T>)
        requires
            forall|i: int| 0 <= i < cs@.len() && (#[trigger] cs@[i]) is Some ==> cs@[i]->0.wf(),
            slots_view(cs@).len() <= C,
        ensures
            r@ == slots_view(cs@),
    {
        let ghost orig = cs@;
        let mut cs = cs;
        let mut out: Vec<T> = Vec::new();
        while cs.len() > 0
            invariant
                forall|i: int| 0 <= i < cs@.len() && (#[trigger] cs@[i]) is Some ==> cs@[i]->0.wf(),
                out@ + slots_view(cs@) == slots_view(orig),
                slots_view(orig).len() <= C,
            decreases cs@.len(),
        {
            let ghost before = cs@;
            proof {
                assert(before =~= seq![before[0]] + before.drop_first());
                lemma_slots_concat(seq![before[0]], before.drop_first());
                lemma_slots_one(before[0]);
            }
            let slot = cs.remove(0);
            proof {
                assert(cs@ =~= before.drop_first());
                assert forall|i: int| 0 <= i < cs@.len() && (#[trigger] cs@[i]) is Some implies cs@[i]->0.wf() by {
                    assert(cs@[i] == before[i + 1]);
                }
            }
            match slot {
                Some(n) => {
                    proof {
                        n.lemma_wf();
                    }
                    let Node { length, inner } = n;
                    match *inner {
                        NodeInner::Values(mut v) => {
                            out.append(&mut v);
                        },
                        NodeInner::Children(_) => {
                            proof {
                                assert(false);
                            }
                        },
                    }
                },
                None => {},
            }
        }
        proof {
            assert(slots_view(cs@) =~= Seq::<T>::empty());
            assert(out@ =~= out@ + slots_view(cs@));
        }
        out
    }

    /// A node over the slots `cs` holding `length` values: internal when that
    /// is more than `C`, else a leaf with those values gathered.
    fn from_slots(length: usize, cs: Vec<Option<Self>>) -> (r: Self)
        requires
            cs@.len() == B,
            packed(cs@),
            forall|i: int| 0 <= i < cs@.len() && (#[trigger] cs@[i]) is Some ==> cs@[i]->0.wf(),
            length == slots_view(cs@).len(),
            length > 0,
        ensures
            r.wf(),
            r.view() == slots_view(cs@),
    {
        if length > C {
            Node { length, inner: Box::new(NodeInner::Children(cs)) }
        } else {
            let values = Self::gather(cs);
            Node { length, inner: Box::new(NodeInner::Values(values)) }
        }
    }
}

/// Inserting into the middle part of three inserts into the whole.
proof fn lemma_insert_middle<A>(x: Seq<A>, y: Seq<A>, z: Seq<A>, k: int, v: A)
    requires
        0 <= k <= y.len(),
    ensures
        (x + y + z).insert(x.len() + k, v) == x + y.insert(k, v) + z,
{
    assert((x + y + z).insert(x.len() + k, v) =~= x + y.insert(k, v) + z);
}

impl<T, const B: usize, const C: usize> Node<T, B, C> {
    /// Inserts `value` at position `index` of the values below this node.
    /// A full node is split: it keeps the front part and the back part is
    /// handed back as a new node.
    pub fn insert(&mut self, index: usize, value: T) -> (r: Option<Self>)
        requires
            old(self).wf(),
            index <= old(self).view().len(),
            old(self).length() < usize::MAX,
        ensures
            final(self).wf(),
            match r {
                None => final(self).view() == old(self).view().insert(index as int, value),
                Some(n) => {
                    &&& n.wf()
                    &&& final(self).view() + n.view() == old(self).view().insert(index as int, value)
                },
            },
            r is Some ==> if old(self).is_leaf() {
                old(self).view().len() == C
            } else {
                old(self).slots().last() is Some
            },
            old(self).is_leaf() && old(self).view().len() == C ==> r is Some,
    {
        let mut node = Node { length: 0, inner: Box::new(NodeInner::Values(Vec::new())) };
        core::mem::swap(self, &mut node);
        let (kept, split) = node.insert_owned(index, value);
        *self = kept;
        split
    }

    /// `insert` on a node taken by value: the node that stays, and the split
    /// off one, if any.
    fn insert_owned(self, index: usize, value: T) -> (r: (Self, Option<Self>))
        requires
            self.wf(),
            index <= self.view().len(),
            self.length() < usize::MAX,
        ensures
            r.0.wf(),
            match r.1 {
                None => r.0.view() == self.view().insert(index as int, value),
                Some(n) => {
                    &&& n.wf()
                    &&& r.0.view() + n.view() == self.view().insert(index as int, value)
                },
            },
            r.1 is Some ==> if self.is_leaf() {
                self.view().len() == C
            } else {
                self.slots().last() is Some
            },
            self.is_leaf() && self.view().len() == C ==> r.1 is Some,
        decreases self,
    {
        let ghost whole = self.view().insert(index as int, value);
        let ghost old_self = self;
        let Node { length, inner } = self;
        match *inner {
            NodeInner::Values(mut v) => {
                if v.len() < C {
                    v.insert(index, value);
                    (Node { length: length + 1, inner: Box::new(NodeInner::Values(v)) }, None)
                } else {
                    v.insert(index, value);
                    let right = v.split_off(C - C / 2);
                    proof {
                        assert(v@ + right@ =~= whole);
                    }
                    let left_len = v.len();
                    let right_len = right.len();
                    (
                        Node { length: left_len, inner: Box::new(NodeInner::Values(v)) },
                        Some(Node { length: right_len, inner: Box::new(NodeInner::Values(right)) }),
                    )
                }
            },
            NodeInner::Children(mut cs) => {
                let ghost cs0 = cs@;
                let (j, acc) = Self::find_slot(&cs, index, Ghost(length as int));
                let ghost a = cs0.take(j as int);
                let ghost d = cs0.skip(j + 1);
                let ghost c0 = cs0[j as int]->0;
                proof {
                    assert(cs0 =~= a + seq![Some(c0)] + d);
                    lemma_slots_concat(a + seq![Some(c0)], d);
                    lemma_slots_concat(a, seq![Some(c0)]);
                    lemma_slots_one(Some(c0));
                    assert(c0.wf());
                    c0.lemma_wf();
                    assert(decreases_to!(old_self => c0));
                }
                let child = match cs.remove(j) {
                    Some(c) => c,
                    None => unreached(),
                };
                let (child, split) = child.insert_owned(index - acc, value);
                let ghost c1 = child;
                cs.insert(j, Some(child));
                let ghost cs1 = cs@;
                let ghost sp = split;
                proof {
                    assert(cs1 =~= a + seq![Some(c1)] + d);
                    lemma_insert_middle(slots_view(a), c0.view(), slots_view(d), index - acc, value);
                    assert forall|i: int| 0 <= i < cs1.len() && (#[trigger] cs1[i]) is Some implies cs1[i]->0.wf() by {
                        if i != j {
                            assert(cs1[i] == cs0[i]);
                        }
                    }
                    assert forall|i: int, k: int| 0 <= i < k < cs1.len() && (#[trigger] cs1[i]) is None implies (#[trigger] cs1[k]) is None by {
                        if i != j && k != j {
                            assert(cs1[i] == cs0[i]);
                            assert(cs1[k] == cs0[k]);
                        } else if k == j {
                            assert(cs1[i] == cs0[i]);
                        }
                    }
                    match sp {
                        None => {
                            lemma_slots_concat(a + seq![Some(c1)], d);
                            lemma_slots_concat(a, seq![Some(c1)]);
                            lemma_slots_one(Some(c1));
                        },
                        Some(nn) => {
                            let full = cs1.insert(j + 1, Some(nn));
                            assert(full =~= a + (seq![Some(c1)] + seq![Some(nn)]) + d);
                            lemma_slots_concat(a + (seq![Some(c1)] + seq![Some(nn)]), d);
                            lemma_slots_concat(a, seq![Some(c1)] + seq![Some(nn)]);
                            lemma_slots_concat(seq![Some(c1)], seq![Some(nn)]);
                            lemma_slots_one(Some(c1));
                            lemma_slots_one(Some(nn));
                        },
                    }
                }
                proof {
                    if j + 1 < B {
                        assert(cs1[B - 1] == cs0[B - 1]);
                    }
                }
                Self::place(length + 1, cs, j, split)
            },
        }
    }

    /// The taken slot whose values hold position `index` (the first such one
    /// when `index` falls between two), and the number of values before it.
    fn find_slot(cs: &Vec<Option<Self>>, index: usize, Ghost(length): Ghost<int>) -> (r: (usize, usize))
        requires
            length == slots_view(cs@).len(),
            length > 0,
            index <= length,
            forall|i: int| 0 <= i < cs@.len() && (#[trigger] cs@[i]) is Some ==> cs@[i]->0.wf(),
        ensures
            r.0 < cs@.len(),
            cs@[r.0 as int] is Some,
            r.1 == slots_view(cs@.take(r.0 as int)).len(),
            r.1 <= index <= r.1 + cs@[r.0 as int]->0.view().len(),
    {
        let n = cs.len();
        let mut j: usize = 0;
        let mut acc: usize = 0;
        proof {
            assert(cs@.take(n as int) =~= cs@);
        }
        while j < n
            invariant
                j <= n,
                n == cs@.len(),
                cs@.take(n as int) == cs@,
                length == slots_view(cs@).len(),
                length > 0,
                forall|i: int| 0 <= i < cs@.len() && (#[trigger] cs@[i]) is Some ==> cs@[i]->0.wf(),
                index <= length,
                acc == slots_view(cs@.take(j as int)).len(),
                acc <= index,
                acc > 0 ==> acc < index,
            ensures
                j < n,
                cs@[j as int] is Some,
                acc == slots_view(cs@.take(j as int)).len(),
                acc <= index <= acc + cs@[j as int]->0.view().len(),
            decreases n - j,
        {
            proof {
                lemma_slots_prefix(cs@, j + 1);
                lemma_slots_prefix(cs@, n as int);
            }
            let stop = match &cs[j] {
                Some(c) => {
                    proof {
                        c.lemma_wf();
                    }
                    index - acc <= c.len()
                },
                None => false,
            };
            if stop {
                break;
            }
            match &cs[j] {
                Some(c) => {
                    acc = acc + c.len();
                },
                None => {},
            }
            j = j + 1;
        }
        (j, acc)
    }

    /// After child `j` took a value: puts the node split off it, if any,
    /// after it, and splits this node when that leaves no room.
    fn place(length: usize, cs: Vec<Option<Self>>, j: usize, split: Option<Self>) -> (r: (Self, Option<Self>))
        requires
            cs@.len() == B,
            j < B,
            cs@[j as int] is Some,
            packed(cs@),
            forall|i: int| 0 <= i < cs@.len() && (#[trigger] cs@[i]) is Some ==> cs@[i]->0.wf(),
            length > C,
            match split {
                None => length == slots_view(cs@).len(),
                Some(n) => n.wf() && length == slots_view(cs@.insert(j + 1, Some(n))).len(),
            },
        ensures
            r.0.wf(),
            match split {
                None => r.1 is None && r.0.view() == slots_view(cs@),
                Some(n) => match r.1 {
                    None => r.0.view() == slots_view(cs@.insert(j + 1, Some(n))),
                    Some(m) => m.wf() && r.0.view() + m.view() == slots_view(cs@.insert(j + 1, Some(n))),
                },
            },
            r.1 is Some ==> cs@[B - 1] is Some,
    {
        let ghost cs0 = cs@;
        let mut cs = cs;
        match split {
            None => (Node { length, inner: Box::new(NodeInner::Children(cs)) }, None),
            Some(new_node) => {
                let ghost nn = new_node;
                let ghost full = cs0.insert(j + 1, Some(nn));
                let last_free = match &cs[B - 1] {
                    Some(_) => false,
                    None => true,
                };
                if last_free {
                    cs.pop();
                    cs.insert(j + 1, Some(new_node));
                    let ghost cs2 = cs@;
                    proof {
                        assert(j + 1 < B) by {
                            assert(cs0[j as int] is Some);
                        }
                        assert(full.drop_last() =~= cs2);
                        assert(full.last() is None);
                        assert(slots_view(cs2) == slots_view(full));
                        assert forall|i: int| 0 <= i < cs2.len() && (#[trigger] cs2[i]) is Some implies cs2[i]->0.wf() by {
                            if i < j + 1 {
                                assert(cs2[i] == cs0[i]);
                            } else if i > j + 1 {
                                assert(cs2[i] == cs0[i - 1]);
                            }
                        }
                        assert forall|i: int, k: int| 0 <= i < k < cs2.len() && (#[trigger] cs2[i]) is None implies (#[trigger] cs2[k]) is None by {
                            if i < j + 1 {
                                assert(cs2[i] == cs0[i]);
                                assert(cs0[j as int] is Some);
                            } else if i > j + 1 {
                                assert(cs2[i] == cs0[i - 1]);
                                assert(cs2[k] == cs0[k - 1]);
                            }
                        }
                    }
                    (Node { length, inner: Box::new(NodeInner::Children(cs)) }, None)
                } else {
                    cs.insert(j + 1, Some(new_node));
                    proof {
                        assert forall|i: int| 0 <= i < full.len() implies (#[trigger] full[i]) is Some && full[i]->0.wf() by {
                            assert(cs0[B - 1] is Some);
                            if i < j + 1 {
                                assert(full[i] == cs0[i]);
                            } else if i > j + 1 {
                                assert(full[i] == cs0[i - 1]);
                            }
                        }
                    }
                    Self::split_full(cs)
                }
            },
        }
    }

    /// Splits `B + 1` taken slots into two nodes, front and back.
    fn split_full(cs: Vec<Option<Self>>) -> (r: (Self, Option<Self>))
        requires
            B >= 1,
            cs@.len() == B + 1,
            forall|i: int| 0 <= i < cs@.len() ==> (#[trigger] cs@[i]) is Some && cs@[i]->0.wf(),
            slots_view(cs@).len() <= usize::MAX,
        ensures
            r.0.wf(),
            r.1 is Some,
            r.1->0.wf(),
            r.0.view() + r.1->0.view() == slots_view(cs@),
    {
        let ghost whole = cs@;
        let mut cs = cs;
        let mut right = cs.split_off(B - B / 2);
        let ghost lo = cs@;
        let ghost hi = right@;
        proof {
            assert(whole =~= lo + hi);
            lemma_slots_concat(lo, hi);
            assert forall|i: int| 0 <= i < lo.len() implies (#[trigger] lo[i]) is Some && lo[i]->0.wf() by {
                assert(lo[i] == whole[i]);
            }
            assert forall|i: int| 0 <= i < hi.len() implies (#[trigger] hi[i]) is Some && hi[i]->0.wf() by {
                assert(hi[i] == whole[i + lo.len()]);
            }
            lemma_full_slots_len(lo);
            lemma_full_slots_len(hi);
        }
        Self::pad(&mut cs);
        Self::pad(&mut right);
        proof {
            assert forall|i: int| 0 <= i < cs@.len() && (#[trigger] cs@[i]) is Some implies cs@[i]->0.wf() by {
                if i < lo.len() {
                    assert(cs@[i] == cs@.take(lo.len() as int)[i]);
                }
            }
            assert forall|i: int| 0 <= i < right@.len() && (#[trigger] right@[i]) is Some implies right@[i]->0.wf() by {
                if i < hi.len() {
                    assert(right@[i] == right@.take(hi.len() as int)[i]);
                }
            }
        }
        let left_len = Self::slots_len(&cs);
        let right_len = Self::slots_len(&right);
        (Self::from_slots(left_len, cs), Some(Self::from_slots(right_len, right)))
    }
}

impl<T, const B: usize, const C: usize> Node<T, B, C> {
    /// Fills `cs` up to `B` slots with empty ones.
    fn pad(cs: &mut Vec<Option<Self>>)
        requires
            old(cs)@.len() <= B,
            forall|i: int| 0 <= i < old(cs)@.len() ==> (#[trigger] old(cs)@[i]) is Some,
        ensures
            final(cs)@.len() == B,
            final(cs)@.take(old(cs)@.len() as int) == old(cs)@,
            forall|i: int| old(cs)@.len() <= i < B ==> (#[trigger] final(cs)@[i]) is None,
            packed(final(cs)@),
            slots_view(final(cs)@) == slots_view(old(cs)@),
    {
        let ghost orig = cs@;
        while cs.len() < B
            invariant
                orig.len() <= cs@.len() <= B,
                forall|i: int| 0 <= i < orig.len() ==> (#[trigger] orig[i]) is Some,
                cs@.take(orig.len() as int) == orig,
                forall|i: int| orig.len() <= i < cs@.len() ==> (#[trigger] cs@[i]) is None,
                slots_view(cs@) == slots_view(orig),
            decreases B - cs@.len(),
        {
            let ghost before = cs@;
            cs.push(None);
            proof {
                assert(cs@.drop_last() =~= before);
                assert(cs@.take(orig.len() as int) =~= orig);
            }
        }
        proof {
            assert forall|i: int, k: int| 0 <= i < k < cs@.len() && (#[trigger] cs@[i]) is None implies (#[trigger] cs@[k]) is None by {
                if i < orig.len() {
                    assert(cs@[i] == cs@.take(orig.len() as int)[i]);
                }
            }
        }
    }
}

/// Slots that are all taken by well-formed nodes hold at least one value
/// each.
proof fn lemma_full_slots_len<T, const B: usize, const C: usize>(cs: Seq<Option<Node<T, B, C>>>)
    requires
        forall|i: int| 0 <= i < cs.len() ==> (#[trigger] cs[i]) is Some && cs[i]->0.wf(),
    ensures
        slots_view(cs).len() >= cs.len(),
    decreases cs.len(),
{
    if cs.len() > 0 {
        let p = cs.drop_last();
        assert forall|i: int| 0 <= i < p.len() implies (#[trigger] p[i]) is Some && p[i]->0.wf() by {
            assert(p[i] == cs[i]);
        }
        lemma_full_slots_len(p);
        cs.last()->0.lemma_wf();
    }
}

} // verus!
