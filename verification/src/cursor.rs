//! Cursors: positions in a `BVec`, from which values are read, changed,
//! inserted and removed.
use vstd::prelude::*;

use crate::node::LeafBase;
use crate::BVec;

verus! {

/// A position in a `BVec` together with the leaf that holds it.
///
/// Past the end, the cursor sits just after the last value of the last leaf.
pub struct CursorInner<'a, T> {
    tree: &'a BVec<T>,
    leaf: Option<&'a LeafBase<T>>,
    pub leaf_index: usize,
}

impl<'a, T> Clone for CursorInner<'a, T> {
    /// The same position in the same sequence.
    fn clone(&self) -> (r: Self)
        ensures
            r == *self,
    {
        CursorInner { tree: self.tree, leaf: self.leaf, leaf_index: self.leaf_index }
    }
}

impl<'a, T> CursorInner<'a, T> {
    /// The values of the sequence the cursor runs over.
    pub closed spec fn tree_view(&self) -> Seq<T> {
        self.tree@
    }

    /// The sequence the cursor runs over is well formed.
    pub closed spec fn tree_wf(&self) -> bool {
        self.tree.wf()
    }

    /// The cursor holds a leaf and a position inside it.
    pub closed spec fn valid(&self) -> bool {
        &&& self.leaf is Some
        &&& self.leaf_index < self.leaf->0.values@.len()
    }

    /// The value at the cursor.
    pub closed spec fn current(&self) -> T {
        self.leaf->0.values@[self.leaf_index as int]
    }

    /// The cursor stands at position `index`: the leaf it holds is the run of
    /// values that contains that position.
    pub closed spec fn points_at(&self, index: int) -> bool {
        &&& self.tree.wf()
        &&& 0 <= index <= self.tree@.len()
        &&& index < self.tree@.len() ==> {
            &&& self.valid()
            &&& index - self.leaf_index >= 0
            &&& index - self.leaf_index + self.leaf->0.values@.len() <= self.tree@.len()
            &&& self.leaf->0.values@ == self.tree@.subrange(
                index - self.leaf_index,
                index - self.leaf_index + self.leaf->0.values@.len(),
            )
        }
    }

    pub proof fn lemma_current(&self, index: int)
        requires
            self.points_at(index),
            index < self.tree_view().len(),
        ensures
            self.valid(),
            self.current() == self.tree_view()[index],
    {
    }

    /// A cursor at `index`; one past the end is allowed.
    pub fn new(tree: &'a BVec<T>, index: usize) -> (r: Self)
        requires
            tree.wf(),
            index <= tree@.len(),
        ensures
            r.points_at(index as int),
            r.tree_view() == tree@,
    {
        match Self::try_new_inbounds(tree, index) {
            Some(c) => c,
            None => Self::new_past_the_end(tree),
        }
    }

    /// A cursor at `index`, when that is a position of a value.
    pub fn try_new_inbounds(tree: &'a BVec<T>, index: usize) -> (r: Option<Self>)
        requires
            tree.wf(),
        ensures
            r is Some <==> index < tree@.len(),
            r is Some ==> r->0.points_at(index as int) && r->0.tree_view() == tree@,
    {
        if index >= tree.len() {
            return None;
        }
        let (leaf, leaf_index) = tree.leaf_containing_index(index);
        Some(CursorInner { tree, leaf: Some(leaf), leaf_index })
    }

    /// A cursor at the last value of a non-empty sequence.
    pub fn new_last_unchecked(tree: &'a BVec<T>) -> (r: Self)
        requires
            tree.wf(),
            tree@.len() > 0,
        ensures
            r.points_at(tree@.len() - 1),
            r.tree_view() == tree@,
    {
        let leaf = tree.last_leaf();
        let leaf_index = leaf.len() - 1;
        CursorInner { tree, leaf: Some(leaf), leaf_index }
    }

    /// A cursor just past the last value.
    pub fn new_past_the_end(tree: &'a BVec<T>) -> (r: Self)
        requires
            tree.wf(),
        ensures
            r.points_at(tree@.len() as int),
            r.tree_view() == tree@,
    {
        if tree.is_empty() {
            return CursorInner { tree, leaf: None, leaf_index: 0 };
        }
        let mut this = Self::new_last_unchecked(tree);
        this.leaf_index = this.leaf_index + 1;
        this
    }

    /// A cursor at the first value, when there is one.
    pub fn try_new_inbounds_first(tree: &'a BVec<T>) -> (r: Option<Self>)
        requires
            tree.wf(),
        ensures
            r is Some <==> tree@.len() > 0,
            r is Some ==> r->0.points_at(0) && r->0.tree_view() == tree@,
    {
        if tree.is_empty() {
            return None;
        }
        let leaf = tree.first_leaf();
        Some(CursorInner { tree, leaf: Some(leaf), leaf_index: 0 })
    }

    /// The number of values in the sequence.
    pub fn len(&self) -> (r: usize)
        requires
            self.tree_wf(),
        ensures
            r == self.tree_view().len(),
    {
        self.tree.len()
    }

    /// The value at the cursor.
    pub fn get_unchecked(&self) -> (r: &'a T)
        requires
            self.valid(),
        ensures
            *r == self.current(),
    {
        match self.leaf {
            Some(leaf) => &leaf.values[self.leaf_index],
            None => unreached(),
        }
    }

    /// Moves from `index` by `offset` positions; it may land just past the
    /// end. Stays in the leaf when the new position lies in it.
    pub fn move_(&mut self, index: usize, offset: isize)
        requires
            old(self).points_at(index as int),
            0 <= index + offset <= old(self).tree_view().len(),
        ensures
            final(self).points_at(index + offset),
            final(self).tree_view() == old(self).tree_view(),
    {
        proof {
            self.tree.lemma_len_bound();
        }
        let target = index.wrapping_add_signed(offset);
        if self.tree.is_empty() {
            return;
        }
        if target < self.tree.len() {
            self.move_inbounds_unchecked(index, target);
        } else {
            *self = Self::new_past_the_end(self.tree);
        }
    }

    /// Moves from `index` to `target`, a position of a value; stays in the
    /// leaf when `target` lies in it.
    pub fn move_inbounds_unchecked(&mut self, index: usize, target: usize)
        requires
            old(self).points_at(index as int),
            target < old(self).tree_view().len(),
        ensures
            final(self).points_at(target as int),
            final(self).tree_view() == old(self).tree_view(),
    {
        if index < self.tree.len() {
            let leaf_len = match self.leaf {
                Some(leaf) => leaf.len(),
                None => unreached(),
            };
            let leaf_start = index - self.leaf_index;
            if leaf_start <= target && target - leaf_start < leaf_len {
                self.leaf_index = target - leaf_start;
                return;
            }
        }
        *self = Self::new(self.tree, target);
    }

    /// Moves from `index` to `index + 1`, within the leaf when it can.
    pub fn move_next_inbounds_unchecked(&mut self, index: usize)
        requires
            old(self).points_at(index as int),
            index + 1 < old(self).tree_view().len(),
        ensures
            final(self).points_at(index + 1),
            final(self).tree_view() == old(self).tree_view(),
    {
        let leaf_len = match self.leaf {
            Some(leaf) => leaf.len(),
            None => unreached(),
        };
        if self.leaf_index + 1 < leaf_len {
            self.leaf_index = self.leaf_index + 1;
        } else {
            *self = Self::new(self.tree, index + 1);
        }
    }
}

/// A read-only cursor.
pub struct Cursor<'a, T> {
    inner: CursorInner<'a, T>,
    index: usize,
}

impl<'a, T> Clone for Cursor<'a, T> {
    /// The same position in the same sequence.
    fn clone(&self) -> (r: Self)
        ensures
            r == *self,
    {
        Cursor { inner: self.inner.clone(), index: self.index }
    }
}

impl<'a, T> View for Cursor<'a, T> {
    type V = Seq<T>;

    closed spec fn view(&self) -> Seq<T> {
        self.inner.tree_view()
    }
}

impl<'a, T> Cursor<'a, T> {
    pub closed spec fn wf(&self) -> bool {
        self.inner.points_at(self.index as int)
    }

    /// The position of the cursor.
    pub closed spec fn pos(&self) -> int {
        self.index as int
    }

    pub proof fn lemma_wf(&self)
        requires
            self.wf(),
        ensures
            0 <= self.pos() <= self@.len(),
            self@.len() <= usize::MAX,
    {
        self.inner.tree.lemma_len_bound();
    }

    pub(crate) fn new(tree: &'a BVec<T>, index: usize) -> (r: Self)
        requires
            tree.wf(),
            index <= tree@.len(),
        ensures
            r.wf(),
            r@ == tree@,
            r.pos() == index,
    {
        let inner = CursorInner::new(tree, index);
        Cursor { inner, index }
    }

    /// The value at the cursor, unless it is past the end.
    pub fn get(&self) -> (r: Option<&'a T>)
        requires
            self.wf(),
        ensures
            match r {
                Some(v) => self.pos() < self@.len() && *v == self@[self.pos()],
                None => self.pos() == self@.len(),
            },
    {
        if self.is_inbounds() {
            Some(self.inner.get_unchecked())
        } else {
            None
        }
    }

    pub fn is_inbounds(&self) -> (r: bool)
        requires
            self.wf(),
        ensures
            r == (self.pos() < self@.len()),
    {
        self.index < self.len()
    }

    pub fn len(&self) -> (r: usize)
        requires
            self.wf(),
        ensures
            r == self@.len(),
    {
        self.inner.len()
    }

    pub fn index(&self) -> (r: usize)
        ensures
            r == self.pos(),
    {
        self.index
    }

    /// Moves the cursor by `offset` positions; it may land just past the end.
    pub fn move_(&mut self, offset: isize)
        requires
            old(self).wf(),
            0 <= old(self).pos() + offset <= old(self)@.len(),
        ensures
            final(self).wf(),
            final(self)@ == old(self)@,
            final(self).pos() == old(self).pos() + offset,
    {
        let index = self.index.wrapping_add_signed(offset);
        if index < self.len() {
            self.inner.move_inbounds_unchecked(self.index, index);
        } else {
            self.inner = CursorInner::new_past_the_end(self.inner.tree);
        }
        self.index = index;
    }

    /// Moves the cursor to position `index`.
    pub(crate) fn move_to(&mut self, index: usize)
        requires
            old(self).wf(),
            index <= old(self)@.len(),
        ensures
            final(self).wf(),
            final(self)@ == old(self)@,
            final(self).pos() == index,
    {
        self.index = index;
        self.inner = CursorInner::new(self.inner.tree, index);
    }

    /// Moves the cursor one position on, from a value that is not the last.
    pub(crate) fn move_next(&mut self)
        requires
            old(self).wf(),
            old(self).pos() + 1 < old(self)@.len(),
        ensures
            final(self).wf(),
            final(self)@ == old(self)@,
            final(self).pos() == old(self).pos() + 1,
    {
        self.inner.move_next_inbounds_unchecked(self.index);
        self.index = self.index + 1;
    }

    pub(crate) fn get_unchecked(&self) -> (r: &'a T)
        requires
            self.wf(),
            self.pos() < self@.len(),
        ensures
            *r == self@[self.pos()],
    {
        self.inner.get_unchecked()
    }
}

/// A cursor that can change the sequence.
pub struct CursorMut<'a, T> {
    tree: &'a mut BVec<T>,
    index: usize,
}

impl<'a, T> View for CursorMut<'a, T> {
    type V = Seq<T>;

    closed spec fn view(&self) -> Seq<T> {
        self.tree@
    }
}

impl<'a, T> CursorMut<'a, T> {
    pub closed spec fn wf(&self) -> bool {
        &&& self.tree.wf()
        &&& self.index <= self.tree@.len()
    }

    /// The position of the cursor.
    pub closed spec fn pos(&self) -> int {
        self.index as int
    }

    /// The borrow of the sequence that the cursor holds.
    pub closed spec fn tree_ref(&self) -> &'a mut BVec<T> {
        self.tree
    }

    /// Once the cursor is done with, the sequence it borrowed holds what the
    /// cursor last saw.
    pub proof fn lemma_done(&self)
        requires
            has_resolved(*self),
        ensures
            (*final(self.tree_ref()))@ == self@,
            self.wf() ==> (*final(self.tree_ref())).wf(),
    {
    }

    pub(crate) fn new(tree: &'a mut BVec<T>, index: usize) -> (r: Self)
        requires
            old(tree).wf(),
            index <= old(tree)@.len(),
        ensures
            r.wf(),
            r@ == old(tree)@,
            r.pos() == index,
            *final(tree) == *final(r.tree_ref()),
    {
        CursorMut { tree, index }
    }

    /// The value at the cursor, unless it is past the end.
    pub fn get(&self) -> (r: Option<&T>)
        requires
            self.wf(),
        ensures
            match r {
                Some(v) => self.pos() < self@.len() && *v == self@[self.pos()],
                None => self.pos() == self@.len(),
            },
    {
        if self.is_inbounds() {
            self.tree.get(self.index)
        } else {
            None
        }
    }

    /// The value at the cursor, unless it is past the end, to change in place.
    pub fn get_mut(&mut self) -> (r: Option<&mut T>)
        requires
            old(self).wf(),
        ensures
            final(self).wf(),
            final(self).pos() == old(self).pos(),
            match r {
                Some(v) => {
                    &&& old(self).pos() < old(self)@.len()
                    &&& *v == old(self)@[old(self).pos()]
                    &&& final(self)@ == old(self)@.update(old(self).pos(), *final(v))
                },
                None => old(self).pos() == old(self)@.len() && final(self)@ == old(self)@,
            },
            *final(final(self).tree_ref()) == *final(old(self).tree_ref()),
    {
        if self.is_inbounds() {
            let index = self.index;
            self.tree.get_mut(index)
        } else {
            None
        }
    }

    pub fn is_inbounds(&self) -> (r: bool)
        requires
            self.wf(),
        ensures
            r == (self.pos() < self@.len()),
    {
        self.index < self.len()
    }

    /// Removes the value at the cursor and returns it; the cursor then stands
    /// at the value that followed.
    pub fn remove(&mut self) -> (r: T)
        requires
            old(self).wf(),
            old(self).pos() < old(self)@.len(),
        ensures
            final(self).wf(),
            final(self).pos() == old(self).pos(),
            r == old(self)@[old(self).pos()],
            final(self)@ == old(self)@.remove(old(self).pos()),
            *final(final(self).tree_ref()) == *final(old(self).tree_ref()),
    {
        let index = self.index;
        self.tree.remove(index)
    }

    /// Inserts `value` at the cursor; the cursor then stands at it. The
    /// length must stay within `isize::MAX`.
    pub fn insert(&mut self, value: T)
        requires
            old(self).wf(),
            old(self)@.len() < isize::MAX as usize,
        ensures
            final(self).wf(),
            final(self).pos() == old(self).pos(),
            final(self)@ == old(self)@.insert(old(self).pos(), value),
            *final(final(self).tree_ref()) == *final(old(self).tree_ref()),
    {
        let index = self.index;
        self.tree.insert(index, value);
    }

    pub fn len(&self) -> (r: usize)
        requires
            self.wf(),
        ensures
            r == self@.len(),
    {
        self.tree.len()
    }

    pub fn index(&self) -> (r: usize)
        ensures
            r == self.pos(),
    {
        self.index
    }

    /// Moves the cursor by `offset` positions; it may land just past the end.
    pub fn move_(&mut self, offset: isize)
        requires
            old(self).wf(),
            0 <= old(self).pos() + offset <= old(self)@.len(),
        ensures
            final(self).wf(),
            final(self)@ == old(self)@,
            final(self).pos() == old(self).pos() + offset,
            *final(final(self).tree_ref()) == *final(old(self).tree_ref()),
    {
        self.index = self.index.wrapping_add_signed(offset);
    }
}

/// A cursor at a value (never past the end).
pub struct InboundsCursor<'a, T> {
    inner: CursorInner<'a, T>,
}

impl<'a, T> InboundsCursor<'a, T> {
    pub closed spec fn wf(&self) -> bool {
        self.inner.valid()
    }

    /// The value at the cursor.
    pub closed spec fn value(&self) -> T {
        self.inner.current()
    }

    pub(crate) fn try_new(tree: &'a BVec<T>, index: usize) -> (r: Option<Self>)
        requires
            tree.wf(),
        ensures
            r is Some <==> index < tree@.len(),
            r is Some ==> r->0.wf() && r->0.value() == tree@[index as int],
    {
        match CursorInner::try_new_inbounds(tree, index) {
            Some(inner) => {
                proof {
                    inner.lemma_current(index as int);
                }
                Some(InboundsCursor { inner })
            },
            None => None,
        }
    }

    pub(crate) fn try_new_first(tree: &'a BVec<T>) -> (r: Option<Self>)
        requires
            tree.wf(),
        ensures
            r is Some <==> tree@.len() > 0,
            r is Some ==> r->0.wf() && r->0.value() == tree@[0],
    {
        match CursorInner::try_new_inbounds_first(tree) {
            Some(inner) => {
                proof {
                    inner.lemma_current(0);
                }
                Some(InboundsCursor { inner })
            },
            None => None,
        }
    }

    pub(crate) fn try_new_last(tree: &'a BVec<T>) -> (r: Option<Self>)
        requires
            tree.wf(),
        ensures
            r is Some <==> tree@.len() > 0,
            r is Some ==> r->0.wf() && r->0.value() == tree@.last(),
    {
        if tree.is_empty() {
            None
        } else {
            let inner = CursorInner::new_last_unchecked(tree);
            proof {
                inner.lemma_current(tree@.len() - 1);
            }
            Some(InboundsCursor { inner })
        }
    }

    /// The value at the cursor.
    pub fn get(self) -> (r: &'a T)
        requires
            self.wf(),
        ensures
            *r == self.value(),
    {
        self.inner.get_unchecked()
    }
}

/// A cursor at a value (never past the end) through which it can be changed.
pub struct InboundsCursorMut<'a, T> {
    tree: &'a mut BVec<T>,
    index: usize,
}

impl<'a, T> View for InboundsCursorMut<'a, T> {
    type V = Seq<T>;

    closed spec fn view(&self) -> Seq<T> {
        self.tree@
    }
}

impl<'a, T> InboundsCursorMut<'a, T> {
    pub closed spec fn wf(&self) -> bool {
        &&& self.tree.wf()
        &&& self.index < self.tree@.len()
    }

    /// The position of the cursor.
    pub closed spec fn pos(&self) -> int {
        self.index as int
    }

    /// The borrow of the sequence that the cursor holds.
    pub closed spec fn tree_ref(&self) -> &'a mut BVec<T> {
        self.tree
    }

    pub(crate) fn try_new(tree: &'a mut BVec<T>, index: usize) -> (r: Option<Self>)
        requires
            old(tree).wf(),
        ensures
            r is Some <==> index < old(tree)@.len(),
            r is Some ==> {
                &&& r->0.wf()
                &&& r->0@ == old(tree)@
                &&& r->0.pos() == index
                &&& *final(tree) == *final(r->0.tree_ref())
            },
            r is None ==> *final(tree) == *old(tree),
    {
        if index < tree.len() {
            Some(InboundsCursorMut { tree, index })
        } else {
            None
        }
    }

    pub(crate) fn try_new_first(tree: &'a mut BVec<T>) -> (r: Option<Self>)
        requires
            old(tree).wf(),
        ensures
            r is Some <==> old(tree)@.len() > 0,
            r is Some ==> {
                &&& r->0.wf()
                &&& r->0@ == old(tree)@
                &&& r->0.pos() == 0
                &&& *final(tree) == *final(r->0.tree_ref())
            },
            r is None ==> *final(tree) == *old(tree),
    {
        Self::try_new(tree, 0)
    }

    pub(crate) fn try_new_last(tree: &'a mut BVec<T>) -> (r: Option<Self>)
        requires
            old(tree).wf(),
        ensures
            r is Some <==> old(tree)@.len() > 0,
            r is Some ==> {
                &&& r->0.wf()
                &&& r->0@ == old(tree)@
                &&& r->0.pos() == old(tree)@.len() - 1
                &&& *final(tree) == *final(r->0.tree_ref())
            },
            r is None ==> *final(tree) == *old(tree),
    {
        if tree.is_empty() {
            None
        } else {
            let last = tree.len() - 1;
            Self::try_new(tree, last)
        }
    }

    /// The value at the cursor, to change in place.
    pub fn into_mut(self) -> (r: &'a mut T)
        requires
            self.wf(),
        ensures
            *r == self@[self.pos()],
            (*final(self.tree_ref()))@ == self@.update(self.pos(), *final(r)),
            (*final(self.tree_ref())).wf(),
    {
        self.tree.value_mut(self.index)
    }
}

} // verus!
