//! Iterators over a `BVec`.
use vstd::prelude::*;

use core::marker::PhantomData;

use crate::cursor::Cursor;
use crate::BVec;

verus! {

/// Reads the values of a range of positions, front to back.
pub struct Iter<'a, T> {
    cursor: Cursor<'a, T>,
    remaining_count: usize,
}

impl<'a, T> Clone for Iter<'a, T> {
    /// An iterator with the same values still to come.
    fn clone(&self) -> (r: Self)
        ensures
            r == *self,
    {
        Iter { cursor: self.cursor.clone(), remaining_count: self.remaining_count }
    }
}

impl<'a, T> View for Iter<'a, T> {
    type V = Seq<T>;

    /// The values still to come.
    closed spec fn view(&self) -> Seq<T> {
        self.cursor@.subrange(self.cursor.pos(), self.cursor.pos() + self.remaining_count)
    }
}

impl<'a, T> Iter<'a, T> {
    pub closed spec fn wf(&self) -> bool {
        &&& self.cursor.wf()
        &&& self.cursor.pos() + self.remaining_count <= self.cursor@.len()
    }

    proof fn lemma_len(&self)
        requires
            self.wf(),
        ensures
            self@.len() == self.remaining_count,
            0 <= self.cursor.pos() <= self.cursor@.len(),
            self.cursor.pos() + self.remaining_count <= self.cursor@.len() <= usize::MAX,
    {
        self.cursor.lemma_wf();
    }

    /// The values of positions `start .. end`.
    pub(crate) fn new(v: &'a BVec<T>, start: usize, end: usize) -> (r: Self)
        requires
            v.wf(),
            start <= end <= v@.len(),
        ensures
            r.wf(),
            r@ == v@.subrange(start as int, end as int),
    {
        Iter { cursor: Cursor::new(v, start), remaining_count: end - start }
    }

    /// The next value, if any is left.
    pub fn next(&mut self) -> (r: Option<&'a T>)
        requires
            old(self).wf(),
        ensures
            final(self).wf(),
            match r {
                Some(v) => old(self)@.len() > 0 && *v == old(self)@[0] && final(self)@
                    == old(self)@.drop_first(),
                None => old(self)@.len() == 0 && final(self)@ == old(self)@,
            },
    {
        proof {
            self.lemma_len();
        }
        if self.remaining_count > 0 {
            let ret = self.cursor.get_unchecked();
            self.remaining_count = self.remaining_count - 1;
            if self.remaining_count != 0 {
                self.cursor.move_next();
            }
            proof {
                self.lemma_len();
                assert(self@ =~= old(self)@.drop_first());
            }
            Some(ret)
        } else {
            None
        }
    }

    /// How many values are left, as a lower and an upper bound.
    pub fn size_hint(&self) -> (r: (usize, Option<usize>))
        requires
            self.wf(),
        ensures
            r.0 == self@.len(),
            r.1 == Some(self@.len() as usize),
    {
        proof {
            self.lemma_len();
        }
        (self.remaining_count, Some(self.remaining_count))
    }

    /// How many values are left.
    pub fn count(self) -> (r: usize)
        requires
            self.wf(),
        ensures
            r == self@.len(),
    {
        proof {
            self.lemma_len();
        }
        self.remaining_count
    }

    /// Skips `n` values and returns the one after them, if there is one.
    pub fn nth(&mut self, n: usize) -> (r: Option<&'a T>)
        requires
            old(self).wf(),
        ensures
            final(self).wf(),
            match r {
                Some(v) => n < old(self)@.len() && *v == old(self)@[n as int] && final(self)@
                    == old(self)@.skip(n + 1),
                None => n >= old(self)@.len() && final(self)@ == Seq::<T>::empty(),
            },
    {
        proof {
            self.lemma_len();
        }
        if n >= self.remaining_count {
            self.remaining_count = 0;
            proof {
                self.lemma_len();
                assert(self@ =~= Seq::<T>::empty());
            }
            None
        } else {
            let target = self.cursor.index() + n;
            self.cursor.move_to(target);
            self.remaining_count = self.remaining_count - n;
            let ret = self.cursor.get_unchecked();
            self.remaining_count = self.remaining_count - 1;
            if self.remaining_count != 0 {
                self.cursor.move_next();
            }
            proof {
                self.lemma_len();
                assert(self@ =~= old(self)@.skip(n + 1));
            }
            Some(ret)
        }
    }
}

/// Removes the values of a `BVec`, front to back. The values are taken out
/// of the `BVec` when the drain is made, so what is not read is dropped with
/// the drain.
pub struct Drain<'a, T> {
    tree: BVec<T>,
    borrow: PhantomData<&'a mut BVec<T>>,
}

impl<'a, T> View for Drain<'a, T> {
    type V = Seq<T>;

    /// The values still to come.
    closed spec fn view(&self) -> Seq<T> {
        self.tree@
    }
}

impl<'a, T> Drain<'a, T> {
    pub closed spec fn wf(&self) -> bool {
        self.tree.wf()
    }

    pub(crate) fn new(tree: BVec<T>) -> (r: Self)
        requires
            tree.wf(),
        ensures
            r.wf(),
            r@ == tree@,
    {
        Drain { tree, borrow: PhantomData }
    }

    /// Removes and returns the first value, if any is left.
    pub fn next(&mut self) -> (r: Option<T>)
        requires
            old(self).wf(),
        ensures
            final(self).wf(),
            match r {
                Some(v) => old(self)@.len() > 0 && v == old(self)@[0] && final(self)@
                    == old(self)@.drop_first(),
                None => old(self)@.len() == 0 && final(self)@ == old(self)@,
            },
    {
        if self.tree.len() > 0 {
            let v = self.tree.remove(0);
            proof {
                assert(self@ =~= old(self)@.drop_first());
            }
            Some(v)
        } else {
            None
        }
    }
}

} // verus!
