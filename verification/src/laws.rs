//! Properties that relate several operations, stated over the views the
//! operations' own contracts use: `BVec`'s view is the sequence of its
//! values, a `FenwickTree`'s view is the sequence of its flat lengths.
use vstd::prelude::*;

use crate::fenwick::{added, lower_half, modulus, negated, total, upper_half, BRANCH_FACTOR};

verus! {

/// After `insert(i, x)` (whose contract turns the view `s` into
/// `s.insert(i, x)`), reading position `i` (whose contract reads the view)
/// gives `x`, the values before `i` are unchanged, those after it moved up by
/// one, and the length grew by one.
pub proof fn law_insert_then_get<T>(s: Seq<T>, i: int, x: T)
    requires
        0 <= i <= s.len(),
    ensures
        s.insert(i, x).len() == s.len() + 1,
        s.insert(i, x)[i] == x,
        forall|j: int| 0 <= j < i ==> #[trigger] s.insert(i, x)[j] == s[j],
        forall|j: int| i < j <= s.len() ==> #[trigger] s.insert(i, x)[j] == s[j - 1],
{
}

/// Removing at `i` right after inserting `x` at `i` hands back `x` and
/// leaves the values as they were.
pub proof fn law_insert_then_remove<T>(s: Seq<T>, i: int, x: T)
    requires
        0 <= i <= s.len(),
    ensures
        s.insert(i, x)[i] == x,
        s.insert(i, x).remove(i) == s,
{
    assert(s.insert(i, x).remove(i) =~= s);
}

/// Inserting back the value that `remove(i)` handed out, at the same
/// position, restores the values.
pub proof fn law_remove_then_insert<T>(s: Seq<T>, i: int)
    requires
        0 <= i < s.len(),
    ensures
        s.remove(i).insert(i, s[i]) == s,
        s.remove(i).len() == s.len() - 1,
{
    assert(s.remove(i).insert(i, s[i]) =~= s);
}

/// After `push_back(x)` the last value is `x`; after `push_front(x)` the
/// first value is `x`; either way the old values keep their order.
pub proof fn law_push_ends<T>(s: Seq<T>, x: T)
    ensures
        s.push(x).last() == x,
        s.push(x).drop_last() == s,
        (seq![x] + s)[0] == x,
        (seq![x] + s).drop_first() == s,
{
    assert(s.push(x).drop_last() =~= s);
    assert((seq![x] + s).drop_first() =~= s);
}

/// Draining (or iterating) one value at a time hands out the values front
/// to back: after `k` steps the rest is `s.skip(k)`, and the values handed
/// out are `s.take(k)`.
pub proof fn law_front_to_back<T>(s: Seq<T>, k: int)
    requires
        0 <= k < s.len(),
    ensures
        s.skip(k)[0] == s[k],
        s.skip(k).drop_first() == s.skip(k + 1),
        s.take(k).push(s.skip(k)[0]) == s.take(k + 1),
{
    assert(s.skip(k).drop_first() =~= s.skip(k + 1));
    assert(s.take(k).push(s.skip(k)[0]) =~= s.take(k + 1));
}

/// Adding `a` to slot `i` (`add_wrapping`, whose contract gives `added`)
/// and then adding its wrapping negation restores the lengths: the second
/// call undoes the first.
pub proof fn law_add_wrapping_undo(lens: Seq<usize>, i: int, a: usize)
    requires
        lens.len() == BRANCH_FACTOR,
    ensures
        added(added(lens, i, a), i, negated(a)) == lens,
{
    let m = modulus();
    if 0 <= i < BRANCH_FACTOR {
        let v = lens[i] as int;
        let once = added(lens, i, a);
        crate::node::insert::lemma_wrap(v, a as int);
        let w = (v + a) % m;
        if a == 0 {
            assert(negated(a) == 0) by {
                vstd::arithmetic::div_mod::lemma_mod_self_0(m);
            }
            crate::node::insert::lemma_wrap(w, 0);
        } else {
            assert(negated(a) == m - a) by {
                vstd::arithmetic::div_mod::lemma_small_mod((m - a) as nat, m as nat);
            }
            crate::node::insert::lemma_wrap(w, m - a);
        }
        assert(added(once, i, negated(a)) =~= lens);
    } else {
        assert(added(added(lens, i, a), i, negated(a)) =~= lens);
    }
}

/// `split` (whose contract leaves `lower_half` in the tree and hands back
/// `upper_half`) keeps every length: the two halves, put together, are the
/// lengths before, and their totals add up to the total before.
pub proof fn law_split_keeps_lengths(lens: Seq<usize>)
    requires
        lens.len() == BRANCH_FACTOR,
    ensures
        lower_half(lens).take((BRANCH_FACTOR / 2) as int) + upper_half(lens).take(
            (BRANCH_FACTOR / 2) as int,
        ) == lens,
        total(lower_half(lens)) + total(upper_half(lens)) == total(lens),
{
    let h = (BRANCH_FACTOR / 2) as int;
    let lower = lower_half(lens);
    let upper = upper_half(lens);
    assert(lower.take(h) + upper.take(h) =~= lens);
    crate::fenwick::lemma_sum_split(lens, 0, h, BRANCH_FACTOR as int);
    crate::fenwick::lemma_sum_split(lower, 0, h, BRANCH_FACTOR as int);
    crate::fenwick::lemma_sum_split(upper, 0, h, BRANCH_FACTOR as int);
    crate::fenwick::lemma_sum_ext(lower, lens, 0, h);
    crate::fenwick::lemma_sum_shift(lens, upper, h, 0, h);
    crate::fenwick::lemma_sum_zero(lower, h, BRANCH_FACTOR as int);
    crate::fenwick::lemma_sum_zero(upper, h, BRANCH_FACTOR as int);
}

} // verus!
