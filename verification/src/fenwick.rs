//! A Fenwick tree (binary indexed tree) over the lengths of the children of
//! an internal node.
//!
//! The abstract value of a `FenwickTree` is the sequence of the
//! `BRANCH_FACTOR` "flat" lengths.  Slot `j` of the concrete array holds the
//! sum of the flat lengths in `lo(j) .. j + 1`, where `lo(j) == j & (j + 1)`,
//! all taken modulo `usize::MAX + 1`: updates wrap.
use vstd::prelude::*;
use vstd::arithmetic::div_mod::{lemma_add_mod_noop, lemma_small_mod, lemma_mod_twice};

verus! {

broadcast use vstd::array::group_array_axioms;

/// The number of children an internal node can hold.
pub const BRANCH_FACTOR: usize = 32;

/// The modulus of `usize` arithmetic.
pub open spec fn modulus() -> int {
    usize::MAX as int + 1
}

/// Sum of `s[a..b]` (zero when the range is empty).
pub open spec fn sum(s: Seq<usize>, a: int, b: int) -> int
    decreases b - a,
{
    if b <= a {
        0
    } else {
        sum(s, a, b - 1) + s[b - 1] as int
    }
}

/// Sum of the first `k` entries of `s`.
pub open spec fn prefix(s: Seq<usize>, k: int) -> int {
    sum(s, 0, k)
}

/// Sum of all `BRANCH_FACTOR` entries.
pub open spec fn total(s: Seq<usize>) -> int {
    sum(s, 0, BRANCH_FACTOR as int)
}

/// Start of the range summed up in slot `j`.
pub open spec fn lo(j: usize) -> usize {
    j & ((j + 1) as usize)
}

/// The slot that also covers everything slot `i` covers.
pub open spec fn parent(i: usize) -> usize {
    i | ((i + 1) as usize)
}

/// What slot `j` holds in a consistent tree over `flat`.
pub open spec fn full(flat: Seq<usize>, j: usize) -> int {
    sum(flat, lo(j) as int, j + 1)
}

/// Sum of `full(i)` over the slots `i` in `a .. b` whose parent is `j`.
pub open spec fn gathered(flat: Seq<usize>, j: usize, a: int, b: int) -> int
    decreases b - a,
{
    if b <= a {
        0
    } else {
        gathered(flat, j, a, b - 1) + if parent((b - 1) as usize) == j {
            full(flat, (b - 1) as usize)
        } else {
            0
        }
    }
}

pub open spec fn zeros(n: nat) -> Seq<usize> {
    Seq::new(n, |i: int| 0usize)
}

/// `lens` after adding `amount` to slot `index`, wrapping; an index past the
/// last slot changes nothing.
pub open spec fn added(lens: Seq<usize>, index: int, amount: usize) -> Seq<usize> {
    if 0 <= index < BRANCH_FACTOR {
        lens.update(index, ((lens[index] + amount) % modulus()) as usize)
    } else {
        lens
    }
}

/// The wrapping negation of `a`: what `0usize.wrapping_sub(a)` gives.
pub open spec fn negated(a: usize) -> usize {
    ((modulus() - a) % modulus()) as usize
}

/// The lower half of `lens`, padded with zeros.
pub open spec fn lower_half(lens: Seq<usize>) -> Seq<usize> {
    lens.subrange(0, (BRANCH_FACTOR / 2) as int) + zeros((BRANCH_FACTOR / 2) as nat)
}

/// The upper half of `lens`, moved down and padded with zeros.
pub open spec fn upper_half(lens: Seq<usize>) -> Seq<usize> {
    lens.subrange((BRANCH_FACTOR / 2) as int, BRANCH_FACTOR as int) + zeros((BRANCH_FACTOR / 2) as nat)
}

// ---------------------------------------------------------------------------
// Facts about sums.
// ---------------------------------------------------------------------------

pub proof fn lemma_sum_split(s: Seq<usize>, a: int, b: int, c: int)
    requires
        a <= b <= c,
    ensures
        sum(s, a, c) == sum(s, a, b) + sum(s, b, c),
    decreases c - b,
{
    if c > b {
        lemma_sum_split(s, a, b, c - 1);
    }
}

pub proof fn lemma_sum_nonneg(s: Seq<usize>, a: int, b: int)
    ensures
        sum(s, a, b) >= 0,
    decreases b - a,
{
    if b > a {
        lemma_sum_nonneg(s, a, b - 1);
    }
}

/// A sum over a subrange is at most the sum over the range.
pub proof fn lemma_sum_sub(s: Seq<usize>, a: int, b: int, c: int, d: int)
    requires
        a <= c <= d <= b,
    ensures
        sum(s, c, d) <= sum(s, a, b),
{
    lemma_sum_split(s, a, c, b);
    lemma_sum_split(s, c, d, b);
    lemma_sum_nonneg(s, a, c);
    lemma_sum_nonneg(s, d, b);
}

pub proof fn lemma_sum_ext(s1: Seq<usize>, s2: Seq<usize>, a: int, b: int)
    requires
        forall|t: int| a <= t < b ==> s1[t] == s2[t],
    ensures
        sum(s1, a, b) == sum(s2, a, b),
    decreases b - a,
{
    if b > a {
        lemma_sum_ext(s1, s2, a, b - 1);
    }
}

/// `s2` is `s1` shifted left by `o`.
pub proof fn lemma_sum_shift(s1: Seq<usize>, s2: Seq<usize>, o: int, a: int, b: int)
    requires
        forall|t: int| a <= t < b ==> s2[t] == s1[t + o],
    ensures
        sum(s2, a, b) == sum(s1, a + o, b + o),
    decreases b - a,
{
    if b > a {
        lemma_sum_shift(s1, s2, o, a, b - 1);
    }
}

pub proof fn lemma_sum_zero(s: Seq<usize>, a: int, b: int)
    requires
        forall|t: int| a <= t < b ==> s[t] == 0,
    ensures
        sum(s, a, b) == 0,
    decreases b - a,
{
    if b > a {
        lemma_sum_zero(s, a, b - 1);
    }
}

pub proof fn lemma_sum_update(s: Seq<usize>, x: int, v: usize, a: int, b: int)
    requires
        0 <= x < s.len(),
        0 <= a,
        b <= s.len(),
    ensures
        sum(s.update(x, v), a, b) == if a <= x < b {
            sum(s, a, b) - s[x] + v
        } else {
            sum(s, a, b)
        },
    decreases b - a,
{
    if b > a {
        lemma_sum_update(s, x, v, a, b - 1);
    }
}

/// The sum over a concatenation is the sum of the sums.
pub proof fn lemma_sum_concat(a: Seq<usize>, b: Seq<usize>)
    ensures
        sum(a + b, 0, (a.len() + b.len()) as int) == sum(a, 0, a.len() as int) + sum(b, 0, b.len() as int),
{
    lemma_sum_split(a + b, 0, a.len() as int, (a.len() + b.len()) as int);
    lemma_sum_ext(a + b, a, 0, a.len() as int);
    lemma_sum_shift(a + b, b, a.len() as int, 0, b.len() as int);
}

/// Prefix sums grow with their length.
pub proof fn lemma_prefix_mono(s: Seq<usize>, i: int, j: int)
    requires
        0 <= i <= j,
    ensures
        prefix(s, i) <= prefix(s, j),
{
    lemma_sum_split(s, 0, i, j);
    lemma_sum_nonneg(s, i, j);
}

// ---------------------------------------------------------------------------
// Bit-level facts about the slot layout, for slots below `BRANCH_FACTOR`.
// ---------------------------------------------------------------------------

proof fn lemma_lo_le(j: usize)
    by (bit_vector)
    requires
        j < 32,
    ensures
        j & ((j + 1) as usize) <= j,
{
}

proof fn lemma_parent_gt(j: usize)
    by (bit_vector)
    requires
        j < 32,
    ensures
        j | ((j + 1) as usize) > j,
        j | ((j + 1) as usize) < 64,
{
}

/// In the binary descent, slot `i + off - 1` sums exactly `i .. i + off`.
proof fn lemma_descent_slot(i: usize, off: usize)
    by (bit_vector)
    requires
        i < 32,
        off == 1 || off == 2 || off == 4 || off == 8 || off == 16,
        i & ((2 * off - 1) as usize) == 0,
        i + off <= 32,
    ensures
        (((i + off - 1) as usize) & ((i + off) as usize)) == i,
        i & ((off - 1) as usize) == 0,
        ((i + off) as usize) & ((off - 1) as usize) == 0,
{
}

/// The update path from `index` skips every slot strictly between two
/// consecutive slots on it.
proof fn lemma_path_step(k: usize, index: usize, j: usize)
    by (bit_vector)
    requires
        k < 32,
        index <= k,
        k & ((k + 1) as usize) <= index,
        k < j,
        j < (k | ((k + 1) as usize)),
    ensures
        j & ((j + 1) as usize) > index,
{
}

proof fn lemma_path_next(k: usize, index: usize)
    by (bit_vector)
    requires
        k < 32,
        index <= k,
        k & ((k + 1) as usize) <= index,
    ensures
        ((k | ((k + 1) as usize)) as usize) & (((k | ((k + 1) as usize)) + 1) as usize) <= index,
        (k | ((k + 1) as usize)) > k,
{
}

/// The children of `j` are `j - d` for the powers of two `d` below its block.
proof fn lemma_child_of(j: usize, d: usize)
    by (bit_vector)
    requires
        j < 32,
        d == 1 || d == 2 || d == 4 || d == 8 || d == 16,
        (j & ((j + 1) as usize)) + 2 * d <= j + 1,
    ensures
        (((j - d) as usize) | ((j - d + 1) as usize)) == j,
        (((j - d) as usize) & ((j - d + 1) as usize)) == j + 1 - 2 * d,
{
}

proof fn lemma_not_child_of(j: usize, d: usize, i: usize)
    by (bit_vector)
    requires
        j < 32,
        d == 1 || d == 2 || d == 4 || d == 8 || d == 16,
        (j & ((j + 1) as usize)) + 2 * d <= j + 1,
        j + 1 - 2 * d <= i,
        i < j + 1 - d,
        i != j - d,
    ensures
        (i | ((i + 1) as usize)) != j,
{
}

proof fn lemma_no_child_below(j: usize, i: usize)
    by (bit_vector)
    requires
        j < 32,
        i < (j & ((j + 1) as usize)),
    ensures
        (i | ((i + 1) as usize)) != j,
{
}

/// The block of slot `j` has a power-of-two size.
proof fn lemma_block_size(j: usize)
    by (bit_vector)
    requires
        j < 32,
    ensures
        ({
            let b = (j + 1 - (j & ((j + 1) as usize))) as usize;
            b == 1 || b == 2 || b == 4 || b == 8 || b == 16 || b == 32
        }),
{
}

proof fn lemma_split_slots(k: usize)
    by (bit_vector)
    requires
        k < 15,
    ensures
        (((16 + k) as usize) & ((17 + k) as usize)) == 16 + (k & ((k + 1) as usize)),
        (31usize & 32usize) == 0,
        (15usize & 16usize) == 0,
{
}

// ---------------------------------------------------------------------------
// Facts about `gathered`, the partial sums gathered by the slots below.
// ---------------------------------------------------------------------------

proof fn lemma_gathered_split(flat: Seq<usize>, j: usize, a: int, b: int, c: int)
    requires
        a <= b <= c,
    ensures
        gathered(flat, j, a, c) == gathered(flat, j, a, b) + gathered(flat, j, b, c),
    decreases c - b,
{
    if c > b {
        lemma_gathered_split(flat, j, a, b, c - 1);
    }
}

proof fn lemma_gathered_nonneg(flat: Seq<usize>, j: usize, a: int, b: int)
    requires
        0 <= a,
    ensures
        gathered(flat, j, a, b) >= 0,
    decreases b - a,
{
    if b > a {
        lemma_gathered_nonneg(flat, j, a, b - 1);
        let x = (b - 1) as usize;
        lemma_sum_nonneg(flat, lo(x) as int, x + 1);
    }
}

/// No slot at or above `j` has `j` as parent.
proof fn lemma_gathered_above(flat: Seq<usize>, j: usize, a: int, b: int)
    requires
        j <= a,
        b <= 32,
    ensures
        gathered(flat, j, a, b) == 0,
    decreases b - a,
{
    if b > a {
        lemma_gathered_above(flat, j, a, b - 1);
        lemma_parent_gt((b - 1) as usize);
    }
}

/// No slot below `lo(j)` has `j` as parent.
proof fn lemma_gathered_below(flat: Seq<usize>, j: usize, a: int, b: int)
    requires
        j < 32,
        0 <= a,
        b <= lo(j),
    ensures
        gathered(flat, j, a, b) == 0,
    decreases b - a,
{
    if b > a {
        lemma_gathered_below(flat, j, a, b - 1);
        lemma_no_child_below(j, (b - 1) as usize);
    }
}

/// In a window holding no child of `j`, nothing is gathered.
proof fn lemma_gathered_window(flat: Seq<usize>, j: usize, d: usize, a: int, b: int)
    requires
        j < 32,
        d == 1 || d == 2 || d == 4 || d == 8 || d == 16,
        lo(j) + 2 * d <= j + 1,
        j + 1 - 2 * d <= a,
        b <= j - d,
    ensures
        gathered(flat, j, a, b) == 0,
    decreases b - a,
{
    if b > a {
        lemma_gathered_window(flat, j, d, a, b - 1);
        lemma_not_child_of(j, d, (b - 1) as usize);
    }
}

/// The last `d - 1` slots below `j` gather the sum of `j + 1 - d .. j`.
proof fn lemma_gathered_block(flat: Seq<usize>, j: usize, d: usize)
    requires
        j < 32,
        d == 1 || d == 2 || d == 4 || d == 8 || d == 16 || d == 32,
        lo(j) + d <= j + 1,
    ensures
        gathered(flat, j, j + 1 - d, j as int) == sum(flat, j + 1 - d, j as int),
    decreases d,
{
    if d > 1 {
        let h = (d / 2) as usize;
        assert(h == 1 || h == 2 || h == 4 || h == 8 || h == 16);
        lemma_gathered_block(flat, j, h);
        let a = j + 1 - d;
        let m = j + 1 - h;
        // the window a .. m holds exactly one child of j: j - h
        lemma_gathered_split(flat, j, a, m, j as int);
        lemma_gathered_split(flat, j, a, (j - h) as int, m);
        lemma_gathered_window(flat, j, h, a, (j - h) as int);
        lemma_child_of(j, h);
        assert(gathered(flat, j, (j - h) as int, m) == full(flat, (j - h) as usize)) by {
            assert(gathered(flat, j, (j - h) as int, (j - h) as int) == 0);
        }
        lemma_sum_split(flat, a, m, j as int);
    }
}

/// The slots whose parent is `j` together cover `lo(j) .. j`.
pub proof fn lemma_children_cover(flat: Seq<usize>, j: usize)
    requires
        j < 32,
    ensures
        gathered(flat, j, 0, j as int) == sum(flat, lo(j) as int, j as int),
{
    lemma_block_size(j);
    lemma_lo_le(j);
    let b = (j + 1 - lo(j)) as usize;
    lemma_gathered_block(flat, j, b);
    lemma_gathered_split(flat, j, 0, lo(j) as int, j as int);
    lemma_gathered_below(flat, j, 0, lo(j) as int);
}

// ---------------------------------------------------------------------------
// The tree.
// ---------------------------------------------------------------------------

/// Prefix sums over `BRANCH_FACTOR` lengths, kept in Fenwick form.
pub struct FenwickTree {
    inner: [usize; 32],
    flat: Ghost<Seq<usize>>,
}

impl Clone for FenwickTree {
    /// A tree with the same lengths.
    fn clone(&self) -> (r: Self)
        ensures
            r == *self,
    {
        FenwickTree { inner: self.inner, flat: self.flat }
    }
}

impl View for FenwickTree {
    type V = Seq<usize>;

    /// The flat lengths.
    closed spec fn view(&self) -> Seq<usize> {
        self.flat@
    }
}

impl FenwickTree {
    /// The concrete slots agree with the flat lengths.
    pub closed spec fn wf(&self) -> bool {
        &&& self.flat@.len() == BRANCH_FACTOR
        &&& forall|j: usize|
            j < BRANCH_FACTOR ==> #[trigger] self.inner@[j as int] as int == full(self.flat@, j)
                % modulus()
    }

    /// The slots hold the flat lengths themselves (between `fini` and `init`).
    pub closed spec fn is_flat(&self) -> bool {
        &&& self.flat@.len() == BRANCH_FACTOR
        &&& self.inner@ == self.flat@
    }

    /// A consistent tree whose lengths add up without wrapping.
    pub open spec fn fits(&self) -> bool {
        &&& self.wf()
        &&& self@.len() == BRANCH_FACTOR
        &&& total(self@) <= usize::MAX
    }

    proof fn lemma_exact(&self)
        requires
            self.wf(),
            total(self@) <= usize::MAX,
        ensures
            forall|j: usize| j < BRANCH_FACTOR ==> #[trigger] self.inner@[j as int] as int == full(self@, j),
            forall|j: usize| j < BRANCH_FACTOR ==> full(self@, j) <= total(self@),
    {
        assert forall|j: usize| j < BRANCH_FACTOR implies full(self@, j) <= total(self@) by {
            lemma_lo_le(j);
            lemma_sum_sub(self@, 0, 32, lo(j) as int, j + 1);
        }
        assert forall|j: usize| j < BRANCH_FACTOR implies #[trigger] self.inner@[j as int] as int == full(self@, j) by {
            lemma_lo_le(j);
            lemma_sum_sub(self@, 0, 32, lo(j) as int, j + 1);
            lemma_sum_nonneg(self@, lo(j) as int, j + 1);
            lemma_small_mod(full(self@, j) as nat, modulus() as nat);
        }
    }

    /// A tree of zero lengths.
    pub fn new() -> (r: Self)
        ensures
            r.wf(),
            r@ == zeros(BRANCH_FACTOR as nat),
    {
        let r = FenwickTree { inner: [0usize; 32], flat: Ghost(zeros(32)) };
        proof {
            assert forall|j: usize| j < BRANCH_FACTOR implies #[trigger] r.inner@[j as int] as int == full(r.flat@, j)
                % modulus() by {
                assert(r.inner@[j as int] == 0);
                lemma_sum_zero(r.flat@, lo(j) as int, j + 1);
                lemma_small_mod(0, modulus() as nat);
            }
        }
        r
    }

    /// The flat lengths, as an array.
    pub fn into_array(self) -> (r: [usize; 32])
        requires
            self.fits(),
        ensures
            r@ == self@,
    {
        let mut this = self;
        this.fini();
        this.inner
    }

    /// The tree over the given flat lengths.
    pub fn from_array(lens: [usize; 32]) -> (r: Self)
        requires
            total(lens@) <= usize::MAX,
        ensures
            r.fits(),
            r@ == lens@,
    {
        let mut r = FenwickTree { inner: lens, flat: Ghost(lens@) };
        r.init();
        r
    }

    /// Turns a consistent tree into the flat form.
    pub(crate) fn fini(&mut self)
        requires
            old(self).fits(),
        ensures
            final(self).is_flat(),
            final(self)@ == old(self)@,
            final(self)@.len() == BRANCH_FACTOR,
    {
        let ghost flat = self.flat@;
        proof {
            self.lemma_exact();
        }
        let mut k: usize = BRANCH_FACTOR;
        while k > 0
            invariant
                k <= BRANCH_FACTOR,
                self.flat@ == flat,
                flat.len() == BRANCH_FACTOR,
                total(flat) <= usize::MAX,
                forall|j: usize|
                    j < BRANCH_FACTOR ==> #[trigger] self.inner@[j as int] as int == full(flat, j)
                        - gathered(flat, j, k as int, BRANCH_FACTOR as int),
            decreases k,
        {
            k = k - 1;
            let p = k | (k + 1);
            proof {
                lemma_parent_gt(k);
                lemma_gathered_above(flat, k, k as int + 1, 32);
                assert(self.inner@[k as int] as int == full(flat, k));
            }
            if p < BRANCH_FACTOR {
                proof {
                    lemma_gathered_split(flat, p, k as int, k as int + 1, 32);
                    lemma_gathered_split(flat, p, 0, k as int, 32);
                    lemma_gathered_split(flat, p, 0, p as int, 32);
                    lemma_gathered_above(flat, p, p as int, 32);
                    lemma_gathered_nonneg(flat, p, 0, k as int);
                    lemma_children_cover(flat, p);
                    lemma_lo_le(p);
                    lemma_sum_split(flat, lo(p) as int, p as int, p + 1);
                    assert(self.inner@[p as int] as int == full(flat, p) - gathered(flat, p, k as int + 1, 32));
                    assert(gathered(flat, p, k as int, 32) == gathered(flat, p, k as int + 1, 32) + full(flat, k)) by {
                        lemma_gathered_split(flat, p, k as int, k as int + 1, 32);
                        assert(gathered(flat, p, k as int, k as int) == 0);
                        assert(parent(k) == p);
                        assert(gathered(flat, p, k as int, k as int + 1) == full(flat, k));
                    }
                }
                let v = self.inner[k];
                self.inner[p] = self.inner[p] - v;
                proof {
                    assert forall|j: usize| j < BRANCH_FACTOR implies #[trigger] self.inner@[j as int] as int
                        == full(flat, j) - gathered(flat, j, k as int, BRANCH_FACTOR as int) by {
                        lemma_gathered_split(flat, j, k as int, k as int + 1, 32);
                        assert(gathered(flat, j, k as int, k as int + 1) == if parent(k) == j { full(flat, k) } else { 0 }) by {
                            assert(gathered(flat, j, k as int, k as int) == 0);
                        }
                    }
                }
            } else {
                proof {
                    assert forall|j: usize| j < BRANCH_FACTOR implies #[trigger] self.inner@[j as int] as int
                        == full(flat, j) - gathered(flat, j, k as int, BRANCH_FACTOR as int) by {
                        lemma_gathered_split(flat, j, k as int, k as int + 1, 32);
                        assert(gathered(flat, j, k as int, k as int + 1) == 0) by {
                            assert(gathered(flat, j, k as int, k as int) == 0);
                        }
                    }
                }
            }
        }
        proof {
            assert forall|j: usize| j < BRANCH_FACTOR implies self.inner@[j as int] == flat[j as int] by {
                lemma_gathered_split(flat, j, 0, j as int, 32);
                lemma_gathered_above(flat, j, j as int, 32);
                lemma_children_cover(flat, j);
                lemma_lo_le(j);
                lemma_sum_split(flat, lo(j) as int, j as int, j + 1);
                assert(self.inner@[j as int] as int == full(flat, j) - gathered(flat, j, 0, 32));
            }
            assert(self.inner@ =~= flat);
        }
    }

    /// Turns the flat form back into a consistent tree.
    pub(crate) fn init(&mut self)
        requires
            old(self).is_flat(),
            total(old(self)@) <= usize::MAX,
        ensures
            final(self).fits(),
            final(self)@ == old(self)@,
    {
        let ghost flat = self.flat@;
        let mut k: usize = 0;
        while k < BRANCH_FACTOR
            invariant
                k <= BRANCH_FACTOR,
                self.flat@ == flat,
                flat.len() == BRANCH_FACTOR,
                total(flat) <= usize::MAX,
                forall|j: usize|
                    j < BRANCH_FACTOR ==> #[trigger] self.inner@[j as int] as int == if j < k {
                        full(flat, j)
                    } else {
                        flat[j as int] + gathered(flat, j, 0, k as int)
                    },
            decreases BRANCH_FACTOR - k,
        {
            let p = k | (k + 1);
            proof {
                lemma_parent_gt(k);
                lemma_children_cover(flat, k);
                lemma_gathered_split(flat, k, 0, k as int, k as int);
                lemma_lo_le(k);
                lemma_sum_split(flat, lo(k) as int, k as int, k + 1);
                assert(self.inner@[k as int] as int == full(flat, k));
            }
            if p < BRANCH_FACTOR {
                proof {
                    lemma_gathered_split(flat, p, 0, k as int + 1, p as int);
                    lemma_gathered_nonneg(flat, p, k as int + 1, p as int);
                    lemma_children_cover(flat, p);
                    lemma_lo_le(p);
                    lemma_sum_split(flat, lo(p) as int, p as int, p + 1);
                    lemma_sum_sub(flat, 0, 32, lo(p) as int, p + 1);
                    assert(gathered(flat, p, 0, k as int + 1) == gathered(flat, p, 0, k as int) + full(flat, k));
                }
                let v = self.inner[k];
                self.inner[p] = self.inner[p] + v;
            }
            proof {
                assert forall|j: usize| j < BRANCH_FACTOR implies #[trigger] self.inner@[j as int] as int == if j < k + 1 {
                    full(flat, j)
                } else {
                    flat[j as int] + gathered(flat, j, 0, k + 1)
                } by {
                    assert(gathered(flat, j, 0, k + 1) == gathered(flat, j, 0, k as int) + if parent(k) == j { full(flat, k) } else { 0 });
                }
            }
            k = k + 1;
        }
        proof {
            assert forall|j: usize| j < BRANCH_FACTOR implies #[trigger] self.inner@[j as int] as int == full(self.flat@, j)
                % modulus() by {
                lemma_lo_le(j);
                lemma_sum_sub(flat, 0, 32, lo(j) as int, j + 1);
                lemma_sum_nonneg(flat, lo(j) as int, j + 1);
                lemma_small_mod(full(flat, j) as nat, modulus() as nat);
            }
        }
    }

    /// Sum of all lengths (modulo the `usize` range).
    pub fn total_len(&self) -> (r: usize)
        requires
            self.wf(),
        ensures
            r as int == total(self@) % modulus(),
    {
        proof {
            assert(lo(31) == 0) by (bit_vector);
        }
        self.inner[BRANCH_FACTOR - 1]
    }

    /// Adds `amount` to the length at `index`, wrapping around the `usize`
    /// range; an `index` past the last slot changes nothing.
    pub fn add_wrapping(&mut self, index: usize, amount: usize)
        requires
            old(self).wf(),
        ensures
            final(self).wf(),
            final(self)@ == added(old(self)@, index as int, amount),
    {
        let ghost old_inner = self.inner@;
        let ghost flat = self.flat@;
        let mut k = index;
        proof {
            if index < BRANCH_FACTOR {
                lemma_lo_le(index);
            }
        }
        while k < BRANCH_FACTOR
            invariant
                index <= k,
                k < BRANCH_FACTOR ==> lo(k) <= index,
                k < 64 || k == index,
                self.flat@ == flat,
                flat.len() == BRANCH_FACTOR,
                old_inner.len() == BRANCH_FACTOR,
                forall|j: usize| j < BRANCH_FACTOR ==> old_inner[j as int] as int == full(flat, j) % modulus(),
                forall|j: usize|
                    j < BRANCH_FACTOR ==> #[trigger] self.inner@[j as int] == if j < k && lo(j) <= index
                        <= j {
                        ((old_inner[j as int] + amount) % modulus()) as usize
                    } else {
                        old_inner[j as int]
                    },
            decreases 64 - k,
        {
            self.inner[k] = self.inner[k].wrapping_add(amount);
            let next = k | (k + 1);
            proof {
                lemma_path_next(k, index);
                lemma_parent_gt(k);
                assert forall|j: usize| j < BRANCH_FACTOR implies #[trigger] self.inner@[j as int] == if j < next && lo(j) <= index <= j {
                    ((old_inner[j as int] + amount) % modulus()) as usize
                } else {
                    old_inner[j as int]
                } by {
                    if k < j && j < next {
                        lemma_path_step(k, index, j);
                    }
                }
            }
            k = next;
        }
        if index < BRANCH_FACTOR {
            let ghost nv = ((flat[index as int] + amount) % modulus()) as usize;
            proof {
                self.flat@ = flat.update(index as int, nv);
                let nflat = self.flat@;
                assert forall|j: usize| j < BRANCH_FACTOR implies #[trigger] self.inner@[j as int] as int == full(nflat, j)
                    % modulus() by {
                    lemma_lo_le(j);
                    lemma_sum_update(flat, index as int, nv, lo(j) as int, j + 1);
                    if lo(j) <= index <= j {
                        let sm = full(flat, j);
                        let x = flat[index as int] as int;
                        // (sm - x + (x + a) % m) % m == (sm % m + a) % m
                        lemma_add_mod_noop(sm - x, x + amount, modulus());
                        lemma_mod_twice(x + amount, modulus());
                        lemma_add_mod_noop(sm - x + (x + amount) % modulus() - (x + amount) % modulus(), (x + amount) % modulus(), modulus());
                        lemma_add_mod_noop(sm, amount as int, modulus());
                        lemma_small_mod(amount as nat, modulus() as nat);
                        assert(((sm - x) + (x + amount)) == sm + amount);
                    }
                }
            }
        } else {
            proof {
                assert forall|j: usize| j < BRANCH_FACTOR implies #[trigger] self.inner@[j as int] == old_inner[j as int] by {
                    lemma_lo_le(j);
                }
                assert(self.inner@ =~= old_inner);
            }
        }
    }

    /// Finds the child holding position `index`: the last child `c` whose
    /// preceding lengths add up to at most `index`, and the position within it.
    pub fn child_containing_index(&self, index: usize) -> (r: (usize, usize))
        requires
            self.fits(),
        ensures
            r.1 < BRANCH_FACTOR,
            prefix(self@, r.1 as int) <= index,
            r.0 == index - prefix(self@, r.1 as int),
            forall|j: int| r.1 < j < BRANCH_FACTOR ==> prefix(self@, j) > index,
    {
        proof {
            self.lemma_exact();
        }
        let ghost flat = self.flat@;
        let ghost orig = index;
        let mut index = index;
        let mut i: usize = 0;
        let mut offset: usize = BRANCH_FACTOR / 2;
        proof {
            assert(0usize & 31usize == 0) by (bit_vector);
        }
        while offset > 0
            invariant
                self.fits(),
                flat == self@,
                forall|j: usize| j < BRANCH_FACTOR ==> #[trigger] self.inner@[j as int] as int == full(flat, j),
                offset == 0 || offset == 1 || offset == 2 || offset == 4 || offset == 8 || offset == 16,
                i < BRANCH_FACTOR,
                offset > 0 ==> i & ((2 * offset - 1) as usize) == 0,
                offset > 0 ==> i + 2 * offset <= 32,
                prefix(flat, i as int) <= orig,
                index == orig - prefix(flat, i as int),
                offset > 0 ==> (i + 2 * offset == 32 || prefix(flat, i + 2 * offset) > orig),
                offset == 0 ==> (i + 1 == 32 || prefix(flat, i + 1) > orig),
            decreases offset,
        {
            proof {
                lemma_descent_slot(i, offset);
                lemma_sum_split(flat, 0, i as int, i + offset);
            }
            let v = self.inner[i + offset - 1];
            if v <= index {
                index = index - v;
                i = i + offset;
            }
            offset = offset / 2;
        }
        proof {
            assert forall|j: int| i < j < BRANCH_FACTOR implies prefix(flat, j) > orig by {
                lemma_prefix_mono(flat, i + 1, j);
            }
        }
        (index, i)
    }

    /// Like `child_containing_index`, but a position just past the end of a
    /// child counts as inside it: the last child `c` that is the first one or
    /// whose preceding lengths add up to less than `index`.
    pub fn child_containing_index_inclusive(&self, index: usize) -> (r: (usize, usize))
        requires
            self.fits(),
        ensures
            r.1 < BRANCH_FACTOR,
            r.1 == 0 || prefix(self@, r.1 as int) < index,
            prefix(self@, r.1 as int) <= index,
            r.0 == index - prefix(self@, r.1 as int),
            forall|j: int| r.1 < j < BRANCH_FACTOR ==> prefix(self@, j) >= index,
    {
        proof {
            self.lemma_exact();
        }
        let ghost flat = self.flat@;
        let ghost orig = index;
        let mut index = index;
        let mut i: usize = 0;
        let mut offset: usize = BRANCH_FACTOR / 2;
        proof {
            assert(0usize & 31usize == 0) by (bit_vector);
        }
        while offset > 0
            invariant
                self.fits(),
                flat == self@,
                forall|j: usize| j < BRANCH_FACTOR ==> #[trigger] self.inner@[j as int] as int == full(flat, j),
                offset == 0 || offset == 1 || offset == 2 || offset == 4 || offset == 8 || offset == 16,
                i < BRANCH_FACTOR,
                offset > 0 ==> i & ((2 * offset - 1) as usize) == 0,
                offset > 0 ==> i + 2 * offset <= 32,
                i == 0 || prefix(flat, i as int) < orig,
                prefix(flat, i as int) <= orig,
                index == orig - prefix(flat, i as int),
                offset > 0 ==> (i + 2 * offset == 32 || prefix(flat, i + 2 * offset) >= orig),
                offset == 0 ==> (i + 1 == 32 || prefix(flat, i + 1) >= orig),
            decreases offset,
        {
            proof {
                lemma_descent_slot(i, offset);
                lemma_sum_split(flat, 0, i as int, i + offset);
            }
            let v = self.inner[i + offset - 1];
            if v < index {
                index = index - v;
                i = i + offset;
            }
            offset = offset / 2;
        }
        proof {
            assert forall|j: int| i < j < BRANCH_FACTOR implies prefix(flat, j) >= orig by {
                lemma_prefix_mono(flat, i + 1, j);
            }
        }
        (index, i)
    }

    /// The flat length at `i`, read in the flat form.
    pub(crate) fn flat_at(&self, i: usize) -> (r: usize)
        requires
            self.is_flat(),
            i < BRANCH_FACTOR,
        ensures
            r == self@[i as int],
            self@.len() == BRANCH_FACTOR,
    {
        self.inner[i]
    }

    /// Sets the flat length at `i`, in the flat form.
    pub(crate) fn set_flat(&mut self, i: usize, v: usize)
        requires
            old(self).is_flat(),
            i < BRANCH_FACTOR,
        ensures
            final(self).is_flat(),
            final(self)@ == old(self)@.update(i as int, v),
            final(self)@.len() == BRANCH_FACTOR,
    {
        self.inner[i] = v;
        proof {
            self.flat@ = self.flat@.update(i as int, v);
        }
    }

    /// Splits off the upper half of the lengths into a new tree; this tree
    /// keeps the lower half.
    pub fn split(&mut self) -> (other: Self)
        requires
            old(self).fits(),
        ensures
            final(self).fits(),
            other.fits(),
            final(self)@ == lower_half(old(self)@),
            other@ == upper_half(old(self)@),
    {
        proof {
            self.lemma_exact();
        }
        let ghost flat = self.flat@;
        let ghost old_inner = self.inner@;
        proof {
            assert(lo(15) == 0) by (bit_vector);
            assert(lo(31) == 0) by (bit_vector);
            assert(old_inner[31] as int == full(flat, 31));
            assert(old_inner[15] as int == full(flat, 15));
            assert(forall|j: usize| j < BRANCH_FACTOR ==> #[trigger] old_inner[j as int] as int == full(flat, j));
        }
        let mut other = FenwickTree { inner: [0usize; 32], flat: Ghost(zeros(32)) };
        let half = BRANCH_FACTOR / 2;
        let mut k: usize = 0;
        while k < half
            invariant
                half == 16,
                k <= half,
                old_inner.len() == 32,
                self.inner@ == old_inner,
                forall|t: int| 0 <= t < k ==> other.inner@[t] == old_inner[t + 16],
                forall|t: int| k <= t < 32 ==> other.inner@[t] == 0,
            decreases half - k,
        {
            other.inner[k] = self.inner[half + k];
            k = k + 1;
        }
        let mut k: usize = half;
        while k < BRANCH_FACTOR
            invariant
                k >= 16,
                k <= 32,
                old_inner.len() == 32,
                forall|t: int| 0 <= t < 16 ==> self.inner@[t] == old_inner[t],
                forall|t: int| 16 <= t < k ==> self.inner@[t] == 0,
                forall|t: int| k <= t < 32 ==> self.inner@[t] == old_inner[t],
            decreases BRANCH_FACTOR - k,
        {
            self.inner[k] = 0;
            k = k + 1;
        }
        proof {
            assert(lo(15) == 0) by (bit_vector);
            assert(lo(31) == 0) by (bit_vector);
            lemma_sum_split(flat, 0, 16, 32);
            lemma_sum_nonneg(flat, 16, 32);
            lemma_sum_nonneg(flat, 0, 16);
        }
        self.inner[BRANCH_FACTOR - 1] = self.inner[half - 1];
        other.inner[half - 1] = other.inner[half - 1] - self.inner[BRANCH_FACTOR - 1];
        other.inner[BRANCH_FACTOR - 1] = other.inner[half - 1];
        proof {
            let sflat = flat.subrange(0, 16) + zeros(16);
            let oflat = flat.subrange(16, 32) + zeros(16);
            self.flat@ = sflat;
            other.flat@ = oflat;
            assert(sflat.len() == 32);
            assert(oflat.len() == 32);
            lemma_sum_zero(sflat, 16, 32);
            lemma_sum_zero(oflat, 16, 32);
            lemma_sum_ext(sflat, flat, 0, 16);
            lemma_sum_shift(flat, oflat, 16, 0, 16);
            lemma_sum_split(sflat, 0, 16, 32);
            lemma_sum_split(oflat, 0, 16, 32);
            assert forall|j: usize| j < BRANCH_FACTOR implies #[trigger] self.inner@[j as int] as int == full(sflat, j)
                % modulus() by {
                lemma_lo_le(j);
                if j < 16 {
                    lemma_sum_ext(sflat, flat, lo(j) as int, j + 1);
                    assert(self.inner@[j as int] == old_inner[j as int]);
                    assert(old_inner[j as int] as int == full(flat, j));
                    assert(full(sflat, j) == full(flat, j));
                } else if j < 31 {
                    lemma_split_slots((j - 16) as usize);
                    lemma_sum_zero(sflat, lo(j) as int, j + 1);
                    lemma_small_mod(0, modulus() as nat);
                }
                lemma_sum_nonneg(sflat, lo(j) as int, j + 1);
                lemma_sum_sub(sflat, 0, 32, lo(j) as int, j + 1);
                lemma_sum_ext(sflat, flat, 0, 16);
                lemma_sum_sub(flat, 0, 32, 0, 16);
                lemma_small_mod(full(sflat, j) as nat, modulus() as nat);
            }
            assert forall|j: usize| j < BRANCH_FACTOR implies #[trigger] other.inner@[j as int] as int == full(oflat, j)
                % modulus() by {
                lemma_lo_le(j);
                if j < 15 {
                    lemma_split_slots(j);
                    lemma_sum_shift(flat, oflat, 16, lo(j) as int, j + 1);
                } else if 15 < j && j < 31 {
                    lemma_split_slots((j - 16) as usize);
                    lemma_sum_zero(oflat, lo(j) as int, j + 1);
                    lemma_small_mod(0, modulus() as nat);
                }
                lemma_sum_nonneg(oflat, lo(j) as int, j + 1);
                lemma_sum_sub(oflat, 0, 32, lo(j) as int, j + 1);
                lemma_sum_shift(flat, oflat, 16, 0, 16);
                lemma_sum_sub(flat, 0, 32, 16, 32);
                lemma_small_mod(full(oflat, j) as nat, modulus() as nat);
            }
        }
        other
    }

    /// Runs `f` on the flat lengths, which it may change, and returns what
    /// `f` returns.
    pub fn with_flat_lens<F, R>(&mut self, f: F) -> (r: R) where
        F: FnOnce(&mut [usize; 32]) -> R,

        requires
            old(self).fits(),
            forall|m: &mut [usize; 32]| (*m)@ == old(self)@ ==> #[trigger] f.requires((m,)),
            forall|m: &mut [usize; 32], res: R|
                (*m)@ == old(self)@ && #[trigger] f.ensures((m,), res) ==> total((*final(m))@) <= usize::MAX,
        ensures
            final(self).fits(),
            exists|m: &mut [usize; 32]|
                (*m)@ == old(self)@ && final(self)@ == (*final(m))@ && #[trigger] f.ensures((m,), r),
    {
        self.fini();
        let ret = f(&mut self.inner);
        self.flat = Ghost(self.inner@);
        self.init();
        ret
    }
}

} // verus!
