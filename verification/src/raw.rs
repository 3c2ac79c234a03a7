//! Bit-trick primitives: building the all-ones window mask and stepping a
//! bit pattern to the lexicographically next one with the same number of
//! set bits, wrapping around inside the window.

use vstd::prelude::*;

verus! {

/// The 32-bit value whose low `w` bits are set and whose other bits are zero.
pub open spec fn mask(w: u32) -> u32
    recommends
        w <= 32,
{
    ((1u64 << w) - 1) as u32
}

/// The number of set bits of `v`, by the low-bit recursion.
pub open spec fn pop_count(v: u32) -> u32
    decreases v,
{
    if v == 0 {
        0
    } else {
        ((v % 2) + pop_count((v / 2) as u32)) as u32
    }
}

/// The number of set bits of `v`, as one closed bitwise formula (pairwise
/// summation of bit fields).  Same value as `pop_count`; this form contains
/// no recursion, so the bit-vector solver can reason about it directly.
pub open spec fn pop_count_bv(v: u32) -> u32 {
    let p = ((v & 0x5555_5555) + ((v >> 1u32) & 0x5555_5555)) as u32;
    let q = ((p & 0x3333_3333) + ((p >> 2u32) & 0x3333_3333)) as u32;
    let s = ((q & 0x0F0F_0F0F) + ((q >> 4u32) & 0x0F0F_0F0F)) as u32;
    ((s + (s >> 8u32) + (s >> 16u32) + (s >> 24u32)) as u32) & 0xFF
}

/// The two popcount formulations agree on every value.
pub proof fn lemma_pop_count_bv(v: u32)
    ensures
        pop_count_bv(v) == pop_count(v),
    decreases v,
{
    if v == 0 {
        assert(pop_count_bv(0) == 0) by (bit_vector);
    } else {
        lemma_pop_count_bv((v / 2) as u32);
        assert(pop_count_bv(v) == ((v % 2) + pop_count_bv((v / 2) as u32)) as u32)
            by (bit_vector);
    }
}

/// Whether `v` lies inside the low `part`-bit window and has exactly `ones`
/// set bits there: the shape of every value a generator yields.
pub open spec fn is_perm(part: u32, ones: u32, v: u32) -> bool {
    &&& v & mask(part) == v
    &&& pop_count(v) == ones
}

/// The numerically largest pattern with `ones` set bits in a `part`-bit
/// window: all of them packed against the window's top.
pub open spec fn top_pattern(part: u32, ones: u32) -> u32
    recommends
        ones <= part <= 32,
{
    ((mask(ones) as u64) << ((part - ones) as u32)) as u32
}

/// Whether `n` is the immediate successor of `c` among the patterns with
/// `ones` set bits in the low `part`-bit window: a larger pattern with no
/// further pattern strictly in between.
pub open spec fn is_next_perm(part: u32, ones: u32, c: u32, n: u32) -> bool {
    &&& is_perm(part, ones, n)
    &&& c < n
    &&& forall|v: u32| c < v && v < n ==> !is_perm(part, ones, v)
}

/// The binomial coefficient, by Pascal's recursion: the number of ways to
/// pick `k` positions out of `n`.
pub open spec fn binomial(n: nat, k: nat) -> nat
    decreases n,
{
    if k == 0 {
        1
    } else if n == 0 {
        0
    } else {
        binomial((n - 1) as nat, k) + binomial((n - 1) as nat, (k - 1) as nat)
    }
}

/// The number of patterns with `ones` set bits in the low `part`-bit window
/// that are numerically below `b`.
pub open spec fn count_perms_below(part: u32, ones: u32, b: int) -> nat
    decreases b,
{
    if b <= 0 {
        0
    } else {
        count_perms_below(part, ones, b - 1) + (if is_perm(part, ones, (b - 1) as u32) {
            1nat
        } else {
            0nat
        })
    }
}

/// Every pattern of the shape lies between the packed-low smallest pattern
/// and the packed-high largest one.
proof fn lemma_pattern_range_bv(part: u32, ones: u32)
    by (bit_vector)
    requires
        ones <= part,
        part <= 32,
    ensures
        forall|v: u32|
            (v & mask(part) == v && pop_count_bv(v) == ones) ==> (mask(ones) <= v && v
                <= top_pattern(part, ones)),
{
}

/// Every pattern with `ones` set bits in the low `part`-bit window lies
/// between `mask(ones)`, the smallest such pattern, and
/// `top_pattern(part, ones)`, the largest.
pub proof fn lemma_pattern_bounds(part: u32, ones: u32)
    requires
        ones <= part,
        part <= 32,
    ensures
        forall|v: u32| #[trigger] is_perm(part, ones, v) ==> mask(ones) <= v && v <= top_pattern(part, ones),
{
    lemma_pattern_range_bv(part, ones);
    assert forall|v: u32| #[trigger] is_perm(part, ones, v) implies mask(ones) <= v && v
        <= top_pattern(part, ones) by {
        lemma_pop_count_bv(v);
    }
}

/// After the carry step, no more set bits remain than the target count:
/// the subtraction deriving the still-owed ones cannot underflow.
proof fn lemma_advance_bound(part: u32, ones: u32, last: u32, t: u32, nu: u32)
    by (bit_vector)
    requires
        part <= 32,
        ones <= part,
        pop_count_bv(last) == ones,
        last & mask(part) == last,
        t == (last | (if last == 0 {
            0xFFFF_FFFFu32
        } else {
            (last - 1) as u32
        })),
        nu == ((if t == 0xFFFF_FFFFu32 {
            0u32
        } else {
            (t + 1) as u32
        }) & mask(part)),
    ensures
        pop_count_bv(nu) <= ones,
{
}

/// The carry-and-refill step stays in the window, keeps the population
/// count, strictly increases every pattern but the largest, and carries
/// the largest pattern around to the smallest.
#[verifier::rlimit(100)]
proof fn lemma_advance_props(part: u32, ones: u32, last: u32, t: u32, nu: u32, r: u32)
    by (bit_vector)
    requires
        part <= 32,
        ones <= part,
        pop_count_bv(last) == ones,
        last & mask(part) == last,
        t == (last | (if last == 0 {
            0xFFFF_FFFFu32
        } else {
            (last - 1) as u32
        })),
        nu == ((if t == 0xFFFF_FFFFu32 {
            0u32
        } else {
            (t + 1) as u32
        }) & mask(part)),
        pop_count_bv(nu) <= ones,
        r == (nu | mask(((ones - pop_count_bv(nu)) as u32))),
    ensures
        r & mask(part) == r,
        pop_count_bv(r) == ones,
        last == top_pattern(part, ones) ==> r == mask(ones),
        last != top_pattern(part, ones) ==> last < r,
{
}

/// The step skips nothing: strictly between a pattern and its successor
/// there is no further pattern of the same shape.
#[verifier::rlimit(100)]
proof fn lemma_advance_min(part: u32, ones: u32, last: u32, t: u32, nu: u32, r: u32)
    by (bit_vector)
    requires
        part <= 32,
        ones <= part,
        pop_count_bv(last) == ones,
        last & mask(part) == last,
        t == (last | (if last == 0 {
            0xFFFF_FFFFu32
        } else {
            (last - 1) as u32
        })),
        nu == ((if t == 0xFFFF_FFFFu32 {
            0u32
        } else {
            (t + 1) as u32
        }) & mask(part)),
        pop_count_bv(nu) <= ones,
        r == (nu | mask(((ones - pop_count_bv(nu)) as u32))),
    ensures
        forall|v: u32| last < v && v < r ==> !(v & mask(part) == v && pop_count_bv(v) == ones),
{
}

/// A value not exceeding the window mask lies inside that window and
/// inside the window one bit wider.
proof fn lemma_low_in_window(p: u32, v: u32)
    by (bit_vector)
    requires
        p < 32,
        v <= mask(p),
    ensures
        v & mask(p) == v,
        v & mask((p + 1) as u32) == v,
{
}

/// Setting the bit just above a `p`-bit value keeps it inside the window
/// one bit wider and raises its population count by one.
proof fn lemma_top_half(p: u32, x: u32)
    requires
        p < 32,
        x <= mask(p),
    ensures
        mask(p) + 1 + x <= 0xFFFF_FFFF,
        ((mask(p) + 1 + x) as u32) & mask((p + 1) as u32) == ((mask(p) + 1 + x) as u32),
        pop_count(((mask(p) + 1 + x) as u32)) == pop_count(x) + 1,
{
    lemma_pop_count_bv(x);
    lemma_pop_count_bv(((mask(p) + 1 + x) as u32));
    assert(mask(p) + 1 + x <= 0xFFFF_FFFF && ((mask(p) + 1 + x) as u32) & mask((p + 1) as u32)
        == ((mask(p) + 1 + x) as u32) && pop_count_bv(((mask(p) + 1 + x) as u32)) == (pop_count_bv(
        x,
    ) + 1) as u32 && pop_count_bv(x) < 0xFFFF_FFFFu32) by (bit_vector)
        requires
            p < 32,
            x <= mask(p),
    ;
}

/// A stretch holding no pattern contributes nothing to the count.
pub(crate) proof fn lemma_count_empty_range(part: u32, ones: u32, lo: int, hi: int)
    requires
        0 <= lo <= hi,
        hi <= 0x1_0000_0000,
        forall|v: u32| lo <= v < hi ==> !is_perm(part, ones, v),
    ensures
        count_perms_below(part, ones, hi) == count_perms_below(part, ones, lo),
    decreases hi - lo,
{
    if hi > lo {
        lemma_count_empty_range(part, ones, lo, hi - 1);
        assert(!is_perm(part, ones, (hi - 1) as u32));
    }
}

/// Below the mask of the narrower window, widening the window by one bit
/// leaves the pattern count unchanged.
proof fn lemma_count_window_ext(p: u32, k: u32, b: int)
    requires
        p < 32,
        0 <= b <= mask(p) + 1,
    ensures
        count_perms_below((p + 1) as u32, k, b) == count_perms_below(p, k, b),
    decreases b,
{
    if b > 0 {
        lemma_count_window_ext(p, k, b - 1);
        lemma_low_in_window(p, (b - 1) as u32);
    }
}

/// The patterns of the upper half of a window are the patterns of the
/// lower half with one more set bit, shifted up by the half's size.
proof fn lemma_count_split(p: u32, k: u32, b: int)
    requires
        p < 32,
        0 <= b <= mask(p) + 1,
    ensures
        k >= 1 ==> count_perms_below((p + 1) as u32, k, mask(p) + 1 + b) == count_perms_below(
            (p + 1) as u32,
            k,
            mask(p) + 1,
        ) + count_perms_below(p, (k - 1) as u32, b),
        k == 0 ==> count_perms_below((p + 1) as u32, k, mask(p) + 1 + b) == count_perms_below(
            (p + 1) as u32,
            k,
            mask(p) + 1,
        ),
    decreases b,
{
    if b > 0 {
        lemma_count_split(p, k, b - 1);
        let x = (b - 1) as u32;
        lemma_low_in_window(p, x);
        lemma_top_half(p, x);
        let y = (mask(p) + 1 + x) as u32;
        assert(mask(p) + 1 + b - 1 == y);
        if k >= 1 {
            assert(is_perm((p + 1) as u32, k, y) <==> is_perm(p, (k - 1) as u32, x));
        } else {
            assert(!is_perm((p + 1) as u32, k, y));
        }
    }
}

/// Over the whole window, the number of patterns with `ones` set bits in
/// `part` positions is the binomial coefficient `part` choose `ones`.
pub proof fn lemma_count_all(part: u32, ones: u32)
    requires
        part <= 32,
    ensures
        count_perms_below(part, ones, mask(part) + 1) == binomial(part as nat, ones as nat),
    decreases part,
{
    if part == 0 {
        assert(mask(0) == 0 && 0u32 & mask(0) == 0u32) by (bit_vector);
        assert(count_perms_below(0, ones, 1) == count_perms_below(0, ones, 0) + (if is_perm(
            0,
            ones,
            0,
        ) {
            1nat
        } else {
            0nat
        }));
        assert(pop_count(0) == 0);
    } else {
        let p = (part - 1) as u32;
        lemma_count_all(p, ones);
        lemma_count_window_ext(p, ones, mask(p) + 1);
        lemma_count_split(p, ones, mask(p) + 1);
        assert(mask(part) + 1 == mask(p) + 1 + (mask(p) + 1)) by (bit_vector)
            requires
                1 <= part <= 32,
                p == (part - 1) as u32,
        ;
        if ones >= 1 {
            lemma_count_all(p, (ones - 1) as u32);
        }
    }
}

/// A narrower window mask is unchanged by a wider one.
pub(crate) proof fn lemma_mask_nested(w1: u32, w2: u32)
    by (bit_vector)
    requires
        w1 <= w2,
        w2 <= 32,
    ensures
        mask(w1) & mask(w2) == mask(w1),
{
}

/// The packed-low smallest pattern never exceeds the packed-high largest,
/// and the largest still fits under the window mask.
pub(crate) proof fn lemma_min_le_top(part: u32, ones: u32)
    by (bit_vector)
    requires
        ones <= part,
        part <= 32,
    ensures
        mask(ones) <= top_pattern(part, ones),
        top_pattern(part, ones) <= mask(part),
{
}

/// Builds the mask with exactly the low `amount` bits set.
///
/// The shift runs in 64 bits: a 32-bit shift by the full width of 32 would
/// wrap its shift amount and drop the top bit of the mask.
pub fn mk_ones(amount: u32) -> (r: u32)
    requires
        amount <= 32,
    ensures
        r == mask(amount),
        pop_count(r) == amount,
{
    proof {
        lemma_pop_count_bv(mask(amount));
        assert(amount <= 32 ==> pop_count_bv(mask(amount)) == amount) by (bit_vector);
        assert(amount <= 32 ==> 1u64 << amount >= 1u64) by (bit_vector);
    }
    ((1u64 << amount) - 1) as u32
}

/// Counts the set bits of `v` by pairwise summation of bit fields.
pub(crate) fn popcount(v: u32) -> (r: u32)
    ensures
        r == pop_count(v),
{
    proof {
        lemma_pop_count_bv(v);
        assert((v & 0x5555_5555) + ((v >> 1u32) & 0x5555_5555) < 0x1_0000_0000) by (bit_vector);
    }
    let p: u32 = (v & 0x5555_5555) + ((v >> 1) & 0x5555_5555);
    proof {
        assert((p & 0x3333_3333) + ((p >> 2u32) & 0x3333_3333) < 0x1_0000_0000) by (bit_vector);
    }
    let q: u32 = (p & 0x3333_3333) + ((p >> 2) & 0x3333_3333);
    proof {
        assert((q & 0x0F0F_0F0F) + ((q >> 4u32) & 0x0F0F_0F0F) < 0x1_0000_0000) by (bit_vector);
    }
    let s: u32 = (q & 0x0F0F_0F0F) + ((q >> 4) & 0x0F0F_0F0F);
    proof {
        assert(s + (s >> 8u32) + (s >> 16u32) + (s >> 24u32) < 0x1_0000_0000) by (bit_vector)
            requires
                s == ((q & 0x0F0F_0F0F) + ((q >> 4u32) & 0x0F0F_0F0F)) as u32,
        ;
    }
    (s + (s >> 8) + (s >> 16) + (s >> 24)) & 0xFF
}

/// Steps `last_perm`, a pattern with `ones` set bits in the low `part`-bit
/// window, to the lexicographically next such pattern, wrapping from the
/// largest pattern around to the smallest.
///
/// The wrapping subtraction only matters when `last_perm` is zero (so
/// `ones` is zero); the garbage borrow it produces is swallowed by the
/// window mask two steps later.
pub fn advance(part: u32, ones: u32, last_perm: u32) -> (r: u32)
    requires
        part <= 32,
        ones <= part,
        pop_count(last_perm) == ones,
        last_perm & mask(part) == last_perm,
    ensures
        r & mask(part) == r,
        pop_count(r) == ones,
        last_perm == top_pattern(part, ones) ==> r == mask(ones),
        last_perm != top_pattern(part, ones) ==> is_next_perm(part, ones, last_perm, r),
{
    let t: u32 = last_perm | last_perm.wrapping_sub(1);
    let next_upper: u32 = t.wrapping_add(1) & mk_ones(part);
    proof {
        lemma_pop_count_bv(last_perm);
        lemma_pop_count_bv(next_upper);
        assert(t == (last_perm | (if last_perm == 0 {
            0xFFFF_FFFFu32
        } else {
            (last_perm - 1) as u32
        })));
        assert(next_upper == ((if t == 0xFFFF_FFFFu32 {
            0u32
        } else {
            (t + 1) as u32
        }) & mask(part)));
        lemma_advance_bound(part, ones, last_perm, t, next_upper);
    }
    let need_ones: u32 = ones - popcount(next_upper);
    let next_lower: u32 = mk_ones(need_ones);
    let r: u32 = next_upper | next_lower;
    proof {
        lemma_pop_count_bv(r);
        lemma_advance_props(part, ones, last_perm, t, next_upper, r);
        lemma_advance_min(part, ones, last_perm, t, next_upper, r);
        assert forall|v: u32| last_perm < v && v < r implies !is_perm(part, ones, v) by {
            lemma_pop_count_bv(v);
            assert(!(v & mask(part) == v && pop_count_bv(v) == ones));
        }
    }
    r
}

} // verus!
