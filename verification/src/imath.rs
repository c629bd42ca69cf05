//! Integer helpers shared by the geometry and the grid metric: truncating
//! division, sign, and a floor square root.
use vstd::prelude::*;
use vstd::arithmetic::div_mod::{lemma_div_is_ordered, lemma_div_multiples_vanish};

verus! {

/// Magnitude of an integer.
pub open spec fn abs_i(v: int) -> int {
    if v >= 0 {
        v
    } else {
        -v
    }
}

/// Sign of an integer: -1, 0 or 1.
pub open spec fn sign_i(v: int) -> int {
    if v > 0 {
        1
    } else if v < 0 {
        -1
    } else {
        0
    }
}

/// Quotient rounded toward zero, as Rust's integer division computes it.
pub open spec fn div_trunc(p: int, d: int) -> int
    recommends
        d > 0,
{
    if p >= 0 {
        p / d
    } else {
        -((-p) / d)
    }
}

/// Sign of a coordinate, matching `sign_i`.
pub fn sign_i64(v: i64) -> (r: i64)
    ensures
        r == sign_i(v as int),
{
    if v > 0 {
        1
    } else if v < 0 {
        -1
    } else {
        0
    }
}

/// A quotient rounded toward zero is no larger in magnitude than `m`
/// whenever the dividend is at most `m * d` in magnitude.
pub proof fn lemma_div_trunc_bound(p: int, d: int, m: int)
    requires
        d > 0,
        0 <= m,
        abs_i(p) <= m * d,
    ensures
        abs_i(div_trunc(p, d)) <= m,
{
    lemma_div_multiples_vanish(m, d);
    if p >= 0 {
        lemma_div_is_ordered(p, m * d, d);
        vstd::arithmetic::div_mod::lemma_div_pos_is_pos(p, d);
    } else {
        lemma_div_is_ordered(-p, m * d, d);
        vstd::arithmetic::div_mod::lemma_div_pos_is_pos(-p, d);
    }
}

/// The sum of a sequence of machine words, as an unbounded integer.
pub open spec fn sum_u64(s: Seq<u64>) -> int
    decreases s.len(),
{
    if s.len() == 0 {
        0
    } else {
        s[0] + sum_u64(s.drop_first())
    }
}

/// A sequence's sum is never negative.
pub proof fn lemma_sum_nonneg(s: Seq<u64>)
    ensures
        sum_u64(s) >= 0,
    decreases s.len(),
{
    if s.len() > 0 {
        lemma_sum_nonneg(s.drop_first());
    }
}

/// Replacing one element changes the sum by the difference of the
/// element values.
pub proof fn lemma_sum_update(s: Seq<u64>, i: int, v: u64)
    requires
        0 <= i < s.len(),
    ensures
        sum_u64(s.update(i, v)) == sum_u64(s) + v - s[i],
    decreases s.len(),
{
    let t = s.update(i, v);
    if i == 0 {
        assert(t.drop_first() =~= s.drop_first());
    } else {
        assert(t.drop_first() =~= s.drop_first().update(i - 1, v));
        lemma_sum_update(s.drop_first(), i - 1, v);
    }
}

/// Floor square root: the greatest `r` with `r * r <= n`.
pub fn isqrt_u128(n: u128) -> (r: u64)
    ensures
        (r as int) * (r as int) <= n as int,
        (n as int) < ((r as int + 1) * (r as int + 1)),
{
    let mut lo: u64 = 0;
    let mut hi: u64 = u64::MAX;
    proof {
        assert((u64::MAX as int + 1) * (u64::MAX as int + 1) == u128::MAX as int + 1)
            by (nonlinear_arith);
    }
    while lo < hi
        invariant
            (lo as int) * (lo as int) <= n as int,
            (n as int) < ((hi as int + 1) * (hi as int + 1)),
            lo <= hi,
        decreases hi - lo,
    {
        let mid: u64 = lo + (hi - lo) / 2;
        let next: u64 = mid + 1;
        proof {
            assert(0 <= (next as int) * (next as int) <= u128::MAX as int) by (nonlinear_arith)
                requires
                    0 <= next as int <= u64::MAX as int,
            ;
        }
        let sq: u128 = (next as u128) * (next as u128);
        if sq <= n {
            lo = next;
        } else {
            hi = mid;
        }
    }
    lo
}

} // verus!
