//! Fixed-point scalar arithmetic.
//!
//! Every real quantity in this library is represented as a signed 64-bit
//! integer holding the real value times `SCALE` (a Q-format fixed-point
//! number).  `ONE` is the representation of 1.  Matrix and vector entries
//! are kept within `[-VAL_MAX, VAL_MAX]`; operations whose mathematical
//! result would leave that range report a numeric-degeneracy error instead
//! of wrapping.

use vstd::prelude::*;

verus! {

/// Number of fixed-point units per real unit.
pub const SCALE: i64 = 1_000_000_000;

/// The fixed-point representation of one.
pub const ONE: i64 = 1_000_000_000;

/// The fixed-point representation of one half.
pub const HALF: i64 = 500_000_000;

/// Largest magnitude a matrix or vector entry may take.
pub const VAL_MAX: i64 = 1_000_000_000_000_000;

/// Largest number of rows or columns a matrix may have.
pub const DIM_MAX: usize = 1_000_000;

/// Truncating (toward zero) integer division, the semantics of Rust's
/// `/` on signed integers, expressed over mathematical integers.
pub open spec fn fixdiv(x: int, d: int) -> int {
    if x >= 0 {
        x / d
    } else {
        -((-x) / d)
    }
}

/// Fixed-point product: the double-width product scaled back down,
/// truncated toward zero.
pub open spec fn fixmul(a: int, b: int) -> int {
    fixdiv(a * b, SCALE as int)
}

/// Whether a fixed-point value is within the admitted entry range.
pub open spec fn in_range(x: int) -> bool {
    -(VAL_MAX as int) <= x <= VAL_MAX as int
}

/// Fixed-point representation of the natural logarithm of two.
pub const LN2: i64 = 693_147_181;

/// Taylor term `k` of the series for `e^(r / SCALE)`, in fixed point with
/// truncating division: term 0 is `ONE`, term `k` is term `k-1` times
/// `r / (SCALE * k)`.
pub open spec fn exp_term(r: int, k: nat) -> int
    decreases k,
{
    if k == 0 {
        SCALE as int
    } else {
        exp_term(r, (k - 1) as nat) * r / (SCALE as int * k as int)
    }
}

/// Partial sum of the first `k + 1` Taylor terms for `e^(r / SCALE)`.
pub open spec fn exp_psum(r: int, k: nat) -> int
    decreases k,
{
    if k == 0 {
        SCALE as int
    } else {
        exp_psum(r, (k - 1) as nat) + exp_term(r, k)
    }
}

/// The fixed-point value this library computes for `e^(-t / SCALE)`:
/// range reduction by powers of two (`t = k ln 2 + r`), a 13-term Taylor
/// series for `e^r`, fixed-point reciprocal, and a final shift by `k`.
pub open spec fn spec_exp_neg(t: int) -> int {
    let k = t / (LN2 as int);
    if k >= 63 {
        0
    } else {
        ((SCALE as int * SCALE as int) / exp_psum(t - k * (LN2 as int), 12))
            / vstd::arithmetic::power2::pow2(k as nat) as int
    }
}

/// Taylor terms are nonnegative and no larger than `ONE` when
/// `0 <= r < SCALE`.
pub proof fn lemma_exp_term_bounds(r: int, k: nat)
    requires
        0 <= r < SCALE,
    ensures
        0 <= exp_term(r, k) <= SCALE,
    decreases k,
{
    if k > 0 {
        lemma_exp_term_bounds(r, (k - 1) as nat);
        let prev = exp_term(r, (k - 1) as nat);
        assert(0 <= prev * r / (SCALE as int * k as int) <= SCALE) by (nonlinear_arith)
            requires
                0 <= prev <= SCALE,
                0 <= r < SCALE,
                1 <= k,
        ;
    }
}

/// Taylor partial sums lie between `ONE` and `(k + 1) * ONE` when
/// `0 <= r < SCALE`.
pub proof fn lemma_exp_psum_bounds(r: int, k: nat)
    requires
        0 <= r < SCALE,
    ensures
        SCALE as int <= exp_psum(r, k) <= (k + 1) * SCALE,
    decreases k,
{
    if k == 0 {
        assert(exp_psum(r, 0) == SCALE as int);
        assert((0 + 1) * SCALE as int == SCALE as int) by (nonlinear_arith);
    } else {
        lemma_exp_psum_bounds(r, (k - 1) as nat);
        lemma_exp_term_bounds(r, k);
        assert((k + 1) * SCALE == k as int * SCALE + SCALE) by (nonlinear_arith);
        assert((k - 1 + 1) * SCALE == k as int * SCALE) by (nonlinear_arith);
    }
}

/// With `r == 0` every Taylor term after the first vanishes, so the
/// partial sums all equal `ONE`.
pub proof fn lemma_exp_psum_zero(k: nat)
    ensures
        exp_psum(0, k) == SCALE as int,
        k >= 1 ==> exp_term(0, k) == 0,
    decreases k,
{
    if k >= 1 {
        lemma_exp_psum_zero((k - 1) as nat);
        assert(exp_term(0, (k - 1) as nat) * 0 == 0) by (nonlinear_arith);
        assert(exp_term(0, k) == 0int / (SCALE as int * k as int));
    }
}

/// The computed negative exponential lies in `[0, ONE]` for nonnegative
/// arguments, and equals `ONE` exactly at zero.
pub proof fn lemma_spec_exp_neg_bounds(t: int)
    requires
        0 <= t,
    ensures
        0 <= spec_exp_neg(t) <= SCALE,
        t == 0 ==> spec_exp_neg(t) == SCALE,
{
    let k = t / (LN2 as int);
    vstd::arithmetic::div_mod::lemma_div_pos_is_pos(t, LN2 as int);
    if k < 63 {
        let r = t - k * (LN2 as int);
        vstd::arithmetic::div_mod::lemma_fundamental_div_mod(t, LN2 as int);
        assert(r == t % (LN2 as int));
        vstd::arithmetic::div_mod::lemma_mod_bound(t, LN2 as int);
        assert(0 <= r < LN2);
        lemma_exp_psum_bounds(r, 12);
        let ps = exp_psum(r, 12);
        let inv = (SCALE as int * SCALE as int) / ps;
        assert(0 <= inv <= SCALE) by (nonlinear_arith)
            requires
                SCALE as int <= ps,
                inv == (SCALE as int * SCALE as int) / ps,
        ;
        let p2 = vstd::arithmetic::power2::pow2(k as nat) as int;
        vstd::arithmetic::power2::lemma_pow2_pos(k as nat);
        assert(0 <= inv / p2 <= inv) by (nonlinear_arith)
            requires
                0 <= inv,
                1 <= p2,
        ;
        if t == 0 {
            assert(k == 0) by (nonlinear_arith)
                requires
                    k == 0int / (LN2 as int),
            ;
            lemma_exp_psum_zero(12);
            assert(ps == SCALE as int);
            assert(inv == SCALE as int) by (nonlinear_arith)
                requires
                    inv == (SCALE as int * SCALE as int) / (SCALE as int),
            ;
            assert(p2 == 1) by {
                vstd::arithmetic::power2::lemma2_to64();
            }
            assert(inv / p2 == SCALE as int) by (nonlinear_arith)
                requires
                    inv == SCALE as int,
                    p2 == 1,
            ;
            assert(spec_exp_neg(t) == inv / p2);
        }
    }
}

/// `e^(-t / SCALE)` in fixed point, exactly `spec_exp_neg`.
pub fn exp_neg(t: u64) -> (r: i64)
    ensures
        r as int == spec_exp_neg(t as int),
        0 <= r <= SCALE,
        t == 0 ==> r == SCALE,
{
    proof {
        lemma_spec_exp_neg_bounds(t as int);
    }
    let k: u64 = t / (LN2 as u64);
    if k >= 63 {
        return 0;
    }
    let r0: u64 = t - k * (LN2 as u64);
    proof {
        vstd::arithmetic::div_mod::lemma_fundamental_div_mod(t as int, LN2 as int);
        vstd::arithmetic::div_mod::lemma_mod_bound(t as int, LN2 as int);
        assert(r0 == t as int % (LN2 as int));
        assert(0 <= r0 < LN2);
    }
    let mut term: u64 = SCALE as u64;
    let mut sum: u64 = SCALE as u64;
    let mut n: u64 = 1;
    while n <= 12
        invariant
            1 <= n <= 13,
            0 <= r0 < LN2 as u64,
            term as int == exp_term(r0 as int, (n - 1) as nat),
            sum as int == exp_psum(r0 as int, (n - 1) as nat),
            term <= SCALE as u64,
            SCALE as u64 <= sum,
            sum <= n as int * SCALE as int,
        decreases 13 - n,
    {
        proof {
            assert(term as int * r0 as int <= SCALE as int * SCALE as int) by (nonlinear_arith)
                requires
                    0 <= term as int <= SCALE as int,
                    0 <= r0 as int <= SCALE as int,
            ;
            assert(SCALE as int * n as int <= SCALE as int * 12) by (nonlinear_arith)
                requires
                    n as int <= 12,
            ;
        }
        let num: u64 = term * r0;
        let den: u64 = (SCALE as u64) * n;
        let new_term: u64 = num / den;
        proof {
            assert(new_term as int == exp_term(r0 as int, n as nat));
            lemma_exp_term_bounds(r0 as int, n as nat);
            assert((n + 1) as int * SCALE as int == n as int * SCALE as int + SCALE as int)
                by (nonlinear_arith);
        }
        term = new_term;
        sum = sum + term;
        n += 1;
    }
    let inv: u64 = ((SCALE as u64) * (SCALE as u64)) / sum;
    proof {
        assert(inv as int <= SCALE as int) by (nonlinear_arith)
            requires
                SCALE as u64 <= sum,
                inv as int == (SCALE as int * SCALE as int) / (sum as int),
        ;
    }
    let mut p: u64 = 1;
    let mut i: u64 = 0;
    proof {
        vstd::arithmetic::power2::lemma2_to64();
    }
    while i < k
        invariant
            i <= k,
            k <= 62,
            p as int == vstd::arithmetic::power2::pow2(i as nat) as int,
        decreases k - i,
    {
        proof {
            vstd::arithmetic::power2::lemma2_to64();
            vstd::arithmetic::power2::lemma2_to64_rest();
            if i < 62 {
                vstd::arithmetic::power2::lemma_pow2_strictly_increases(i as nat, 62);
            }
            assert(vstd::arithmetic::power2::pow2((i + 1) as nat)
                == 2 * vstd::arithmetic::power2::pow2(i as nat)) by {
                vstd::arithmetic::power2::lemma_pow2_unfold((i + 1) as nat);
            }
        }
        p = p * 2;
        i += 1;
    }
    proof {
        vstd::arithmetic::power2::lemma_pow2_pos(k as nat);
        assert(p >= 1);
    }
    let r: u64 = inv / p;
    proof {
        assert(r as int <= inv as int) by (nonlinear_arith)
            requires
                1 <= p as int,
                r as int == inv as int / p as int,
        ;
    }
    r as i64
}

/// Truncating division of a double-width intermediate value by a positive
/// divisor, matching `fixdiv`.
pub fn quot_toward_zero(x: i128, d: i128) -> (r: i128)
    requires
        0 < d,
        -0x7fffffffffffffffffffffffffffffff <= x,
    ensures
        r == fixdiv(x as int, d as int),
        x >= 0 ==> 0 <= r <= x,
        x < 0 ==> x <= r <= 0,
{
    if x >= 0 {
        let q: u128 = (x as u128) / (d as u128);
        proof {
            assert(q <= x as u128) by (nonlinear_arith)
                requires
                    q == (x as u128) / (d as u128),
                    d as u128 >= 1,
            ;
        }
        q as i128
    } else {
        let n: i128 = -x;
        let q: u128 = (n as u128) / (d as u128);
        proof {
            assert(q <= n as u128) by (nonlinear_arith)
                requires
                    q == (n as u128) / (d as u128),
                    d as u128 >= 1,
            ;
        }
        -(q as i128)
    }
}

} // verus!
