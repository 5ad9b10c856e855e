//! Fixed-point arithmetic for the confidence-bound score. All values carry 16
//! fractional bits; the score of a child with win credits `w`, simulations
//! `n` and subtree total `N` is `sqrt(2) * ln(N) / sqrt(n) + w / n`, evaluated
//! in this fixed-point arithmetic.

use vstd::prelude::*;
use vstd::arithmetic::power2::pow2;
use vstd::arithmetic::power2::lemma_pow2_unfold;
use vstd::arithmetic::power2::lemma_pow2_strictly_increases;
use vstd::arithmetic::power2::lemma2_to64;
use vstd::arithmetic::power2::lemma2_to64_rest;

verus! {

/// The fixed-point scale: 16 fractional bits.
pub const FP_ONE: u64 = 65536;

/// `sqrt(2)` in fixed point, rounded down.
pub const SQRT2_FP: u64 = 92681;

/// `ln(2)` in fixed point, rounded down.
pub const LN2_FP: u64 = 45426;

/// The greatest `r` with `r * r <= x` (0 for non-positive `x`).
pub open spec fn spec_isqrt(x: int) -> int
    decreases x,
{
    if x <= 0 {
        0
    } else {
        let r = spec_isqrt(x - 1);
        if (r + 1) * (r + 1) <= x {
            r + 1
        } else {
            r
        }
    }
}

/// The defining property of the integer square root.
pub proof fn lemma_isqrt_bounds(x: int)
    requires
        x >= 0,
    ensures
        spec_isqrt(x) >= 0,
        spec_isqrt(x) * spec_isqrt(x) <= x,
        x < (spec_isqrt(x) + 1) * (spec_isqrt(x) + 1),
    decreases x,
{
    if x > 0 {
        lemma_isqrt_bounds(x - 1);
        let r = spec_isqrt(x - 1);
        if (r + 1) * (r + 1) <= x {
            assert(x == (r + 1) * (r + 1));
            assert((r + 2) * (r + 2) > (r + 1) * (r + 1)) by (nonlinear_arith)
                requires
                    r >= 0,
            ;
        }
    }
}

/// Any `r` with `r * r <= x < (r + 1) * (r + 1)` is the integer square root.
pub proof fn lemma_isqrt_unique(x: int, r: int)
    requires
        x >= 0,
        r >= 0,
        r * r <= x,
        x < (r + 1) * (r + 1),
    ensures
        r == spec_isqrt(x),
{
    lemma_isqrt_bounds(x);
    let s = spec_isqrt(x);
    if r < s {
        assert((r + 1) * (r + 1) <= s * s) by (nonlinear_arith)
            requires
                0 <= r + 1 <= s,
        ;
    }
    if s < r {
        assert((s + 1) * (s + 1) <= r * r) by (nonlinear_arith)
            requires
                0 <= s + 1 <= r,
        ;
    }
}

/// Integer square root by bisection.
pub fn isqrt(x: u64) -> (r: u64)
    ensures
        r as int == spec_isqrt(x as int),
        (r as int) * (r as int) <= x as int,
        (x as int) < (r as int + 1) * (r as int + 1),
{
    let mut lo: u64 = 0;
    let mut hi: u64 = 0x1_0000_0000;
    while lo + 1 < hi
        invariant
            lo < hi <= 0x1_0000_0000,
            (lo as int) * (lo as int) <= x as int,
            (x as int) < (hi as int) * (hi as int),
        decreases hi - lo,
    {
        let mid = lo + (hi - lo) / 2;
        proof {
            assert((mid as int) * (mid as int) <= 0xFFFF_FFFF * 0xFFFF_FFFF) by (nonlinear_arith)
                requires
                    0 <= mid <= 0xFFFF_FFFF,
            ;
        }
        if mid * mid <= x {
            lo = mid;
        } else {
            hi = mid;
        }
    }
    proof {
        lemma_isqrt_unique(x as int, lo as int);
    }
    lo
}

/// Normalizes `y` into `[2^16, 2^17)` by halving or doubling, adjusting the
/// binary exponent `k` accordingly.
pub open spec fn spec_norm_from(y: int, k: int) -> (int, int)
    decreases (if y >= 131072 {
        y
    } else {
        131072 - y
    }),
{
    if y >= 131072 {
        spec_norm_from(y / 2, k + 1)
    } else if 1 <= y < 65536 {
        spec_norm_from(2 * y, k - 1)
    } else {
        (y, k)
    }
}

/// One step of the fractional-bit recurrence: square the normalized value,
/// rescale, and emit one bit of the base-2 logarithm's fraction.
pub open spec fn spec_frac_iter(y: int, i: nat) -> (int, int)
    decreases i,
{
    if i == 0 {
        (y, 0)
    } else {
        let p = spec_frac_iter(y, (i - 1) as nat);
        let sq = (p.0 * p.0) / 65536;
        if sq >= 131072 {
            (sq / 2, 2 * p.1 + 1)
        } else {
            (sq, 2 * p.1)
        }
    }
}

/// Sixteen fractional bits of the base-2 logarithm of a normalized value.
pub open spec fn spec_frac16(y: int) -> int {
    spec_frac_iter(y, 16).1
}

/// The natural logarithm in fixed point: the base-2 logarithm (integer part
/// from normalization, fraction by repeated squaring) scaled by `ln(2)`.
pub open spec fn spec_ln_fp(n: int) -> int {
    let p = spec_norm_from(n, 16);
    ((p.1 * 65536 + spec_frac16(p.0)) * 45426) / 65536
}

/// The natural logarithm in fixed point, by normalization and sixteen
/// fractional bits of repeated squaring.
pub fn ln_fp(n: u64) -> (r: u64)
    requires
        1 <= n,
    ensures
        r as int == spec_ln_fp(n as int),
        r < 0x40_0000,
{
    let mut y: u64 = n;
    let mut k: u64 = 16;
    proof {
        lemma2_to64();
        assert((n as int) * pow2(0) == n as int) by (nonlinear_arith)
            requires
                pow2(0) == 1,
        ;
    }
    while y >= 131072
        invariant
            spec_norm_from(n as int, 16) == spec_norm_from(y as int, k as int),
            y >= 65536 || k == 16,
            16 <= k <= 80,
            y >= 1,
            (y as int) * pow2((k - 16) as nat) <= n as int,
        decreases y,
    {
        proof {
            let e = (k - 16) as nat;
            lemma2_to64();
            lemma2_to64_rest();
            lemma_pow2_unfold((e + 1) as nat);
            assert(((y / 2) as int) * pow2((e + 1) as nat) <= (y as int) * pow2(e))
                by (nonlinear_arith)
                requires
                    y >= 2,
                    pow2((e + 1) as nat) == 2 * pow2(e),
                    pow2(e) >= 0,
            ;
            assert(pow2(e) <= (y as int) * pow2(e)) by (nonlinear_arith)
                requires
                    y >= 1,
                    pow2(e) >= 0,
            ;
            if e > 64 {
                lemma_pow2_strictly_increases(64, e);
            }
            assert(e <= 63);
        }
        y = y / 2;
        k = k + 1;
    }
    proof {
        lemma2_to64();
    }
    while y < 65536
        invariant
            spec_norm_from(n as int, 16) == spec_norm_from(y as int, k as int),
            y >= 1,
            y < 131072,
            k <= 80,
            y < 65536 ==> (k <= 16 && pow2((16 - k) as nat) <= y as int),
        decreases 131072 - y,
    {
        proof {
            let e = (16 - k) as nat;
            assert(pow2(e) <= y as int);
            lemma2_to64();
            if e >= 16 {
                lemma_pow2_strictly_increases(15, e);
                assert(pow2(e) >= pow2(16));
            }
            assert(e < 16);
            assert(k >= 1);
            lemma_pow2_unfold((e + 1) as nat);
        }
        y = y * 2;
        k = k - 1;
    }
    let ghost y0 = y as int;
    let mut frac: u64 = 0;
    let mut i: u64 = 0;
    proof {
        lemma2_to64();
    }
    while i < 16
        invariant
            i <= 16,
            65536 <= y < 131072,
            (y as int, frac as int) == spec_frac_iter(y0, i as nat),
            (frac as int) < pow2(i as nat),
        decreases 16 - i,
    {
        proof {
            assert((y as int) * (y as int) < 131072 * 131072 && (y as int) * (y as int) >= 65536
                * 65536) by (nonlinear_arith)
                requires
                    65536 <= y < 131072,
            ;
            lemma2_to64();
            lemma_pow2_unfold((i + 1) as nat);
            if i < 16 {
                lemma_pow2_strictly_increases(i as nat, 16);
            }
            assert((frac as int) < 65536);
        }
        let sq = (y * y) / 65536;
        if sq >= 131072 {
            y = sq / 2;
            frac = 2 * frac + 1;
        } else {
            y = sq;
            frac = 2 * frac;
        }
        i = i + 1;
        proof {
            assert((y as int, frac as int) == spec_frac_iter(y0, i as nat));
        }
    }
    proof {
        lemma2_to64();
        if (i as nat) < 16 {
            lemma_pow2_strictly_increases(i as nat, 16);
        }
        assert(frac < 65536);
        assert(spec_norm_from(y0, k as int) == (y0, k as int));
    }
    let kf = k * 65536 + frac;
    (kf * 45426) / 65536
}

/// The confidence-bound score in fixed point:
/// `sqrt(2) * ln(N) / sqrt(n) + w / n` for win credits `w`, simulations `n`
/// and subtree total `N`.
pub open spec fn spec_score(w: int, n: int, total: int) -> int {
    (92681 * spec_ln_fp(total)) / spec_isqrt(n * 65536 * 65536) + (w * 65536) / n
}

/// Evaluates the confidence bound for one child.
pub fn confidence_bound(nwins: u64, nsims: u64, total_sims: u64) -> (r: u64)
    requires
        1 <= nsims <= 0x8000_0000,
        nwins <= nsims,
        1 <= total_sims,
    ensures
        r as int == spec_score(nwins as int, nsims as int, total_sims as int),
{
    let ln_total = ln_fp(total_sims);
    let sq = isqrt(nsims * 65536 * 65536);
    proof {
        if sq < 65536 {
            assert((sq as int + 1) * (sq as int + 1) <= 65536 * 65536) by (nonlinear_arith)
                requires
                    0 <= sq as int + 1 <= 65536,
            ;
        }
    }
    let term1 = (SQRT2_FP * ln_total) / sq;
    let term2 = (nwins * 65536) / nsims;
    term1 + term2
}

} // verus!
