//! Exact arithmetic on non-negative rational numbers given as a numerator and
//! a positive denominator. Comparisons cross-multiply; because a numerator can
//! use the full 128 bits, products are carried in a two-limb form.

use vstd::arithmetic::div_mod::{
    lemma_fundamental_div_mod, lemma_fundamental_div_mod_converse_div,
};
use vstd::prelude::*;

verus! {

/// 2^64, the base in which double-width products are carried.
pub const LIMB: u128 = 0x1_0000_0000_0000_0000;

/// The exact product of two 64-bit values, which always fits in 128 bits.
pub fn mul64(a: u64, b: u64) -> (r: u128)
    ensures
        r == (a as int) * (b as int),
{
    proof {
        assert((a as int) * (b as int) <= (LIMB - 1) * (LIMB - 1)) by (nonlinear_arith)
            requires
                0 <= a as int <= LIMB - 1,
                0 <= b as int <= LIMB - 1,
        ;
        assert((LIMB - 1) * (LIMB - 1) <= u128::MAX) by (nonlinear_arith)
            requires
                LIMB == 0x1_0000_0000_0000_0000,
        ;
    }
    (a as u128) * (b as u128)
}

/// The full product `n * d`, split as `hi * 2^64 + lo` with `lo < 2^64`.
pub fn wide_mul(n: u128, d: u64) -> (r: (u128, u64))
    ensures
        (r.0 as int) * (LIMB as int) + r.1 == (n as int) * (d as int),
{
    let nh: u128 = n / LIMB;
    let nl: u128 = n % LIMB;
    proof {
        lemma_fundamental_div_mod(n as int, LIMB as int);
        assert(nl * (d as u128) <= (LIMB - 1) * (LIMB - 1)) by (nonlinear_arith)
            requires
                0 <= nl <= LIMB - 1,
                0 <= (d as u128) <= LIMB - 1,
        ;
    }
    let x: u128 = nl * (d as u128);
    let xh: u128 = x / LIMB;
    let xl: u128 = x % LIMB;
    proof {
        lemma_fundamental_div_mod(x as int, LIMB as int);
        assert(nh <= LIMB - 1) by (nonlinear_arith)
            requires
                n < LIMB * LIMB,
                nh == n as int / LIMB as int,
                LIMB == 0x1_0000_0000_0000_0000,
        ;
        assert(nh * (d as u128) <= (LIMB - 1) * (LIMB - 1)) by (nonlinear_arith)
            requires
                0 <= nh <= LIMB - 1,
                0 <= (d as u128) <= LIMB - 1,
        ;
    }
    let hi: u128 = nh * (d as u128) + xh;
    proof {
        assert((nh * (d as u128) + xh) * (LIMB as int) + xl == (n as int) * (d as int))
            by (nonlinear_arith)
            requires
                n == nh * LIMB + nl,
                nl * (d as u128) == xh * LIMB + xl,
        ;
    }
    (hi, xl as u64)
}

/// Whether `an / ad <= bn / bd`, decided exactly by cross-multiplication.
pub fn ratio_le(an: u128, ad: u64, bn: u128, bd: u64) -> (r: bool)
    requires
        ad >= 1,
        bd >= 1,
    ensures
        r == ((an as int) * (bd as int) <= (bn as int) * (ad as int)),
{
    let (h1, l1) = wide_mul(an, bd);
    let (h2, l2) = wide_mul(bn, ad);
    h1 < h2 || (h1 == h2 && l1 <= l2)
}

/// Rounds `n / d` to the nearest integer, halves rounded up.
pub fn div_round(n: u128, d: u64) -> (r: u128)
    requires
        d >= 1,
    ensures
        r == (2 * (n as int) + d) / (2 * (d as int)),
{
    let q: u128 = n / (d as u128);
    let rem: u128 = n % (d as u128);
    proof {
        lemma_fundamental_div_mod(n as int, d as int);
    }
    if 2 * rem >= d as u128 {
        proof {
            assert(q * (d as int) <= n - 1) by (nonlinear_arith)
                requires
                    n == q * (d as int) + rem,
                    rem >= 1,
            ;
            assert(q <= q * (d as int)) by (nonlinear_arith)
                requires
                    d as int >= 1,
                    q >= 0,
            ;
            assert((q + 1) == (2 * (n as int) + d) / (2 * (d as int))) by {
                assert(2 * (n as int) + d == (q + 1) * (2 * (d as int)) + (2 * rem - d))
                    by (nonlinear_arith)
                    requires
                        n == q * (d as int) + rem,
                ;
                lemma_fundamental_div_mod_converse_div(
                    2 * (n as int) + d,
                    2 * (d as int),
                    q as int + 1,
                    2 * (rem as int) - d,
                );
            }
        }
        q + 1
    } else {
        proof {
            assert(q == (2 * (n as int) + d) / (2 * (d as int))) by {
                assert(2 * (n as int) + d == (q as int) * (2 * (d as int)) + (2 * rem + d))
                    by (nonlinear_arith)
                    requires
                        n == q * (d as int) + rem,
                ;
                lemma_fundamental_div_mod_converse_div(
                    2 * (n as int) + d,
                    2 * (d as int),
                    q as int,
                    2 * (rem as int) + d,
                );
            }
        }
        q
    }
}

} // verus!
