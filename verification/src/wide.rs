//! Quotients of products that do not fit in a machine word.

use vstd::prelude::*;
use vstd::arithmetic::div_mod::{lemma_fundamental_div_mod, lemma_fundamental_div_mod_converse};

verus! {

/// Largest divisor that the routines of this module take.
pub const DIVISOR_LIMIT: u128 = 0x1000_0000_0000_0000_0000_0000_0000_0000;

/// Quotient and remainder of `m * r` by `a`, for `r < a` and `m <= a`, found
/// by doubling along the binary digits of `m`, so that no intermediate value
/// exceeds three times the divisor.
fn mul_div_rem(r: u128, m: u128, a: u128) -> (res: (u128, u128))
    requires
        r < a,
        m <= a,
        a <= DIVISOR_LIMIT,
    ensures
        m * r == res.0 * a + res.1,
        res.1 < a,
        res.0 <= m,
    decreases m,
{
    if m == 0 {
        assert(m * r == 0 * a + 0) by (nonlinear_arith)
            requires
                m == 0,
        ;
        return (0, 0);
    }
    let half: u128 = m / 2;
    let bit: u128 = m % 2;
    let (q1, r1) = mul_div_rem(r, half, a);
    let t: u128 = if bit == 1 {
        2 * r1 + r
    } else {
        2 * r1
    };
    let step: u128 = t / a;
    let rem: u128 = t % a;
    let quot: u128 = 2 * q1 + step;
    proof {
        lemma_fundamental_div_mod(t as int, a as int);
        assert(m * r == quot * a + rem) by (nonlinear_arith)
            requires
                m == 2 * half + bit,
                half * r == q1 * a + r1,
                t == 2 * r1 + bit * r,
                t == a * step + rem,
                quot == 2 * q1 + step,
        ;
        assert(quot <= m) by (nonlinear_arith)
            requires
                m * r == quot * a + rem,
                r < a,
                0 < m,
        ;
    }
    (quot, rem)
}

/// The square of `d` divided by `a`, rounded down.
pub fn square_div(d: u128, a: u128) -> (q: u128)
    requires
        0 < a <= DIVISOR_LIMIT,
        (d * d) / (a as int) <= DIVISOR_LIMIT,
    ensures
        q == (d * d) / (a as int),
{
    let q0: u128 = d / a;
    let r0: u128 = d % a;
    let (q1, r1) = mul_div_rem(r0, r0, a);
    proof {
        lemma_fundamental_div_mod(d as int, a as int);
        let whole = q0 * (d + r0) + q1;
        assert(d * d == a * whole + r1) by (nonlinear_arith)
            requires
                d == a * q0 + r0,
                r0 * r0 == q1 * a + r1,
                whole == q0 * (d + r0) + q1,
        ;
        lemma_fundamental_div_mod_converse(d * d, a as int, whole, r1 as int);
        assert(q0 * (d + r0) <= whole) by (nonlinear_arith)
            requires
                whole == q0 * (d + r0) + q1,
        ;
        assert(q0 == 0 || d + r0 <= whole) by (nonlinear_arith)
            requires
                q0 * (d + r0) <= whole,
        ;
        assert(q0 == 0 ==> whole == q1) by (nonlinear_arith)
            requires
                whole == q0 * (d + r0) + q1,
        ;
    }
    if q0 == 0 {
        q1
    } else {
        q0 * (d + r0) + q1
    }
}

} // verus!
