//! Rounding of a whole number to 53 significant bits, ties to even.
//!
//! The samplers that scale an output by a count are specified as double
//! precision arithmetic performs the multiplication: an output stands for the
//! fraction of it over 2^32, and a product of more than 53 bits is rounded to
//! the nearest number of 53 bits, to the even one where two are equally near.
//! Scaled by 2^32, that rounding is a function on whole numbers, which is
//! what this module computes.

use vstd::prelude::*;

verus! {

/// The least number with more than 53 significant bits: 2^53.
pub const EXACT_LIMIT: u64 = 0x20_0000_0000_0000;

/// The distance between neighbouring numbers of 53 significant bits around
/// `p`: 1 below 2^53, and doubling with each further bit of `p`.
pub open spec fn spacing(p: nat) -> nat
    decreases p,
{
    if p < EXACT_LIMIT {
        1
    } else {
        2 * spacing(p / 2)
    }
}

/// `p` rounded to the nearest multiple of `spacing(p)`; of two equally near,
/// to the even multiple.
pub open spec fn round_to_double(p: nat) -> nat {
    let u = spacing(p);
    let q = p / u;
    let r = p % u;
    if 2 * r > u || (2 * r == u && q % 2 == 1) {
        (q + 1) * u
    } else {
        q * u
    }
}

/// The spacing is positive, and from 2^53 on it is at most `p / 2^52`.
pub proof fn lemma_spacing_bounds(p: nat)
    ensures
        spacing(p) >= 1,
        p >= EXACT_LIMIT ==> spacing(p) * 0x10_0000_0000_0000 <= p,
        p < 0x1_0000_0000_0000_0000 ==> spacing(p) < 4096,
    decreases p,
{
    if p >= EXACT_LIMIT {
        lemma_spacing_bounds(p / 2);
    }
}

/// Rounding moves a number by at most half the spacing.
pub proof fn lemma_rounding_is_near(p: nat)
    ensures
        2 * round_to_double(p) <= 2 * p + spacing(p),
        2 * p <= 2 * round_to_double(p) + spacing(p),
{
    lemma_spacing_bounds(p);
    let u = spacing(p);
    let q = p / u;
    let r = p % u;
    assert(p == q * u + r && 0 <= r < u) by (nonlinear_arith)
        requires
            u >= 1,
            q == p / u,
            r == p % u,
    ;
    assert((q + 1) * u == q * u + u) by (nonlinear_arith);
}

/// A number below 2^53 rounds to itself.
pub proof fn lemma_small_is_exact(p: nat)
    requires
        p < EXACT_LIMIT,
    ensures
        round_to_double(p) == p,
{
    assert(spacing(p) == 1);
    assert(p / 1 == p && p % 1 == 0);
}

/// The product of a count and an output, rounded, stays below the count
/// times 2^32: a fraction below one never rounds up to the whole.
pub proof fn lemma_rounded_product_below(avail: u32, raw: u32)
    requires
        avail >= 1,
    ensures
        round_to_double(avail as nat * raw as nat) < avail as nat * 0x1_0000_0000,
{
    let p = avail as nat * raw as nat;
    let u = spacing(p);
    lemma_spacing_bounds(p);
    lemma_rounding_is_near(p);
    assert(p <= avail * 0x1_0000_0000 - avail) by (nonlinear_arith)
        requires
            p == avail as nat * raw as nat,
            raw <= 0xFFFF_FFFF,
    ;
    if p >= EXACT_LIMIT {
        assert(u * 0x10_0000_0000_0000 <= avail * 0x1_0000_0000);
        assert(u < 2 * avail);
    }
}

/// The spacing around `p`.
fn spacing_of(p: u64) -> (u: u64)
    ensures
        u == spacing(p as nat),
        1 <= u < 4096,
{
    let mut u: u64 = 1;
    let mut q: u64 = p;
    while q >= EXACT_LIMIT
        invariant
            1 <= u,
            u * q <= p,
            spacing(p as nat) == u * spacing(q as nat),
        decreases q,
    {
        assert(u * 2 * (q / 2) <= u * q) by (nonlinear_arith)
            requires
                u >= 1,
        ;
        assert(u * q >= u * 0x20_0000_0000_0000) by (nonlinear_arith)
            requires
                u >= 1,
                q >= 0x20_0000_0000_0000,
        ;
        assert(u * (2 * spacing((q / 2) as nat)) == u * 2 * spacing((q / 2) as nat))
            by (nonlinear_arith);
        q = q / 2;
        u = u * 2;
    }
    proof {
        lemma_spacing_bounds(p as nat);
        assert(u * 1 == u) by (nonlinear_arith);
    }
    u
}

/// Rounds `p` to 53 significant bits, ties to even.
pub fn round_product(p: u64) -> (r: u64)
    requires
        p <= u64::MAX - 4096,
    ensures
        r == round_to_double(p as nat),
{
    let u: u64 = spacing_of(p);
    let q: u64 = p / u;
    let rest: u64 = p % u;
    assert(q * u <= p && (q + 1) * u == q * u + u) by (nonlinear_arith)
        requires
            u >= 1,
            q == p / u,
    ;
    if 2 * rest > u || (2 * rest == u && q % 2 == 1) {
        (q + 1) * u
    } else {
        q * u
    }
}

} // verus!
