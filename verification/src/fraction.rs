//! Fractions over 2^32 as double precision numbers.
//!
//! An output `raw` stands for the fraction `raw / 2^32`, a number in
//! `[0, 1)` that double precision holds exactly. Such a number is handled
//! here by its bit pattern: one sign bit, eleven bits of exponent field, and
//! 52 bits of significand field. For numbers that are not negative the
//! patterns are ordered as the numbers are, which is how a fraction is
//! compared with a number given by its pattern.

use vstd::arithmetic::power2::{
    lemma2_to64, lemma2_to64_rest, lemma_pow2_adds, lemma_pow2_pos, lemma_pow2_strictly_increases,
    lemma_pow2_unfold, pow2,
};
use vstd::prelude::*;

verus! {

/// The bit pattern of the double precision number one.
pub const ONE_BITS: u64 = 0x3FF0_0000_0000_0000;

/// The bit pattern of positive infinity; every pattern above it has the sign
/// bit set or is not a number.
pub const INFINITY_BITS: u64 = 0x7FF0_0000_0000_0000;

/// The least significand of a normal number: 2^52.
pub const HIDDEN_BIT: u64 = 0x10_0000_0000_0000;

/// The number that `bits` denotes, in units of 2^-1074, where `bits` is the
/// pattern of a finite number that is not negative: with the exponent field
/// zero it is the significand field, and otherwise 2^52 more than that,
/// doubled once for each unit of the exponent field above one.
pub open spec fn scaled_value(bits: u64) -> int {
    let field = bits / HIDDEN_BIT;
    let significand = (bits % HIDDEN_BIT) as int;
    if field == 0 {
        significand
    } else {
        (HIDDEN_BIT + significand) * pow2((field - 1) as nat)
    }
}

/// The fraction `raw / 2^32` in units of 2^-1074.
pub open spec fn scaled_fraction(raw: u32) -> int {
    raw * pow2(1042)
}

/// Whether the fraction `raw / 2^32` is below the number whose bit pattern is
/// `bits`. Every fraction is below infinity; none is below a negative number,
/// nor below what is not a number.
pub open spec fn below_cutoff(raw: u32, bits: u64) -> bool {
    bits == INFINITY_BITS || (bits < INFINITY_BITS && scaled_fraction(raw) < scaled_value(bits))
}

/// The bit pattern of a positive number given as a significand `m` that is
/// doubled until it reaches 2^52, and the exponent field `field` that it has
/// once it is there, one less for each doubling on the way.
pub open spec fn normalized_bits(m: nat, field: int) -> int
    decreases (if m < HIDDEN_BIT { HIDDEN_BIT - m } else { 0 }),
{
    if m == 0 || m >= HIDDEN_BIT {
        (field - 1) * HIDDEN_BIT + m
    } else {
        normalized_bits(2 * m, field - 1)
    }
}

/// The bit pattern of the double precision number `raw / 2^32`.
pub open spec fn fraction_bits(raw: u32) -> int {
    if raw == 0 {
        0
    } else {
        normalized_bits(raw as nat, 1043)
    }
}

/// The powers of two are ordered as their exponents are.
proof fn lemma_pow2_order(a: nat, b: nat)
    requires
        pow2(a) < pow2(b),
    ensures
        a < b,
{
    if a > b {
        lemma_pow2_strictly_increases(b, a);
    }
}

/// Normalising doubles `m` some `d` times, until it lies between 2^52 and
/// 2^53, and takes `d` from the exponent field.
proof fn lemma_normalized_bits(m: nat, field: int) -> (d: nat)
    requires
        1 <= m < 2 * HIDDEN_BIT,
    ensures
        HIDDEN_BIT <= m * pow2(d) < 2 * HIDDEN_BIT,
        normalized_bits(m, field) == (field - d - 1) * HIDDEN_BIT + m * pow2(d),
        m < HIDDEN_BIT ==> d >= 1,
    decreases (if m < HIDDEN_BIT { HIDDEN_BIT - m } else { 0 }),
{
    lemma2_to64();
    if m >= HIDDEN_BIT {
        assert(m * pow2(0) == m) by (nonlinear_arith)
            requires
                pow2(0) == 1,
        ;
        0
    } else {
        let d = lemma_normalized_bits(2 * m, field - 1);
        lemma_pow2_unfold(d + 1);
        assert(m * pow2(d + 1) == (2 * m) * pow2(d)) by (nonlinear_arith)
            requires
                pow2(d + 1) == 2 * pow2(d),
        ;
        d + 1
    }
}

/// The pattern of a positive fraction: the fraction's numerator doubled
/// `d` times to lie between 2^52 and 2^53, under the exponent field
/// `1043 - d`. The numerator has at most 32 bits, so `d` is 21 at least.
proof fn lemma_fraction_bits(raw: u32) -> (d: nat)
    requires
        raw >= 1,
    ensures
        21 <= d <= 52,
        HIDDEN_BIT <= raw * pow2(d) < 2 * HIDDEN_BIT,
        fraction_bits(raw) == (1042 - d) * HIDDEN_BIT + raw * pow2(d),
{
    let d = lemma_normalized_bits(raw as nat, 1043);
    lemma2_to64();
    lemma2_to64_rest();
    assert(pow2(20) < pow2(d)) by (nonlinear_arith)
        requires
            pow2(20) == 0x10_0000,
            0x10_0000 * 0x1_0000_0000 <= raw * pow2(d),
            raw < 0x1_0000_0000,
    ;
    lemma_pow2_order(20, d);
    assert(pow2(d) < pow2(53)) by (nonlinear_arith)
        requires
            pow2(53) == 0x20_0000_0000_0000,
            raw * pow2(d) < 0x20_0000_0000_0000,
            raw >= 1,
    ;
    lemma_pow2_order(d, 53);
    d
}

/// Numbers between 2^52 and 2^53, each doubled some number of times, are
/// ordered by the number of doublings first.
proof fn lemma_scaled_order(a: int, x: nat, b: int, y: nat)
    requires
        HIDDEN_BIT <= a < 2 * HIDDEN_BIT,
        HIDDEN_BIT <= b < 2 * HIDDEN_BIT,
    ensures
        a * pow2(x) < b * pow2(y) <==> x < y || (x == y && a < b),
{
    lemma_pow2_pos(x);
    lemma_pow2_pos(y);
    lemma2_to64();
    if x == y {
        assert(a * pow2(x) < b * pow2(x) <==> a < b) by (nonlinear_arith)
            requires
                pow2(x) > 0,
        ;
    } else if x < y {
        lemma_pow2_adds(x, (y - x) as nat);
        lemma_pow2_strictly_increases(0, (y - x) as nat);
        let more = pow2((y - x) as nat);
        assert(a * pow2(x) < b * (pow2(x) * more)) by (nonlinear_arith)
            requires
                pow2(x) > 0,
                more >= 2,
                a < 2 * b,
                b > 0,
        ;
    } else {
        lemma_pow2_adds(y, (x - y) as nat);
        lemma_pow2_strictly_increases(0, (x - y) as nat);
        let more = pow2((x - y) as nat);
        assert(b * pow2(y) < a * (pow2(y) * more)) by (nonlinear_arith)
            requires
                pow2(y) > 0,
                more >= 2,
                b < 2 * a,
                a > 0,
        ;
    }
}

/// Bit patterns are ordered as the numbers are that they denote: the pattern
/// of a fraction is below another pattern exactly when the fraction is below
/// the other number.
pub proof fn lemma_patterns_are_ordered(raw: u32, bits: u64)
    requires
        bits <= INFINITY_BITS,
    ensures
        fraction_bits(raw) < bits <==> below_cutoff(raw, bits),
{
    lemma2_to64();
    lemma2_to64_rest();
    let field = (bits / HIDDEN_BIT) as nat;
    let significand = (bits % HIDDEN_BIT) as nat;
    assert(bits == field * HIDDEN_BIT + significand);
    if raw == 0 {
        assert(scaled_fraction(raw) == 0) by (nonlinear_arith)
            requires
                scaled_fraction(raw) == raw * pow2(1042),
                raw == 0,
        ;
        if field > 0 {
            lemma_pow2_pos((field - 1) as nat);
            assert((HIDDEN_BIT + significand) * pow2((field - 1) as nat) > 0) by (nonlinear_arith)
                requires
                    pow2((field - 1) as nat) > 0,
                    HIDDEN_BIT > 0,
            ;
        }
    } else {
        let d = lemma_fraction_bits(raw);
        let own_field = (1043 - d) as nat;
        let own = raw * pow2(d);
        lemma_pow2_adds(d, (own_field - 1) as nat);
        assert(scaled_fraction(raw) == own * pow2((own_field - 1) as nat)) by (nonlinear_arith)
            requires
                scaled_fraction(raw) == raw * pow2(1042),
                pow2(1042) == pow2(d) * pow2((own_field - 1) as nat),
                own == raw * pow2(d),
        ;
        assert(fraction_bits(raw) == (own_field - 1) * HIDDEN_BIT + own);
        if field == 0 {
            lemma_pow2_strictly_increases(52, 1042);
            assert(scaled_fraction(raw) >= pow2(1042)) by (nonlinear_arith)
                requires
                    scaled_fraction(raw) == raw * pow2(1042),
                    raw >= 1,
            ;
        } else if bits < INFINITY_BITS {
            lemma_scaled_order(
                own,
                (own_field - 1) as nat,
                HIDDEN_BIT + significand,
                (field - 1) as nat,
            );
        }
    }
}

/// The pattern of a fraction denotes that fraction.
pub proof fn lemma_fraction_bits_denote(raw: u32)
    ensures
        0 <= fraction_bits(raw) < ONE_BITS,
        raw >= 1 ==> fraction_bits(raw) >= 991 * HIDDEN_BIT,
        scaled_value(fraction_bits(raw) as u64) == scaled_fraction(raw),
{
    if raw == 0 {
        assert(scaled_fraction(raw) == 0) by (nonlinear_arith)
            requires
                scaled_fraction(raw) == raw * pow2(1042),
                raw == 0,
        ;
    } else {
        let d = lemma_fraction_bits(raw);
        let own = raw * pow2(d);
        let bits = fraction_bits(raw) as u64;
        assert(bits == (1043 - d) * HIDDEN_BIT + (own - HIDDEN_BIT));
        assert(bits / HIDDEN_BIT == 1043 - d && bits % HIDDEN_BIT == own - HIDDEN_BIT);
        lemma_pow2_adds(d, (1042 - d) as nat);
        assert(own * pow2((1042 - d) as nat) == raw * pow2(1042)) by (nonlinear_arith)
            requires
                pow2(1042) == pow2(d) * pow2((1042 - d) as nat),
                own == raw * pow2(d),
        ;
    }
}

/// Fractions are ordered as their patterns are.
pub proof fn lemma_fractions_are_ordered(a: u32, b: u32)
    ensures
        a < b <==> fraction_bits(a) < fraction_bits(b),
{
    lemma_fraction_bits_denote(b);
    lemma_patterns_are_ordered(a, fraction_bits(b) as u64);
    lemma_pow2_pos(1042);
    assert(a * pow2(1042) < b * pow2(1042) <==> a < b) by (nonlinear_arith)
        requires
            pow2(1042) > 0,
    ;
}

/// Computes the bit pattern of the double precision number `raw / 2^32`. It
/// is below the pattern of one.
pub fn fraction_bits_of(raw: u32) -> (bits: u64)
    ensures
        bits == fraction_bits(raw),
        bits < ONE_BITS,
{
    if raw == 0 {
        return 0;
    }
    let mut m: u64 = raw as u64;
    let mut field: u64 = 1043;
    proof {
        lemma_fraction_bits_denote(raw);
    }
    while m < HIDDEN_BIT
        invariant
            1 <= m < 2 * HIDDEN_BIT,
            1 <= field <= 1043,
            991 * HIDDEN_BIT <= fraction_bits(raw) < ONE_BITS,
            normalized_bits(m as nat, field as int) == fraction_bits(raw),
        decreases (if m < HIDDEN_BIT { HIDDEN_BIT - m } else { 0 }),
    {
        proof {
            // The exponent field is still above what the doublings to come
            // take from it.
            let d = lemma_normalized_bits(m as nat, field as int);
            let own = m * pow2(d);
            assert((field - d - 1) * HIDDEN_BIT + own >= 991 * HIDDEN_BIT);
            assert(field - d - 1 >= 990) by (nonlinear_arith)
                requires
                    (field - d - 1) * HIDDEN_BIT + own >= 991 * HIDDEN_BIT,
                    own < 2 * HIDDEN_BIT,
                    HIDDEN_BIT > 0,
            ;
        }
        m = m * 2;
        field = field - 1;
    }
    proof {
        let d = lemma_normalized_bits(m as nat, field as int);
        let own = m * pow2(d);
        assert(field - d - 1 >= 990) by (nonlinear_arith)
            requires
                (field - d - 1) * HIDDEN_BIT + own >= 991 * HIDDEN_BIT,
                own < 2 * HIDDEN_BIT,
                HIDDEN_BIT > 0,
        ;
    }
    (field - 1) * HIDDEN_BIT + m
}

/// Decides whether the fraction `raw / 2^32` is below the number whose bit
/// pattern is `bits`, by comparing the patterns.
pub fn is_below_cutoff(raw: u32, bits: u64) -> (b: bool)
    ensures
        b == below_cutoff(raw, bits),
{
    if bits > INFINITY_BITS {
        return false;
    }
    proof {
        lemma_patterns_are_ordered(raw, bits);
    }
    fraction_bits_of(raw) < bits
}

} // verus!
