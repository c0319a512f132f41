//! Why rejection sampling on this generator ends: each register obeys a
//! linear recurrence with an odd number of terms, so the top bit of the
//! output cannot stay set for long.
//!
//! Over the two-element field a register step is a linear map `T` on words,
//! and `T` is a root of a sparse polynomial: `T + T^3 + T^30 = 0` for the
//! second register, and likewise with five and nine terms for the first and
//! the third. Applying the first polynomial to the output sequence removes
//! the first register from it, the second removes the second, and the third
//! leaves zero. Were the top bit set in 91 successive outputs, it would be set
//! in each of these combinations too, each being the exclusive or of an odd
//! number of words: but the last one is zero.

use crate::generator::{advance, nth_output, step1, step2, step3, GeneratorState};
use vstd::prelude::*;

verus! {

/// Among any `LOW_DRAW_BOUND` successive draws, one is below 2^31.
pub const LOW_DRAW_BOUND: u32 = 91;

/// One of the three registers.
pub enum Register {
    First,
    Second,
    Third,
}

/// The step of register `r`.
pub open spec fn register_step(r: Register, s: u32) -> u32 {
    match r {
        Register::First => step1(s),
        Register::Second => step2(s),
        Register::Third => step3(s),
    }
}

/// The word of register `r` after `n` steps from `s`.
pub open spec fn run(r: Register, s: u32, n: nat) -> u32
    decreases n,
{
    if n == 0 {
        s
    } else {
        register_step(r, run(r, s, (n - 1) as nat))
    }
}

/// The polynomial of the first register, applied to the run of `r` from
/// `s`: the exclusive or of the words after 1, 14, 20, 26 and 32 steps.
spec fn fold1(r: Register, s: u32) -> u32 {
    run(r, s, 1) ^ run(r, s, 14) ^ run(r, s, 20) ^ run(r, s, 26) ^ run(r, s, 32)
}

/// The polynomial of the second register, applied to the run of `r` from
/// `s`: the exclusive or of the words after 1, 3 and 30 steps.
spec fn fold2(r: Register, s: u32) -> u32 {
    run(r, s, 1) ^ run(r, s, 3) ^ run(r, s, 30)
}

/// The polynomial of the third register, applied to the run of `r` from
/// `s`: the exclusive or of the words after 1, 3, 4, 7, 11, 16, 18, 20 and 29 steps.
spec fn fold3(r: Register, s: u32) -> u32 {
    run(r, s, 1) ^ run(r, s, 3) ^ run(r, s, 4) ^ run(r, s, 7) ^ run(r, s, 11) ^ run(r, s, 16)
        ^ run(r, s, 18) ^ run(r, s, 20) ^ run(r, s, 29)
}

/// The state after `n` draws holds the `n`-th word of each register's run.
pub proof fn lemma_advance_is_run(st: GeneratorState, n: nat)
    ensures
        advance(st, n) == (GeneratorState {
            s1: run(Register::First, st.s1, n),
            s2: run(Register::Second, st.s2, n),
            s3: run(Register::Third, st.s3, n),
        }),
    decreases n,
{
    if n > 0 {
        lemma_advance_is_run(st, (n - 1) as nat);
    }
}

/// Running `m` steps and then `n` is running `m + n` steps.
proof fn lemma_run_adds(r: Register, s: u32, m: nat, n: nat)
    ensures
        run(r, run(r, s, m), n) == run(r, s, m + n),
    decreases n,
{
    if n > 0 {
        lemma_run_adds(r, s, m, (n - 1) as nat);
    }
}

/// A step is linear over the two-element field.
proof fn lemma_step_is_linear(r: Register, x: u32, y: u32)
    ensures
        register_step(r, x ^ y) == register_step(r, x) ^ register_step(r, y),
{
    match r {
        Register::First => {
            assert(step1(x ^ y) == step1(x) ^ step1(y)) by (bit_vector);
        },
        Register::Second => {
            assert(step2(x ^ y) == step2(x) ^ step2(y)) by (bit_vector);
        },
        Register::Third => {
            assert(step3(x ^ y) == step3(x) ^ step3(y)) by (bit_vector);
        },
    }
}

/// So is a run of any length.
proof fn lemma_run_is_linear(r: Register, x: u32, y: u32, n: nat)
    ensures
        run(r, x ^ y, n) == run(r, x, n) ^ run(r, y, n),
    decreases n,
{
    if n > 0 {
        lemma_run_is_linear(r, x, y, (n - 1) as nat);
        lemma_step_is_linear(r, run(r, x, (n - 1) as nat), run(r, y, (n - 1) as nat));
    }
}

/// Running on from the `t`-th word for `i` steps, or from the `i`-th for `t`,
/// arrives at the same word.
proof fn lemma_run_swaps(r: Register, s: u32, t: nat, i: nat)
    ensures
        run(r, run(r, s, t), i) == run(r, s, t + i),
        run(r, run(r, s, i), t) == run(r, s, t + i),
{
    lemma_run_adds(r, s, t, i);
    lemma_run_adds(r, s, i, t);
}

/// `fold1` commutes with running: applied `t` steps on, it gives the word
/// that `t` steps from its value at the start give.
proof fn lemma_fold1_commutes(r: Register, s: u32, t: nat)
    ensures
        fold1(r, run(r, s, t)) == run(r, fold1(r, s), t),
        run(r, s, t + 1) ^ run(r, s, t + 14) ^ run(r, s, t + 20) ^ run(r, s, t + 26)
            ^ run(r, s, t + 32)
            == run(r, fold1(r, s), t),
{
    lemma_run_swaps(r, s, t, 1);
    lemma_run_swaps(r, s, t, 14);
    lemma_run_swaps(r, s, t, 20);
    lemma_run_swaps(r, s, t, 26);
    lemma_run_swaps(r, s, t, 32);
    let part1 = run(r, s, 1);
    lemma_run_is_linear(r, part1, run(r, s, 14), t);
    let part2 = part1 ^ run(r, s, 14);
    lemma_run_is_linear(r, part2, run(r, s, 20), t);
    let part3 = part2 ^ run(r, s, 20);
    lemma_run_is_linear(r, part3, run(r, s, 26), t);
    let part4 = part3 ^ run(r, s, 26);
    lemma_run_is_linear(r, part4, run(r, s, 32), t);
}

/// `fold2` commutes with running: applied `t` steps on, it gives the word
/// that `t` steps from its value at the start give.
proof fn lemma_fold2_commutes(r: Register, s: u32, t: nat)
    ensures
        fold2(r, run(r, s, t)) == run(r, fold2(r, s), t),
        run(r, s, t + 1) ^ run(r, s, t + 3) ^ run(r, s, t + 30)
            == run(r, fold2(r, s), t),
{
    lemma_run_swaps(r, s, t, 1);
    lemma_run_swaps(r, s, t, 3);
    lemma_run_swaps(r, s, t, 30);
    let part1 = run(r, s, 1);
    lemma_run_is_linear(r, part1, run(r, s, 3), t);
    let part2 = part1 ^ run(r, s, 3);
    lemma_run_is_linear(r, part2, run(r, s, 30), t);
}

/// `fold3` commutes with running: applied `t` steps on, it gives the word
/// that `t` steps from its value at the start give.
proof fn lemma_fold3_commutes(r: Register, s: u32, t: nat)
    ensures
        fold3(r, run(r, s, t)) == run(r, fold3(r, s), t),
        run(r, s, t + 1) ^ run(r, s, t + 3) ^ run(r, s, t + 4) ^ run(r, s, t + 7)
            ^ run(r, s, t + 11) ^ run(r, s, t + 16) ^ run(r, s, t + 18) ^ run(r, s, t + 20)
            ^ run(r, s, t + 29)
            == run(r, fold3(r, s), t),
{
    lemma_run_swaps(r, s, t, 1);
    lemma_run_swaps(r, s, t, 3);
    lemma_run_swaps(r, s, t, 4);
    lemma_run_swaps(r, s, t, 7);
    lemma_run_swaps(r, s, t, 11);
    lemma_run_swaps(r, s, t, 16);
    lemma_run_swaps(r, s, t, 18);
    lemma_run_swaps(r, s, t, 20);
    lemma_run_swaps(r, s, t, 29);
    let part1 = run(r, s, 1);
    lemma_run_is_linear(r, part1, run(r, s, 3), t);
    let part2 = part1 ^ run(r, s, 3);
    lemma_run_is_linear(r, part2, run(r, s, 4), t);
    let part3 = part2 ^ run(r, s, 4);
    lemma_run_is_linear(r, part3, run(r, s, 7), t);
    let part4 = part3 ^ run(r, s, 7);
    lemma_run_is_linear(r, part4, run(r, s, 11), t);
    let part5 = part4 ^ run(r, s, 11);
    lemma_run_is_linear(r, part5, run(r, s, 16), t);
    let part6 = part5 ^ run(r, s, 16);
    lemma_run_is_linear(r, part6, run(r, s, 18), t);
    let part7 = part6 ^ run(r, s, 18);
    lemma_run_is_linear(r, part7, run(r, s, 20), t);
    let part8 = part7 ^ run(r, s, 20);
    lemma_run_is_linear(r, part8, run(r, s, 29), t);
}

/// The first register is a root of its polynomial: `fold1` of its own run
/// is zero, wherever the run starts.
proof fn lemma_fold1_vanishes(s: u32)
    ensures
        fold1(Register::First, s) == 0,
{
    let x0 = run(Register::First, s, 0);
    let x1 = run(Register::First, s, 1);
    let x2 = run(Register::First, s, 2);
    let x3 = run(Register::First, s, 3);
    let x4 = run(Register::First, s, 4);
    let x5 = run(Register::First, s, 5);
    let x6 = run(Register::First, s, 6);
    let x7 = run(Register::First, s, 7);
    let x8 = run(Register::First, s, 8);
    let x9 = run(Register::First, s, 9);
    let x10 = run(Register::First, s, 10);
    let x11 = run(Register::First, s, 11);
    let x12 = run(Register::First, s, 12);
    let x13 = run(Register::First, s, 13);
    let x14 = run(Register::First, s, 14);
    let x15 = run(Register::First, s, 15);
    let x16 = run(Register::First, s, 16);
    let x17 = run(Register::First, s, 17);
    let x18 = run(Register::First, s, 18);
    let x19 = run(Register::First, s, 19);
    let x20 = run(Register::First, s, 20);
    let x21 = run(Register::First, s, 21);
    let x22 = run(Register::First, s, 22);
    let x23 = run(Register::First, s, 23);
    let x24 = run(Register::First, s, 24);
    let x25 = run(Register::First, s, 25);
    let x26 = run(Register::First, s, 26);
    let x27 = run(Register::First, s, 27);
    let x28 = run(Register::First, s, 28);
    let x29 = run(Register::First, s, 29);
    let x30 = run(Register::First, s, 30);
    let x31 = run(Register::First, s, 31);
    let x32 = run(Register::First, s, 32);
    assert(x1 ^ x14 ^ x20 ^ x26 ^ x32 == 0) by (bit_vector)
        requires
            x1 == step1(x0),
            x2 == step1(x1),
            x3 == step1(x2),
            x4 == step1(x3),
            x5 == step1(x4),
            x6 == step1(x5),
            x7 == step1(x6),
            x8 == step1(x7),
            x9 == step1(x8),
            x10 == step1(x9),
            x11 == step1(x10),
            x12 == step1(x11),
            x13 == step1(x12),
            x14 == step1(x13),
            x15 == step1(x14),
            x16 == step1(x15),
            x17 == step1(x16),
            x18 == step1(x17),
            x19 == step1(x18),
            x20 == step1(x19),
            x21 == step1(x20),
            x22 == step1(x21),
            x23 == step1(x22),
            x24 == step1(x23),
            x25 == step1(x24),
            x26 == step1(x25),
            x27 == step1(x26),
            x28 == step1(x27),
            x29 == step1(x28),
            x30 == step1(x29),
            x31 == step1(x30),
            x32 == step1(x31),
    ;
}

/// The second register is a root of its polynomial: `fold2` of its own run
/// is zero, wherever the run starts.
proof fn lemma_fold2_vanishes(s: u32)
    ensures
        fold2(Register::Second, s) == 0,
{
    let x0 = run(Register::Second, s, 0);
    let x1 = run(Register::Second, s, 1);
    let x2 = run(Register::Second, s, 2);
    let x3 = run(Register::Second, s, 3);
    let x4 = run(Register::Second, s, 4);
    let x5 = run(Register::Second, s, 5);
    let x6 = run(Register::Second, s, 6);
    let x7 = run(Register::Second, s, 7);
    let x8 = run(Register::Second, s, 8);
    let x9 = run(Register::Second, s, 9);
    let x10 = run(Register::Second, s, 10);
    let x11 = run(Register::Second, s, 11);
    let x12 = run(Register::Second, s, 12);
    let x13 = run(Register::Second, s, 13);
    let x14 = run(Register::Second, s, 14);
    let x15 = run(Register::Second, s, 15);
    let x16 = run(Register::Second, s, 16);
    let x17 = run(Register::Second, s, 17);
    let x18 = run(Register::Second, s, 18);
    let x19 = run(Register::Second, s, 19);
    let x20 = run(Register::Second, s, 20);
    let x21 = run(Register::Second, s, 21);
    let x22 = run(Register::Second, s, 22);
    let x23 = run(Register::Second, s, 23);
    let x24 = run(Register::Second, s, 24);
    let x25 = run(Register::Second, s, 25);
    let x26 = run(Register::Second, s, 26);
    let x27 = run(Register::Second, s, 27);
    let x28 = run(Register::Second, s, 28);
    let x29 = run(Register::Second, s, 29);
    let x30 = run(Register::Second, s, 30);
    assert(x1 ^ x3 ^ x30 == 0) by (bit_vector)
        requires
            x1 == step2(x0),
            x2 == step2(x1),
            x3 == step2(x2),
            x4 == step2(x3),
            x5 == step2(x4),
            x6 == step2(x5),
            x7 == step2(x6),
            x8 == step2(x7),
            x9 == step2(x8),
            x10 == step2(x9),
            x11 == step2(x10),
            x12 == step2(x11),
            x13 == step2(x12),
            x14 == step2(x13),
            x15 == step2(x14),
            x16 == step2(x15),
            x17 == step2(x16),
            x18 == step2(x17),
            x19 == step2(x18),
            x20 == step2(x19),
            x21 == step2(x20),
            x22 == step2(x21),
            x23 == step2(x22),
            x24 == step2(x23),
            x25 == step2(x24),
            x26 == step2(x25),
            x27 == step2(x26),
            x28 == step2(x27),
            x29 == step2(x28),
            x30 == step2(x29),
    ;
}

/// The third register is a root of its polynomial: `fold3` of its own run
/// is zero, wherever the run starts.
proof fn lemma_fold3_vanishes(s: u32)
    ensures
        fold3(Register::Third, s) == 0,
{
    let x0 = run(Register::Third, s, 0);
    let x1 = run(Register::Third, s, 1);
    let x2 = run(Register::Third, s, 2);
    let x3 = run(Register::Third, s, 3);
    let x4 = run(Register::Third, s, 4);
    let x5 = run(Register::Third, s, 5);
    let x6 = run(Register::Third, s, 6);
    let x7 = run(Register::Third, s, 7);
    let x8 = run(Register::Third, s, 8);
    let x9 = run(Register::Third, s, 9);
    let x10 = run(Register::Third, s, 10);
    let x11 = run(Register::Third, s, 11);
    let x12 = run(Register::Third, s, 12);
    let x13 = run(Register::Third, s, 13);
    let x14 = run(Register::Third, s, 14);
    let x15 = run(Register::Third, s, 15);
    let x16 = run(Register::Third, s, 16);
    let x17 = run(Register::Third, s, 17);
    let x18 = run(Register::Third, s, 18);
    let x19 = run(Register::Third, s, 19);
    let x20 = run(Register::Third, s, 20);
    let x21 = run(Register::Third, s, 21);
    let x22 = run(Register::Third, s, 22);
    let x23 = run(Register::Third, s, 23);
    let x24 = run(Register::Third, s, 24);
    let x25 = run(Register::Third, s, 25);
    let x26 = run(Register::Third, s, 26);
    let x27 = run(Register::Third, s, 27);
    let x28 = run(Register::Third, s, 28);
    let x29 = run(Register::Third, s, 29);
    assert(x1 ^ x3 ^ x4 ^ x7 ^ x11 ^ x16 ^ x18 ^ x20 ^ x29 == 0) by (bit_vector)
        requires
            x1 == step3(x0),
            x2 == step3(x1),
            x3 == step3(x2),
            x4 == step3(x3),
            x5 == step3(x4),
            x6 == step3(x5),
            x7 == step3(x6),
            x8 == step3(x7),
            x9 == step3(x8),
            x10 == step3(x9),
            x11 == step3(x10),
            x12 == step3(x11),
            x13 == step3(x12),
            x14 == step3(x13),
            x15 == step3(x14),
            x16 == step3(x15),
            x17 == step3(x16),
            x18 == step3(x17),
            x19 == step3(x18),
            x20 == step3(x19),
            x21 == step3(x20),
            x22 == step3(x21),
            x23 == step3(x22),
            x24 == step3(x23),
            x25 == step3(x24),
            x26 == step3(x25),
            x27 == step3(x26),
            x28 == step3(x27),
            x29 == step3(x28),
    ;
}

/// The exclusive or of the three registers' words after `t` steps.
spec fn mix3(a: u32, b: u32, c: u32, t: nat) -> u32 {
    run(Register::First, a, t) ^ run(Register::Second, b, t) ^ run(Register::Third, c, t)
}

/// The exclusive or of the second and third registers' words after `t` steps.
spec fn mix2(b: u32, c: u32, t: nat) -> u32 {
    run(Register::Second, b, t) ^ run(Register::Third, c, t)
}

/// The first polynomial removes the first register from the output: what is
/// left is the output of the other two, started from other words.
proof fn lemma_first_folds_away(a: u32, b: u32, c: u32, t: nat)
    ensures
        mix3(a, b, c, t + 1) ^ mix3(a, b, c, t + 14) ^ mix3(a, b, c, t + 20) ^ mix3(a, b, c, t + 26)
            ^ mix3(a, b, c, t + 32)
            == mix2(fold1(Register::Second, b), fold1(Register::Third, c), t),
{
    lemma_fold1_commutes(Register::First, a, t);
    lemma_fold1_vanishes(run(Register::First, a, t));
    lemma_fold1_commutes(Register::Second, b, t);
    lemma_fold1_commutes(Register::Third, c, t);
    let a0 = run(Register::First, a, t + 1);
    let b0 = run(Register::Second, b, t + 1);
    let c0 = run(Register::Third, c, t + 1);
    let a1 = run(Register::First, a, t + 14);
    let b1 = run(Register::Second, b, t + 14);
    let c1 = run(Register::Third, c, t + 14);
    let a2 = run(Register::First, a, t + 20);
    let b2 = run(Register::Second, b, t + 20);
    let c2 = run(Register::Third, c, t + 20);
    let a3 = run(Register::First, a, t + 26);
    let b3 = run(Register::Second, b, t + 26);
    let c3 = run(Register::Third, c, t + 26);
    let a4 = run(Register::First, a, t + 32);
    let b4 = run(Register::Second, b, t + 32);
    let c4 = run(Register::Third, c, t + 32);
    assert((a0 ^ b0 ^ c0) ^ (a1 ^ b1 ^ c1) ^ (a2 ^ b2 ^ c2) ^ (a3 ^ b3 ^ c3) ^ (a4 ^ b4 ^ c4)
        == (b0 ^ b1 ^ b2 ^ b3 ^ b4) ^ (c0 ^ c1 ^ c2 ^ c3 ^ c4)) by (bit_vector)
        requires
            a0 ^ a1 ^ a2 ^ a3 ^ a4 == 0,
    ;
}

/// The second polynomial removes the second register in turn.
proof fn lemma_second_folds_away(b: u32, c: u32, t: nat)
    ensures
        mix2(b, c, t + 1) ^ mix2(b, c, t + 3) ^ mix2(b, c, t + 30) == run(
            Register::Third,
            fold2(Register::Third, c),
            t,
        ),
{
    lemma_fold2_commutes(Register::Second, b, t);
    lemma_fold2_vanishes(run(Register::Second, b, t));
    lemma_fold2_commutes(Register::Third, c, t);
    let b0 = run(Register::Second, b, t + 1);
    let c0 = run(Register::Third, c, t + 1);
    let b1 = run(Register::Second, b, t + 3);
    let c1 = run(Register::Third, c, t + 3);
    let b2 = run(Register::Second, b, t + 30);
    let c2 = run(Register::Third, c, t + 30);
    assert((b0 ^ c0) ^ (b1 ^ c1) ^ (b2 ^ c2) == c0 ^ c1 ^ c2) by (bit_vector)
        requires
            b0 ^ b1 ^ b2 == 0,
    ;
}

/// The exclusive or of five words with the top bit set has the top bit set.
proof fn lemma_top_of_five(a: u32, b: u32, c: u32, d: u32, e: u32)
    by (bit_vector)
    requires
        a >= 0x8000_0000,
        b >= 0x8000_0000,
        c >= 0x8000_0000,
        d >= 0x8000_0000,
        e >= 0x8000_0000,
    ensures
        a ^ b ^ c ^ d ^ e >= 0x8000_0000,
{
}

/// The exclusive or of three words with the top bit set has the top bit set.
proof fn lemma_top_of_three(a: u32, b: u32, c: u32)
    by (bit_vector)
    requires
        a >= 0x8000_0000,
        b >= 0x8000_0000,
        c >= 0x8000_0000,
    ensures
        a ^ b ^ c >= 0x8000_0000,
{
}

/// The exclusive or of nine words with the top bit set has the top bit set.
proof fn lemma_top_of_nine(
    a: u32,
    b: u32,
    c: u32,
    d: u32,
    e: u32,
    f: u32,
    g: u32,
    h: u32,
    i: u32,
)
    by (bit_vector)
    requires
        a >= 0x8000_0000,
        b >= 0x8000_0000,
        c >= 0x8000_0000,
        d >= 0x8000_0000,
        e >= 0x8000_0000,
        f >= 0x8000_0000,
        g >= 0x8000_0000,
        h >= 0x8000_0000,
        i >= 0x8000_0000,
    ensures
        a ^ b ^ c ^ d ^ e ^ f ^ g ^ h ^ i >= 0x8000_0000,
{
}

/// From any state, one of the next `LOW_DRAW_BOUND` draws is below 2^31.
pub proof fn lemma_low_draw_within_bound(st: GeneratorState)
    ensures
        exists|k: nat| 1 <= k <= LOW_DRAW_BOUND && #[trigger] nth_output(st, k) < 0x8000_0000,
{
    if forall|k: nat| 1 <= k <= LOW_DRAW_BOUND ==> #[trigger] nth_output(st, k) >= 0x8000_0000 {
        // Then the top bit is set in each combination below, and in the
        // last, which is zero.
        let (a, b, c) = (st.s1, st.s2, st.s3);
        let b1 = fold1(Register::Second, b);
        let c1 = fold1(Register::Third, c);
        let c2 = fold2(Register::Third, c1);
        assert forall|t: nat| 1 <= t <= 91 implies #[trigger] mix3(a, b, c, t) >= 0x8000_0000 by {
            lemma_advance_is_run(st, t);
            assert(nth_output(st, t) >= 0x8000_0000);
        }
        assert forall|t: nat| t <= 59 implies #[trigger] mix2(b1, c1, t) >= 0x8000_0000 by {
            lemma_first_folds_away(a, b, c, t);
            lemma_top_of_five(
                mix3(a, b, c, t + 1),
                mix3(a, b, c, t + 14),
                mix3(a, b, c, t + 20),
                mix3(a, b, c, t + 26),
                mix3(a, b, c, t + 32),
            );
        }
        assert forall|t: nat| t <= 29 implies #[trigger] run(Register::Third, c2, t)
            >= 0x8000_0000 by {
            lemma_second_folds_away(b1, c1, t);
            lemma_top_of_three(
                mix2(b1, c1, t + 1),
                mix2(b1, c1, t + 3),
                mix2(b1, c1, t + 30),
            );
        }
        lemma_fold3_vanishes(c2);
        lemma_top_of_nine(
            run(Register::Third, c2, 1),
            run(Register::Third, c2, 3),
            run(Register::Third, c2, 4),
            run(Register::Third, c2, 7),
            run(Register::Third, c2, 11),
            run(Register::Third, c2, 16),
            run(Register::Third, c2, 18),
            run(Register::Third, c2, 20),
            run(Register::Third, c2, 29),
        );
    }
}

} // verus!
