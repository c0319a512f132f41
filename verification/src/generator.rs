//! The core generator: three linear-feedback shift registers whose words are
//! combined by exclusive or.

use vstd::prelude::*;

verus! {

/// The position of the generator: one 32-bit word per register.
#[derive(Clone, Copy, Debug, PartialEq, Eq, Structural)]
pub struct GeneratorState {
    pub s1: u32,
    pub s2: u32,
    pub s3: u32,
}

impl GeneratorState {
    /// The state whose registers hold the three words.
    pub fn from_words(words: [u32; 3]) -> (st: GeneratorState)
        ensures
            st.s1 == words[0],
            st.s2 == words[1],
            st.s3 == words[2],
    {
        GeneratorState { s1: words[0], s2: words[1], s3: words[2] }
    }

    /// The words of the three registers, the first register first.
    pub fn to_words(self) -> (words: [u32; 3])
        ensures
            words[0] == self.s1,
            words[1] == self.s2,
            words[2] == self.s3,
    {
        [self.s1, self.s2, self.s3]
    }
}

/// Multiplier of the congruential rule that spreads a seed over the registers.
pub const SEED_MULTIPLIER: u32 = 69069;

/// Number of outputs that seeding draws and discards.
pub const WARM_UP_DRAWS: u32 = 6;

/// One Tausworthe step of a register word `s`: `((s & c) << d) ^ (((s << a) ^ s) >> b)`.
pub open spec fn tausworthe_spec(s: u32, a: u32, b: u32, c: u32, d: u32) -> u32 {
    ((s & c) << d) ^ (((s << a) ^ s) >> b)
}

/// The step of the first register.
pub open spec fn step1(s: u32) -> u32 {
    tausworthe_spec(s, 13, 19, 0xFFFF_FFFE, 12)
}

/// The step of the second register.
pub open spec fn step2(s: u32) -> u32 {
    tausworthe_spec(s, 2, 25, 0xFFFF_FFF8, 4)
}

/// The step of the third register.
pub open spec fn step3(s: u32) -> u32 {
    tausworthe_spec(s, 3, 11, 0xFFFF_FFF0, 17)
}

/// The state after one draw: every register advanced by one step.
pub open spec fn next_state(st: GeneratorState) -> GeneratorState {
    GeneratorState { s1: step1(st.s1), s2: step2(st.s2), s3: step3(st.s3) }
}

/// The value that a draw reports on arriving at `st`.
pub open spec fn output(st: GeneratorState) -> u32 {
    st.s1 ^ st.s2 ^ st.s3
}

/// The state after `n` draws.
pub open spec fn advance(st: GeneratorState, n: nat) -> GeneratorState
    decreases n,
{
    if n == 0 {
        st
    } else {
        next_state(advance(st, (n - 1) as nat))
    }
}

/// The value of the `n`-th draw from `st`, counting from 1.
pub open spec fn nth_output(st: GeneratorState, n: nat) -> u32 {
    output(advance(st, n))
}

/// A register word is live when the bits that its step keeps are not all zero.
/// A dead register stays at zero for ever.
pub open spec fn is_live(st: GeneratorState) -> bool {
    st.s1 >= 2 && st.s2 >= 8 && st.s3 >= 16
}

/// `x` times the seed multiplier, reduced modulo 2^32, and raised by `floor`
/// where it falls below `floor`.
pub open spec fn spread(x: u32, floor: u32) -> u32 {
    let y = ((SEED_MULTIPLIER as int * x as int) % 0x1_0000_0000) as u32;
    if y < floor {
        (y + floor) as u32
    } else {
        y
    }
}

/// The registers that a seed is spread to, before the warm-up.
pub open spec fn seed_registers(seed: u32) -> GeneratorState {
    let s: u32 = if seed == 0 { 1 } else { seed };
    let s1 = spread(s, 2);
    let s2 = spread(s1, 8);
    let s3 = spread(s2, 16);
    GeneratorState { s1, s2, s3 }
}

/// The state that seeding with `seed` gives.
pub open spec fn taus_set_spec(seed: u32) -> GeneratorState {
    advance(seed_registers(seed), WARM_UP_DRAWS as nat)
}

/// The Tausworthe operator on one register word.
pub fn tausworthe(s: u32, a: u8, b: u8, c: u32, d: u8) -> (r: u32)
    requires
        a < 32,
        b < 32,
        d < 32,
    ensures
        r == tausworthe_spec(s, a as u32, b as u32, c, d as u32),
{
    let s1: u32 = (s & c) << (d as u32);
    let s2: u32 = ((s << (a as u32)) ^ s) >> (b as u32);
    s1 ^ s2
}

/// Draws one value from `[0, 2^32)`: every register takes one step, and the
/// value is the exclusive or of the three new words.
pub fn taus_get(st: GeneratorState) -> (r: (GeneratorState, u32))
    ensures
        r.0 == next_state(st),
        r.1 == output(next_state(st)),
        is_live(st) ==> is_live(r.0),
{
    let s1: u32 = tausworthe(st.s1, 13, 19, 4294967294, 12);
    let s2: u32 = tausworthe(st.s2, 2, 25, 4294967288, 4);
    let s3: u32 = tausworthe(st.s3, 3, 11, 4294967280, 17);
    proof {
        if is_live(st) {
            lemma_live_is_kept(st);
        }
    }
    (GeneratorState { s1, s2, s3 }, s1 ^ s2 ^ s3)
}

/// A live state stays live: no step takes a live register to zero.
pub proof fn lemma_live_is_kept(st: GeneratorState)
    requires
        is_live(st),
    ensures
        is_live(next_state(st)),
{
    let (a, b, c) = (st.s1, st.s2, st.s3);
    assert(a >= 2 ==> step1(a) >= 2) by (bit_vector);
    assert(b >= 8 ==> step2(b) >= 8) by (bit_vector);
    assert(c >= 16 ==> step3(c) >= 16) by (bit_vector);
}

/// A live state stays live over any number of draws.
pub proof fn lemma_live_for_ever(st: GeneratorState, n: nat)
    requires
        is_live(st),
    ensures
        is_live(advance(st, n)),
    decreases n,
{
    if n > 0 {
        lemma_live_for_ever(st, (n - 1) as nat);
        lemma_live_is_kept(advance(st, (n - 1) as nat));
    }
}

/// Drawing once and then `n` times is drawing `n + 1` times.
pub proof fn lemma_advance_shift(st: GeneratorState, n: nat)
    ensures
        advance(next_state(st), n) == advance(st, n + 1),
    decreases n,
{
    if n == 0 {
        assert(advance(st, 1) == next_state(advance(st, 0)));
    } else {
        lemma_advance_shift(st, (n - 1) as nat);
    }
}

fn spread_exec(x: u32, floor: u32) -> (r: u32)
    requires
        floor <= 16,
    ensures
        r == spread(x, floor),
        r >= floor,
{
    assert(SEED_MULTIPLIER * x <= 69069 * 0xFFFF_FFFF) by (nonlinear_arith)
        requires
            SEED_MULTIPLIER == 69069,
            x <= 0xFFFF_FFFF,
    ;
    let wide: u64 = (SEED_MULTIPLIER as u64) * (x as u64) % 0x1_0000_0000;
    let y: u32 = wide as u32;
    if y < floor {
        y + floor
    } else {
        y
    }
}

/// Builds the generator state for `seed`. A seed of zero is taken as one; the
/// seed is spread over the three registers, and six draws are discarded.
pub fn taus_set(seed: u32) -> (st: GeneratorState)
    ensures
        st == taus_set_spec(seed),
        is_live(st),
{
    let s: u32 = if seed == 0 { 1 } else { seed };
    let s1: u32 = spread_exec(s, 2);
    let s2: u32 = spread_exec(s1, 8);
    let s3: u32 = spread_exec(s2, 16);
    let mut st = GeneratorState { s1, s2, s3 };
    let ghost start = st;
    let mut i: u32 = 0;
    while i < WARM_UP_DRAWS
        invariant
            i <= WARM_UP_DRAWS,
            is_live(st),
            st == advance(start, i as nat),
        decreases WARM_UP_DRAWS - i,
    {
        let (next, _) = taus_get(st);
        st = next;
        i += 1;
    }
    st
}

/// Seeding with zero and seeding with one give the same generator.
pub proof fn lemma_zero_seed_is_one()
    ensures
        taus_set_spec(0) == taus_set_spec(1),
{
}

} // verus!
