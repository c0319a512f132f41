//! Uniform integers below a bound, by rejection sampling.
//!
//! The 2^32 - 1 lowest outputs are cut into `n` bands of equal width; an
//! output above the last band is rejected and the next one is drawn.

use crate::error::SamplingError;
use crate::generator::{
    advance, lemma_advance_shift, next_state, nth_output, output, taus_get, GeneratorState,
};
use crate::recurrence::{lemma_low_draw_within_bound, LOW_DRAW_BOUND};
use vstd::prelude::*;

verus! {

/// The width of each of the `n` bands: the integer part of `(2^32 - 1) / n`.
pub open spec fn band_width(n: u32) -> int {
    0xFFFF_FFFFint / (n as int)
}

/// The band that the output `raw` falls in; an output is accepted when its
/// band is below `n`.
pub open spec fn band(raw: u32, n: u32) -> int {
    (raw as int) / band_width(n)
}

/// Whether the `k`-th draw from `st` is the first that is accepted.
pub open spec fn is_first_accepted(st: GeneratorState, n: u32, k: nat) -> bool {
    &&& k >= 1
    &&& band(nth_output(st, k), n) < n
    &&& forall|j: nat| 1 <= j < k ==> band(#[trigger] nth_output(st, j), n) >= n
}

/// Draws from `st` until an output is accepted, at most `limit` times, and
/// gives the state after the last draw with the band of that draw.
pub open spec fn uniform_int_scan(st: GeneratorState, n: u32, limit: nat) -> (GeneratorState, u32)
    decreases limit,
{
    let next = next_state(st);
    let k = band(output(next), n);
    if k < n || limit <= 1 {
        (next, k as u32)
    } else {
        uniform_int_scan(next, n, (limit - 1) as nat)
    }
}

/// The state and the value that `uniform_int` gives for a positive `n`: those
/// of the first accepted draw, which is never later than the
/// `LOW_DRAW_BOUND`-th.
pub open spec fn uniform_int_spec(st: GeneratorState, n: u32) -> (GeneratorState, u32) {
    uniform_int_scan(st, n, LOW_DRAW_BOUND as nat)
}

/// For a positive `n` the bands are at least one wide, and the band of an
/// output is no more than the output.
pub proof fn lemma_band_fits(raw: u32, n: u32)
    requires
        n >= 1,
    ensures
        band_width(n) >= 1,
        0 <= band(raw, n) <= raw,
{
    let w = band_width(n);
    assert(w >= 1) by (nonlinear_arith)
        requires
            w == 0xFFFF_FFFFint / (n as int),
            1 <= n <= 0xFFFF_FFFF,
    ;
    assert(0 <= (raw as int) / w <= raw) by (nonlinear_arith)
        requires
            w >= 1,
            0 <= raw,
    ;
}

/// The bands are intervals of equal width: band `k` holds the `band_width(n)`
/// outputs from `k * band_width(n)` on. So each value below `n` is given by
/// as many outputs as any other.
pub proof fn lemma_band_is_interval(raw: u32, n: u32, k: int)
    requires
        n >= 1,
    ensures
        band(raw, n) == k <==> k * band_width(n) <= raw < (k + 1) * band_width(n),
{
    lemma_band_fits(raw, n);
    let w = band_width(n);
    assert(((raw as int) / w == k) <==> (k * w <= raw < (k + 1) * w)) by (nonlinear_arith)
        requires
            w >= 1,
    ;
}

/// The accepted outputs are those below `n * band_width(n)`, and fewer than
/// `n` of the 2^32 - 1 lowest outputs are rejected.
pub proof fn lemma_accepted_outputs(raw: u32, n: u32)
    requires
        n >= 1,
    ensures
        band(raw, n) < n <==> raw < n * band_width(n),
        0xFFFF_FFFF - n < n * band_width(n) <= 0xFFFF_FFFF,
{
    lemma_band_fits(raw, n);
    let w = band_width(n);
    assert(((raw as int) / w < n) <==> (raw < n * w)) by (nonlinear_arith)
        requires
            w >= 1,
            n >= 1,
            raw >= 0,
    ;
    assert(0xFFFF_FFFF - n < n * w <= 0xFFFF_FFFF) by (nonlinear_arith)
        requires
            w == 0xFFFF_FFFFint / (n as int),
            n >= 1,
    ;
}

/// Every output below 2^31 is accepted, whatever the positive bound.
pub proof fn lemma_low_output_is_accepted(raw: u32, n: u32)
    requires
        n >= 1,
        raw < 0x8000_0000,
    ensures
        band(raw, n) < n,
{
    let w = band_width(n);
    assert(w >= 1 && n * w > 0xFFFF_FFFF - n && n * w >= n) by (nonlinear_arith)
        requires
            w == 0xFFFF_FFFFint / (n as int),
            1 <= n <= 0xFFFF_FFFF,
    ;
    assert(raw < n * w);
    assert((raw as int) / w < n) by (nonlinear_arith)
        requires
            w >= 1,
            0 <= raw < n * w,
    ;
}

/// From any state, one of the next `LOW_DRAW_BOUND` draws is accepted.
pub proof fn lemma_accepted_draw_exists(st: GeneratorState, n: u32)
    requires
        n >= 1,
    ensures
        exists|k: nat| 1 <= k <= LOW_DRAW_BOUND && band(#[trigger] nth_output(st, k), n) < n,
{
    lemma_low_draw_within_bound(st);
    let k = choose|k: nat| 1 <= k <= LOW_DRAW_BOUND && #[trigger] nth_output(st, k) < 0x8000_0000;
    lemma_low_output_is_accepted(nth_output(st, k), n);
}

/// A scan that meets an accepted draw within its limit ends at the first such
/// draw.
pub proof fn lemma_scan_ends_at_first_accepted(st: GeneratorState, n: u32, limit: nat, k: nat)
    requires
        k <= limit,
        is_first_accepted(st, n, k),
    ensures
        uniform_int_scan(st, n, limit) == (advance(st, k), band(nth_output(st, k), n) as u32),
    decreases k,
{
    assert(advance(st, 1) == next_state(advance(st, 0)));
    if k == 1 {
    } else {
        assert(band(nth_output(st, 1), n) >= n);
        assert forall|j: nat| 1 <= j < k - 1 implies band(
            #[trigger] nth_output(next_state(st), j),
            n,
        ) >= n by {
            lemma_advance_shift(st, j);
            assert(band(nth_output(st, j + 1), n) >= n);
        }
        lemma_advance_shift(st, (k - 1) as nat);
        lemma_scan_ends_at_first_accepted(next_state(st), n, (limit - 1) as nat, (k - 1) as nat);
    }
}

/// What `uniform_int_spec` is: the state and the band of the first accepted
/// draw, which is one of the first `LOW_DRAW_BOUND`. Its value is below `n`.
pub proof fn lemma_uniform_int_is_first_accepted(st: GeneratorState, n: u32) -> (k: nat)
    requires
        n >= 1,
    ensures
        k <= LOW_DRAW_BOUND,
        is_first_accepted(st, n, k),
        uniform_int_spec(st, n) == (advance(st, k), band(nth_output(st, k), n) as u32),
        uniform_int_spec(st, n).1 < n,
{
    lemma_accepted_draw_exists(st, n);
    let some = choose|k: nat| 1 <= k <= LOW_DRAW_BOUND && band(#[trigger] nth_output(st, k), n) < n;
    let k = first_accepted(st, n, some);
    lemma_first_accepted(st, n, some);
    lemma_scan_ends_at_first_accepted(st, n, LOW_DRAW_BOUND as nat, k);
    lemma_band_fits(nth_output(st, k), n);
    k
}

/// The least draw from 1 to `upto` that is accepted, or `upto` if none is.
spec fn first_accepted(st: GeneratorState, n: u32, upto: nat) -> nat
    decreases upto,
{
    if upto <= 1 {
        1
    } else {
        let before = first_accepted(st, n, (upto - 1) as nat);
        if band(nth_output(st, before), n) < n {
            before
        } else {
            upto
        }
    }
}

proof fn lemma_first_accepted(st: GeneratorState, n: u32, upto: nat)
    requires
        upto >= 1,
    ensures
        1 <= first_accepted(st, n, upto) <= upto,
        forall|j: nat|
            1 <= j < first_accepted(st, n, upto) ==> band(#[trigger] nth_output(st, j), n) >= n,
        band(nth_output(st, upto), n) < n ==> band(
            nth_output(st, first_accepted(st, n, upto)),
            n,
        ) < n,
    decreases upto,
{
    if upto > 1 {
        lemma_first_accepted(st, n, (upto - 1) as nat);
    }
}

/// Draws until an output is accepted, for a positive `n`.
pub(crate) fn draw_below(rng: GeneratorState, n: u32) -> (r: (GeneratorState, u32))
    requires
        n >= 1,
    ensures
        r == uniform_int_spec(rng, n),
        r.1 < n,
{
    let scale: u32 = 0xFFFF_FFFF / n;
    let mut st = rng;
    proof {
        lemma_accepted_draw_exists(rng, n);
        lemma_band_fits(0, n);
    }
    let ghost mut ahead: nat = choose|k: nat|
        1 <= k <= LOW_DRAW_BOUND && band(#[trigger] nth_output(rng, k), n) < n;
    let ghost mut limit: nat = LOW_DRAW_BOUND as nat;
    loop
        invariant
            n >= 1,
            scale == band_width(n),
            scale >= 1,
            1 <= ahead <= limit,
            band(nth_output(st, ahead), n) < n,
            uniform_int_scan(st, n, limit) == uniform_int_spec(rng, n),
        decreases limit,
    {
        let (next, raw) = taus_get(st);
        let k: u32 = raw / scale;
        if k < n {
            return (next, k);
        }
        proof {
            assert(advance(st, 1) == next_state(advance(st, 0)));
            lemma_advance_shift(st, (ahead - 1) as nat);
            ahead = (ahead - 1) as nat;
            limit = (limit - 1) as nat;
        }
        st = next;
    }
}

/// Draws a value in `[0, n)`: outputs are drawn until one falls in one of the
/// `n` bands, and its band is the value. This takes `LOW_DRAW_BOUND` draws at
/// most. With `n = 0` nothing is drawn.
pub fn uniform_int(rng: GeneratorState, n: u32) -> (r: Result<(GeneratorState, u32), SamplingError>)
    ensures
        n == 0 ==> r == Err::<(GeneratorState, u32), SamplingError>(SamplingError::InvalidArgument),
        n >= 1 ==> r == Ok::<(GeneratorState, u32), SamplingError>(uniform_int_spec(rng, n)),
        r matches Ok(drawn) ==> drawn.1 < n && exists|k: nat|
            k <= LOW_DRAW_BOUND && #[trigger] is_first_accepted(rng, n, k) && drawn.0 == advance(
                rng,
                k,
            ) && drawn.1 == band(nth_output(rng, k), n),
{
    if n == 0 {
        Err(SamplingError::InvalidArgument)
    } else {
        proof {
            let k = lemma_uniform_int_is_first_accepted(rng, n);
            lemma_band_fits(nth_output(rng, k), n);
        }
        Ok(draw_below(rng, n))
    }
}

} // verus!
