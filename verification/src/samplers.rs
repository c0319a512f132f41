//! The basic samplers: numbers in `[0, 1)` and integers in an interval.

use crate::error::SamplingError;
use crate::fraction::{
    fraction_bits, fraction_bits_of, lemma_fraction_bits_denote, scaled_fraction, scaled_value,
    ONE_BITS,
};
use crate::generator::{advance, next_state, nth_output, output, taus_get, GeneratorState};
use crate::uniform::{draw_below, lemma_uniform_int_is_first_accepted, uniform_int_spec};
use vstd::prelude::*;

verus! {

/// The numbers in `[0, 1)` that the first `count` outputs from `st` stand
/// for, each by its bit pattern, in the order drawn.
pub open spec fn random_spec(st: GeneratorState, count: nat) -> Seq<u64> {
    Seq::new(count, |i: int| fraction_bits(nth_output(st, (i + 1) as nat)) as u64)
}

/// The state and the values after `count` draws from `[low, low + gap)`, each
/// a uniform integer below `gap` added to `low`.
pub open spec fn integers_spec(st: GeneratorState, count: nat, low: i64, gap: u32) -> (
    GeneratorState,
    Seq<i64>,
)
    decreases count,
{
    if count == 0 {
        (st, Seq::empty())
    } else {
        let (mid, init) = integers_spec(st, (count - 1) as nat, low, gap);
        let (next, k) = uniform_int_spec(mid, gap);
        (next, init.push((low + k) as i64))
    }
}

/// Every value of `integers_spec` lies in `[low, low + gap)`.
pub proof fn lemma_integers_in_interval(st: GeneratorState, count: nat, low: i64, gap: u32)
    requires
        gap >= 1,
        low + gap - 1 <= i64::MAX,
    ensures
        integers_spec(st, count, low, gap).1.len() == count,
        forall|i: int|
            0 <= i < count ==> low <= (#[trigger] integers_spec(st, count, low, gap).1[i]) < low
                + gap,
    decreases count,
{
    if count > 0 {
        lemma_integers_in_interval(st, (count - 1) as nat, low, gap);
        let (mid, init) = integers_spec(st, (count - 1) as nat, low, gap);
        lemma_uniform_int_is_first_accepted(mid, gap);
    }
}

/// Draws one number in `[0, 1)`: the output over 2^32, as the bit pattern of
/// that double precision number.
pub fn taus_get_float(st: GeneratorState) -> (r: (GeneratorState, u64))
    ensures
        r.0 == next_state(st),
        r.1 == fraction_bits(output(next_state(st))),
        scaled_value(r.1) == scaled_fraction(output(next_state(st))),
        r.1 < ONE_BITS,
{
    let (next, raw) = taus_get(st);
    proof {
        lemma_fraction_bits_denote(raw);
    }
    (next, fraction_bits_of(raw))
}

/// Draws `count` numbers in `[0, 1)`, each the bit pattern of a double
/// precision number.
pub fn random(rng: GeneratorState, count: u32) -> (r: (GeneratorState, Vec<u64>))
    ensures
        r.0 == advance(rng, count as nat),
        r.1@ == random_spec(rng, count as nat),
        forall|i: int| 0 <= i < count ==> #[trigger] r.1@[i] < ONE_BITS,
{
    let mut st = rng;
    let mut a: Vec<u64> = Vec::new();
    let mut i: u32 = 0;
    while i < count
        invariant
            i <= count,
            st == advance(rng, i as nat),
            a@ == random_spec(rng, i as nat),
            forall|k: int| 0 <= k < i ==> #[trigger] a@[k] < ONE_BITS,
        decreases count - i,
    {
        let (next, val) = taus_get_float(st);
        st = next;
        a.push(val);
        i += 1;
    }
    (st, a)
}

/// Draws `count` integers from `[low, low + gap)`, each as likely as the
/// others. A `gap` of zero is refused.
pub fn integers(rng: GeneratorState, count: u32, low: i64, gap: u32) -> (r: Result<
    (GeneratorState, Vec<i64>),
    SamplingError,
>)
    requires
        low + gap - 1 <= i64::MAX,
    ensures
        gap == 0 <==> r is Err,
        r matches Err(e) ==> e == SamplingError::InvalidArgument,
        r matches Ok(drawn) ==> {
            &&& (drawn.0, drawn.1@) == integers_spec(rng, count as nat, low, gap)
            &&& drawn.1@.len() == count
            &&& forall|i: int| 0 <= i < count ==> low <= #[trigger] drawn.1@[i] < low + gap
        },
{
    if gap == 0 {
        return Err(SamplingError::InvalidArgument);
    }
    let mut st = rng;
    let mut a: Vec<i64> = Vec::new();
    let mut i: u32 = 0;
    while i < count
        invariant
            i <= count,
            gap >= 1,
            low + gap - 1 <= i64::MAX,
            (st, a@) == integers_spec(rng, i as nat, low, gap),
        decreases count - i,
    {
        let (next, k) = draw_below(st, gap);
        st = next;
        a.push(k as i64 + low);
        i += 1;
    }
    proof {
        lemma_integers_in_interval(rng, count as nat, low, gap);
    }
    Ok((st, a))
}

} // verus!
