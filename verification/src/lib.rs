//! A deterministic pseudo-random number engine: a combined three-register
//! Tausworthe generator, and samplers built on it.
//!
//! Every operation is a pure function from a [`GeneratorState`] and its
//! parameters to the next state and a result, and its contract equates both
//! with a specification function of the arguments: the same state and the
//! same calls give the same results.
//!
//! - [`generator`]: the registers, one draw, seeding.
//! - [`recurrence`]: why the top bit of the output cannot stay set for long,
//!   which is why rejection sampling ends.
//! - [`uniform`]: uniform integers below a bound.
//! - [`samplers`]: numbers in `[0, 1)` and integers in an interval.
//! - [`shuffle`]: random permutations.
//! - [`choice`]: samples with and without replacement.
//! - [`alias`] and [`discrete`]: alias tables, how the buckets of one are
//!   paired, and sampling from one.
//! - [`rounding`] and [`fraction`]: double precision numbers in whole-number
//!   terms, for the samplers that scale an output by a count or compare it
//!   with a cutoff.
//! - [`envelope`]: the samplers on integers as functions from bytes to bytes.

pub mod alias;
pub mod choice;
pub mod discrete;
pub mod envelope;
pub mod error;
pub mod fraction;
pub mod generator;
pub mod recurrence;
pub mod rounding;
pub mod samplers;
pub mod shuffle;
pub mod uniform;

pub use alias::{AliasBuilder, Level, Pairing};
pub use choice::{choice, takes_candidate};
pub use discrete::{discrete, AliasTable};
pub use envelope::{
    choice_fn, gen_rng_fn, integers_fn, shuffle_fn, try_choice_fn, try_gen_rng_fn, try_integers_fn,
    try_shuffle_fn,
};
pub use error::SamplingError;
pub use fraction::{fraction_bits_of, is_below_cutoff};
pub use generator::{taus_get, taus_set, tausworthe, GeneratorState};
pub use rounding::round_product;
pub use samplers::{integers, random, taus_get_float};
pub use shuffle::shuffle;
pub use uniform::uniform_int;
