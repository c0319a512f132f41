//! The ways in which a sampler refuses its arguments.

use vstd::prelude::*;

verus! {

/// Why a sampler did not draw.
#[derive(Clone, Copy, Debug, PartialEq, Eq, Structural)]
pub enum SamplingError {
    /// A modulus or an interval width of zero was given where a positive one is needed.
    InvalidArgument,
}

} // verus!
