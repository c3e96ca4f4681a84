//! Property accumulators that need no state of their own.

use vstd::prelude::*;

verus! {

/// The accumulator that tracks nothing, for runs in `D` dimensions in
/// which no property is wanted.
#[derive(Debug, Default, Clone, Copy)]
pub struct TrivialProps<const D: usize>;

} // verus!
