//! Potentials that need no state of their own.

use vstd::prelude::*;

verus! {

/// The potential under which no particle acts on another: it adds no
/// force, no energy and no virial.
#[derive(Debug, Default, Clone, Copy)]
pub struct NoInteraction;

} // verus!
