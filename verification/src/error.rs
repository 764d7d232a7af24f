//! The one way an operation can fail.

use vstd::prelude::*;

verus! {

/// The shapes handed to an operation do not fit together.
#[derive(Clone, Copy, Debug, PartialEq, Eq, Structural)]
pub struct DimensionMismatch;

} // verus!
