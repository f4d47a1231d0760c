//! The error the engine reports instead of aborting.

use vstd::prelude::*;

verus! {

/// An agent broke the request protocol: it entered or exited without a
/// matching accepted entry, or resubmitted for a turn different from the one
/// it is already accepted for.
#[derive(Clone, Copy, PartialEq, Eq, Structural, Debug)]
pub struct ConsistencyViolation;

} // verus!
