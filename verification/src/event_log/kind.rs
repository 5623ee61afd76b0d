//! The kinds of events that are logged.

use vstd::prelude::*;

verus! {

/// A belief was doubted, or its confidence changed.
pub const BELIEF_REVISED: &'static str = "belief-revised";

/// A record was marked superseded.
pub const DECISION_SUPERSEDED: &'static str = "decision-superseded";

/// An error got a fix.
pub const ERROR_FIXED: &'static str = "error-fixed";

/// A checkpoint was written.
pub const CHECKPOINT_WRITTEN: &'static str = "checkpoint-written";

} // verus!
