//! The states of a background job, as they are stored.

use vstd::prelude::*;

verus! {

/// Waiting to be run.
pub const PENDING: &'static str = "pending";

/// Being run.
pub const RUNNING: &'static str = "running";

/// Done.
pub const COMPLETED: &'static str = "completed";

/// Given up.
pub const FAILED: &'static str = "failed";

/// Waiting for the next attempt.
pub const RETRYING: &'static str = "retrying";

/// Given up because its state could not be stored.
pub const FATAL: &'static str = "fatal";

} // verus!
