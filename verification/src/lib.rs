//! Work-session tracking core: assembles sessions from timestamped activity
//! events, splits a tracked day proportionally into contiguous time blocks
//! inside a configured workday window, and drives an idempotent, resumable
//! synchronization of those blocks to an external time-tracking service.

pub mod clock;
pub mod parser;
pub mod posting;
pub mod view;
pub mod spinner;
pub mod store;
pub mod sync;
pub mod text;

use vstd::prelude::*;

verus! {

/// Default idle threshold, in minutes, used when no configuration is present.
pub fn default_idle_timeout_minutes() -> (r: u64)
    ensures
        r == 15,
{
    15
}

} // verus!
