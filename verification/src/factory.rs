//! What a drone factory does when its build timer runs out.
//!
//! The timer itself counts seconds and is the front end's; the decision it
//! triggers is made here, from how many of the factory's drones are alive and
//! how many open cells it has beside it to put a new one down on.

use vstd::prelude::*;

verus! {

/// Most drones one factory keeps alive at once.
pub const LIVE_CAP: usize = 6;

/// What a factory whose build timer has run out does this tick.
#[derive(Clone, Copy, Debug, PartialEq, Eq, Structural)]
pub enum BuildStep {
    /// As many of its drones are alive as it may have; it checks again
    /// shortly.
    AtCapacity,
    /// No open cell beside it to put a drone down on; it waits a full
    /// interval.
    Blocked,
    /// It builds a drone on one of its open neighbours and waits a full
    /// interval.
    Build,
}

/// The build decision for a factory with `live` drones alive and `doors` open
/// cells beside it. The cap is checked first: a factory at its cap does not
/// look for a door.
pub fn build_step(live: usize, doors: usize) -> (r: BuildStep)
    ensures
        r == (if live >= LIVE_CAP {
            BuildStep::AtCapacity
        } else if doors == 0 {
            BuildStep::Blocked
        } else {
            BuildStep::Build
        }),
{
    if live >= LIVE_CAP {
        BuildStep::AtCapacity
    } else if doors == 0 {
        BuildStep::Blocked
    } else {
        BuildStep::Build
    }
}

} // verus!
