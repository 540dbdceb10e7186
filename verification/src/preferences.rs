//! The visibility policy a display surface supplies.
//!
//! Three booleans decide what is shown, never what is stored: whether
//! deferred (threshold in the future), done, and hidden tasks appear.

use vstd::prelude::*;

verus! {

#[derive(Clone, Copy, Debug, PartialEq, Eq, Structural)]
pub struct Preferences {
    pub defered: bool,
    pub done: bool,
    pub hidden: bool,
}

impl Preferences {
    /// Everything off: deferred, done and hidden tasks stay out of view.
    pub fn new() -> (r: Preferences)
        ensures
            !r.defered && !r.done && !r.hidden,
    {
        Preferences { defered: false, done: false, hidden: false }
    }
}

impl Default for Preferences {
    fn default() -> (r: Preferences)
        ensures
            !r.defered && !r.done && !r.hidden,
    {
        Preferences { defered: false, done: false, hidden: false }
    }
}

} // verus!
