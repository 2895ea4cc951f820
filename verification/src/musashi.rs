//! The handle of the 68000 emulation core.
use vstd::prelude::*;

verus! {

/// The 68000 core; it keeps no state of its own yet.
pub struct Musashi {
    pub dummy: i32,
}

impl Musashi {
    /// Prepares the core; there is nothing to set up yet.
    pub fn init() {
    }
}

} // verus!
