//! Processes as the scanner sees them.
use vstd::prelude::*;

verus! {

/// A running process: its id, its parent's id and its executable name.
pub struct Proc {
    pub pid: u32,
    pub parent: u32,
    pub name: String,
}

} // verus!
