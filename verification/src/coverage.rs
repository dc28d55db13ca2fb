//! Per-line branch coverage: covered paths, total paths, and their ratio.

use vstd::prelude::*;

verus! {

/// How many of a line's branch paths were taken, out of how many, with the
/// ratio in hundredths of a percent.
#[derive(Clone, Copy, PartialEq, Eq, Structural, Debug)]
pub struct Coverage {
    pub covered: u32,
    pub total: u32,
    pub pct: u32,
}

impl View for Coverage {
    type V = Coverage;

    open spec fn view(&self) -> Coverage {
        *self
    }
}

impl Coverage {
    pub fn new(covered: u32, total: u32, pct: u32) -> (c: Coverage)
        ensures
            c == (Coverage { covered, total, pct }),
    {
        Coverage { covered, total, pct }
    }
}

} // verus!
