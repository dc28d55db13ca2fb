//! Per-category totals and the summary snapshot they compose into.

use vstd::prelude::*;

verus! {

/// One coverage category's totals: how many constructs there are, how many
/// were hit, how many were skipped (always zero here), and the covered
/// ratio in hundredths of a percent.
#[derive(Clone, Copy, PartialEq, Eq, Structural, Debug)]
pub struct Totals {
    pub total: u32,
    pub covered: u32,
    pub skipped: u32,
    pub pct: u32,
}

impl Totals {
    pub fn new(total: u32, covered: u32, skipped: u32, pct: u32) -> (t: Totals)
        ensures
            t == (Totals { total, covered, skipped, pct }),
    {
        Totals { total, covered, skipped, pct }
    }
}

/// A pure snapshot of one file's totals per category. Branch-truthiness
/// totals are present exactly when the record tracks them.
#[derive(Clone, Debug, PartialEq)]
pub struct CoverageSummary {
    pub lines: Totals,
    pub statements: Totals,
    pub functions: Totals,
    pub branches: Totals,
    pub branches_true: Option<Totals>,
}

impl CoverageSummary {
    pub fn new(
        line: Totals,
        statement: Totals,
        function: Totals,
        branches: Totals,
        branches_true: Option<Totals>,
    ) -> (s: CoverageSummary)
        ensures
            s.lines == line,
            s.statements == statement,
            s.functions == function,
            s.branches == branches,
            s.branches_true == branches_true,
    {
        CoverageSummary {
            lines: line,
            statements: statement,
            functions: function,
            branches,
            branches_true,
        }
    }
}

} // verus!
