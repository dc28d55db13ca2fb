//! The source-location model: points and half-open ranges.
//!
//! A `Range` is the identity basis for coverage descriptors: two descriptors
//! denote the same construct exactly when their defining ranges are equal.

use vstd::prelude::*;

verus! {

/// A point in a source file: a 1-based line and a 0-based column.
#[derive(Clone, Copy, PartialEq, Eq, Structural, Debug)]
pub struct Location {
    pub line: u32,
    pub column: u32,
}

impl Location {
    pub fn new(line: u32, column: u32) -> (r: Location)
        ensures
            r.line == line,
            r.column == column,
    {
        Location { line, column }
    }
}

/// A half-open span of source text. Equality is structural: all four
/// numbers equal. This equality is the identity key of the merge engine.
#[derive(Clone, Copy, PartialEq, Eq, Structural, Debug)]
pub struct Range {
    pub start: Location,
    pub end: Location,
}

impl Range {
    pub fn new(start_line: u32, start_column: u32, end_line: u32, end_column: u32) -> (r: Range)
        ensures
            r.start.line == start_line,
            r.start.column == start_column,
            r.end.line == end_line,
            r.end.column == end_column,
    {
        Range {
            start: Location { line: start_line, column: start_column },
            end: Location { line: end_line, column: end_column },
        }
    }
}

impl Default for Range {
    /// The zero range, used for unset descriptor fields.
    fn default() -> (r: Range)
        ensures
            r == (Range {
                start: Location { line: 0, column: 0 },
                end: Location { line: 0, column: 0 },
            }),
    {
        Range {
            start: Location { line: 0, column: 0 },
            end: Location { line: 0, column: 0 },
        }
    }
}

} // verus!
