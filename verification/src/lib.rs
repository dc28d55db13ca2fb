//! Coverage data model and merge engine.
//!
//! Tracks which statements, functions and branches of a source file executed
//! and how often, and reconciles independently produced measurements of the
//! same file into one aggregate. Records are merged by source-location
//! identity rather than by numeric index, so that snapshots whose indices
//! were assigned independently still combine soundly.

pub mod coverage;
pub mod coverage_summary;
pub mod deep_clone;
pub mod file_coverage;
pub mod indexed_map;
pub mod keyed_merge;
pub mod merge_laws;
pub mod percent;
pub mod range;
pub mod types;

pub use coverage::Coverage;
pub use coverage_summary::{CoverageSummary, Totals};
pub use file_coverage::FileCoverage;
pub use indexed_map::IndexedMap;
pub use percent::percent;
pub use range::{Location, Range};
pub use types::{
    Branch, BranchCoverageMap, BranchHitMap, BranchMap, BranchType, Function, FunctionMap,
    LineHitMap, StatementMap,
};
