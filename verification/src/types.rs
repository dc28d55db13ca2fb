//! The descriptors a coverage record holds, and their identity keys.
//!
//! A statement descriptor is a bare `Range`. A function descriptor carries a
//! name, a declared line, and its ranges; only its range is its identity. A
//! branch descriptor carries a kind, an ordered non-empty list of per-path
//! locations, and either an explicit line or a fallback range; its identity
//! is the location of its first path alone.

use vstd::prelude::*;

use crate::deep_clone::DeepClone;
use crate::indexed_map::IndexedMap;
use crate::range::Range;

verus! {

/// A descriptor that can take part in an identity-keyed merge.
///
/// `key_of` names the identity key of a descriptor's view; `key_ok` says
/// when that key is defined (a branch needs at least one path location).
pub trait Descriptor: View + Sized {
    spec fn key_ok(v: Self::V) -> bool;

    spec fn key_of(v: Self::V) -> Range;

    /// The identity key of this descriptor.
    fn identity_key(&self) -> (k: Range)
        requires
            Self::key_ok(self@),
        ensures
            k == Self::key_of(self@),
    ;
}

impl View for Range {
    type V = Range;

    open spec fn view(&self) -> Range {
        *self
    }
}

impl Descriptor for Range {
    open spec fn key_ok(v: Range) -> bool {
        true
    }

    open spec fn key_of(v: Range) -> Range {
        v
    }

    fn identity_key(&self) -> (k: Range) {
        *self
    }
}

impl DeepClone for Range {
    fn deep_clone(&self) -> (r: Range)
        ensures
            r@ == self@,
    {
        *self
    }
}

/// The kind of construct a branch descriptor was recorded for.
#[derive(Clone, Copy, PartialEq, Eq, Structural, Debug)]
pub enum BranchType {
    If,
    BinaryExpr,
    CondExpr,
    Switch,
    DefaultArg,
}

/// The view of a `Function`.
#[verifier::ext_equal]
pub struct FunctionV {
    pub name: Seq<char>,
    pub line: u32,
    pub loc: Range,
    pub decl: Range,
}

/// A function descriptor: a name (informational only, not part of the
/// identity), the declared line, the declaration's range `loc`, and the
/// `decl` range. The identity key is `loc` alone.
#[derive(Clone, Debug, PartialEq)]
pub struct Function {
    pub name: String,
    pub line: u32,
    pub loc: Range,
    pub decl: Range,
}

impl View for Function {
    type V = FunctionV;

    open spec fn view(&self) -> FunctionV {
        FunctionV { name: self.name@, line: self.line, loc: self.loc, decl: self.decl }
    }
}

impl Descriptor for Function {
    open spec fn key_ok(v: FunctionV) -> bool {
        true
    }

    open spec fn key_of(v: FunctionV) -> Range {
        v.loc
    }

    fn identity_key(&self) -> (k: Range) {
        self.loc
    }
}

impl DeepClone for Function {
    fn deep_clone(&self) -> (r: Function)
        ensures
            r@ == self@,
    {
        Function { name: self.name.clone(), line: self.line, loc: self.loc, decl: self.decl }
    }
}

/// The view of a `Branch`.
#[verifier::ext_equal]
pub struct BranchV {
    pub branch_type: BranchType,
    pub line: Option<u32>,
    pub loc: Option<Range>,
    pub locations: Seq<Range>,
}

/// A branch descriptor: its kind, an optional explicit line, an optional
/// fallback range, and the ordered list of per-path locations. The identity
/// key is the first path location alone.
#[derive(Clone, Debug, PartialEq)]
pub struct Branch {
    pub branch_type: BranchType,
    pub line: Option<u32>,
    pub loc: Option<Range>,
    pub locations: Vec<Range>,
}

impl View for Branch {
    type V = BranchV;

    open spec fn view(&self) -> BranchV {
        BranchV {
            branch_type: self.branch_type,
            line: self.line,
            loc: self.loc,
            locations: self.locations@,
        }
    }
}

impl Branch {
    /// A branch recorded with an explicit line.
    pub fn from_line(branch_type: BranchType, line: u32, locations: Vec<Range>) -> (b: Branch)
        ensures
            b@ == (BranchV {
                branch_type,
                line: Some(line),
                loc: None,
                locations: locations@,
            }),
    {
        Branch { branch_type, line: Some(line), loc: None, locations }
    }

    /// A branch recorded with a fallback range instead of a line.
    pub fn from_loc(branch_type: BranchType, loc: Range, locations: Vec<Range>) -> (b: Branch)
        ensures
            b@ == (BranchV {
                branch_type,
                line: None,
                loc: Some(loc),
                locations: locations@,
            }),
    {
        Branch { branch_type, line: None, loc: Some(loc), locations }
    }
}

impl Descriptor for Branch {
    open spec fn key_ok(v: BranchV) -> bool {
        v.locations.len() > 0
    }

    open spec fn key_of(v: BranchV) -> Range {
        v.locations[0]
    }

    fn identity_key(&self) -> (k: Range) {
        self.locations[0]
    }
}

impl DeepClone for Branch {
    fn deep_clone(&self) -> (r: Branch)
        ensures
            r@ == self@,
    {
        let n = self.locations.len();
        let mut locations: Vec<Range> = Vec::new();
        let mut i: usize = 0;
        while i < n
            invariant
                0 <= i <= n,
                n == self.locations@.len(),
                locations@ =~= self.locations@.take(i as int),
            decreases n - i,
        {
            locations.push(self.locations[i]);
            i = i + 1;
        }
        assert(locations@ =~= self.locations@);
        let r = Branch { branch_type: self.branch_type, line: self.line, loc: self.loc, locations };
        assert(r@ =~= self@);
        r
    }
}

/// Statement descriptors, keyed by statement index.
pub type StatementMap = IndexedMap<Range>;

/// Function descriptors, keyed by function index.
pub type FunctionMap = IndexedMap<Function>;

/// Branch descriptors, keyed by branch index.
pub type BranchMap = IndexedMap<Branch>;

/// Scalar hit counts, keyed like the matching descriptor map (or, for a
/// line-coverage view, keyed by source line).
pub type LineHitMap = IndexedMap<u32>;

/// Per-path hit counts of each branch, keyed like the branch map.
pub type BranchHitMap = IndexedMap<Vec<u32>>;

/// Per-line branch coverage, keyed by source line.
pub type BranchCoverageMap = IndexedMap<crate::coverage::Coverage>;

} // verus!
