//! One file's coverage record and the operations on it.
//!
//! A `FileCoverage` owns the descriptor maps and hit maps for one source
//! file, plus the full-coverage placeholder flag `all`. It can merge another
//! record for the same file into itself by source-location identity, zero
//! its counts in place, and derive read-only views: line coverage, uncovered
//! lines, per-line branch coverage, and a summary of totals.

use vstd::prelude::*;

use crate::coverage::Coverage;
use crate::coverage_summary::{CoverageSummary, Totals};
use crate::deep_clone::DeepClone;
use crate::indexed_map::{
    distinct_keys, first_idx, has_key, lemma_first_idx, lemma_upsert_distinct, spec_get, upsert,
    IndexedMap,
};
use crate::keyed_merge::{
    ecount, edistinct, ehas, eidx, elast, esum, fold_add, fold_repl, lemma_eidx, lemma_eidx_unique,
    lemma_elast_absent, lemma_esum_int_nonneg, lemma_esum_int_take, lemma_esum_vec_nonneg,
    lemma_esum_vec_take, lemma_fold_add_counts, lemma_fold_add_keys, lemma_fold_add_len,
    lemma_fold_add_push, lemma_fold_repl_ecount, lemma_fold_repl_keys, lemma_fold_repl_len,
    lemma_fold_repl_push, lemma_plus_int_props, lemma_plus_vec_props, lemma_seed_counts,
    lemma_vget_vsum, vcounts_within,
    merge_entries, plus_int, plus_vec, seed, upsert_add, upsert_repl, vget, vsum, zero_vec,
};
use crate::percent::{percent, spec_percent};
use crate::range::Range;
use crate::types::{
    Branch, BranchCoverageMap, BranchHitMap, BranchMap, BranchV, Descriptor, Function, FunctionMap,
    FunctionV, LineHitMap, StatementMap,
};

verus! {

/// The view of a `FileCoverage`: every map as its entry sequence.
#[verifier::ext_equal]
pub struct FileCoverageV {
    pub all: bool,
    pub path: Seq<char>,
    pub statement_map: Seq<(u32, Range)>,
    pub fn_map: Seq<(u32, FunctionV)>,
    pub branch_map: Seq<(u32, BranchV)>,
    pub s: Seq<(u32, u32)>,
    pub f: Seq<(u32, u32)>,
    pub b: Seq<(u32, Seq<u32>)>,
    pub b_t: Option<Seq<(u32, Seq<u32>)>>,
}

/// One file's coverage record: descriptor maps, hit maps keyed alike, the
/// full-coverage placeholder flag, and the optional branch-truthiness hit
/// map for logical-expression short-circuit tracking.
#[derive(Clone, Debug, PartialEq)]
pub struct FileCoverage {
    pub all: bool,
    pub path: String,
    pub statement_map: StatementMap,
    pub fn_map: FunctionMap,
    pub branch_map: BranchMap,
    pub s: LineHitMap,
    pub f: LineHitMap,
    pub b: BranchHitMap,
    pub b_t: Option<BranchHitMap>,
}

impl View for FileCoverage {
    type V = FileCoverageV;

    open spec fn view(&self) -> FileCoverageV {
        FileCoverageV {
            all: self.all,
            path: self.path@,
            statement_map: self.statement_map@,
            fn_map: self.fn_map@,
            branch_map: self.branch_map@,
            s: self.s@,
            f: self.f@,
            b: self.b@,
            b_t: match self.b_t {
                Some(m) => Some(m@),
                None => None,
            },
        }
    }
}

/// The identity key of a descriptor's view, as one function value.
pub open spec fn key_fn<T: Descriptor>() -> spec_fn(T::V) -> Range {
    |v: T::V| T::key_of(v)
}

/// Scalar hit entries paired with their descriptors: for each hit-map entry,
/// the descriptor's identity key, the count, and the descriptor itself.
pub open spec fn paired<IV>(
    hits: Seq<(u32, u32)>,
    descs: Seq<(u32, IV)>,
    kf: spec_fn(IV) -> Range,
) -> Seq<(Range, int, IV)> {
    hits.map(|i: int, e: (u32, u32)| (kf(spec_get(descs, e.0)), e.1 as int, spec_get(descs, e.0)))
}

/// A count list widened to mathematical integers.
pub open spec fn ints(s: Seq<u32>) -> Seq<int> {
    s.map(|i: int, c: u32| c as int)
}

/// A count list narrowed back to `u32`.
pub open spec fn u32s(s: Seq<int>) -> Seq<u32> {
    s.map(|i: int, c: int| c as u32)
}

/// Per-path hit entries paired with their branch descriptors.
pub open spec fn paired_vec(hits: Seq<(u32, Seq<u32>)>, descs: Seq<(u32, BranchV)>) -> Seq<
    (Range, Seq<int>, BranchV),
> {
    hits.map(
        |i: int, e: (u32, Seq<u32>)|
            (key_fn::<Branch>()(spec_get(descs, e.0)), ints(e.1), spec_get(descs, e.0)),
    )
}

/// Every key of a hit map has a matching descriptor.
pub open spec fn keys_covered<H, IV>(hits: Seq<(u32, H)>, descs: Seq<(u32, IV)>) -> bool {
    forall|i: int| 0 <= i < hits.len() ==> has_key(descs, #[trigger] hits[i].0)
}

/// Every branch descriptor a hit map refers to has at least one path
/// location, so its identity key is defined.
pub open spec fn branch_keys_ok<H>(hits: Seq<(u32, H)>, descs: Seq<(u32, BranchV)>) -> bool {
    forall|i: int|
        0 <= i < hits.len() ==> spec_get(descs, #[trigger] hits[i].0).locations.len() > 0
}

/// The merged working entries rendered back into a hit map: dense fresh
/// indices from zero, in working order.
pub open spec fn reindexed_hits<IV>(m: Seq<(Range, int, IV)>) -> Seq<(u32, u32)> {
    Seq::new(m.len(), |i: int| (i as u32, m[i].1 as u32))
}

/// The merged working entries rendered back into a descriptor map.
pub open spec fn reindexed_descs<C, IV>(m: Seq<(Range, C, IV)>) -> Seq<(u32, IV)> {
    Seq::new(m.len(), |i: int| (i as u32, m[i].2))
}

/// The merged per-path working entries rendered back into a hit map.
pub open spec fn reindexed_vec_hits(m: Seq<(Range, Seq<int>, BranchV)>) -> Seq<(u32, Seq<u32>)> {
    Seq::new(m.len(), |i: int| (i as u32, u32s(m[i].1)))
}

/// The statement hit entries of a record, paired with their ranges.
pub open spec fn stmt_entries(v: FileCoverageV) -> Seq<(Range, int, Range)> {
    paired(v.s, v.statement_map, key_fn::<Range>())
}

/// The function hit entries of a record, paired with their descriptors.
pub open spec fn fn_entries(v: FileCoverageV) -> Seq<(Range, int, FunctionV)> {
    paired(v.f, v.fn_map, key_fn::<Function>())
}

/// The branch hit entries of a record, paired with their descriptors.
pub open spec fn branch_entries(v: FileCoverageV) -> Seq<(Range, Seq<int>, BranchV)> {
    paired_vec(v.b, v.branch_map)
}

/// Each hit map's keys have descriptors, every referenced branch descriptor
/// has an identity key, and each map's own keys are unique.
pub open spec fn links_ok(v: FileCoverageV) -> bool {
    &&& keys_covered(v.s, v.statement_map)
    &&& keys_covered(v.f, v.fn_map)
    &&& keys_covered(v.b, v.branch_map)
    &&& branch_keys_ok(v.b, v.branch_map)
    &&& distinct_keys(v.statement_map)
    &&& distinct_keys(v.fn_map)
    &&& distinct_keys(v.branch_map)
    &&& distinct_keys(v.s)
    &&& distinct_keys(v.f)
    &&& distinct_keys(v.b)
}

/// The merged branch working entries of two records; the truthiness hit
/// map is keyed against the descriptor map these entries are rendered into.
pub open spec fn merged_branch(a: FileCoverageV, o: FileCoverageV) -> Seq<
    (Range, Seq<int>, BranchV),
> {
    merge_entries(branch_entries(a), branch_entries(o), plus_vec())
}

/// What a merge of two detailed records (neither a placeholder) asks of its
/// inputs: every hit key has its descriptor, every referenced branch has an
/// identity key, no summed count overflows, and the merged maps fit their
/// fresh `u32` indices.
#[verifier::opaque]
pub open spec fn merge_ok(a: FileCoverageV, o: FileCoverageV) -> bool {
    &&& keys_covered(a.s, a.statement_map)
    &&& keys_covered(o.s, o.statement_map)
    &&& keys_covered(a.f, a.fn_map)
    &&& keys_covered(o.f, o.fn_map)
    &&& keys_covered(a.b, a.branch_map)
    &&& keys_covered(o.b, o.branch_map)
    &&& branch_keys_ok(a.b, a.branch_map)
    &&& branch_keys_ok(o.b, o.branch_map)
    &&& forall|k: Range|
        elast(stmt_entries(a), k, 0) + esum(stmt_entries(o), k, plus_int(), 0) <= u32::MAX
    &&& forall|k: Range|
        elast(fn_entries(a), k, 0) + esum(fn_entries(o), k, plus_int(), 0) <= u32::MAX
    &&& forall|k: Range, h: int|
        #![trigger vget(vsum(elast(branch_entries(a), k, zero_vec()),
            esum(branch_entries(o), k, plus_vec(), zero_vec())), h)]
        vget(
            vsum(
                elast(branch_entries(a), k, zero_vec()),
                esum(branch_entries(o), k, plus_vec(), zero_vec()),
            ),
            h,
        ) <= u32::MAX
    &&& a.s.len() + o.s.len() <= u32::MAX
    &&& a.f.len() + o.f.len() <= u32::MAX
    &&& a.b.len() + o.b.len() <= u32::MAX
    &&& match (a.b_t, o.b_t) {
        (Some(bt1), Some(bt2)) => {
            let merged_descs = reindexed_descs(merged_branch(a, o));
            &&& keys_covered(bt1, merged_descs)
            &&& keys_covered(bt2, o.branch_map)
            &&& branch_keys_ok(bt1, merged_descs)
            &&& branch_keys_ok(bt2, o.branch_map)
            &&& forall|k: Range, h: int|
                #![trigger vget(vsum(elast(paired_vec(bt1, reindexed_descs(merged_branch(a, o))), k, zero_vec()),
                    esum(paired_vec(bt2, o.branch_map), k, plus_vec(), zero_vec())), h)]
                vget(
                    vsum(
                        elast(
                            paired_vec(bt1, reindexed_descs(merged_branch(a, o))),
                            k,
                            zero_vec(),
                        ),
                        esum(paired_vec(bt2, o.branch_map), k, plus_vec(), zero_vec()),
                    ),
                    h,
                ) <= u32::MAX
            &&& bt1.len() + bt2.len() <= u32::MAX
        },
        _ => true,
    }
}

/// What the merge of two detailed records produces: each category's hit and
/// descriptor maps are the identity-keyed merge of the inputs', rendered
/// back with fresh dense indices. The truthiness hit map is merged only
/// when both sides track it — the receiver's own copy keying into the
/// already-merged branch descriptor map — and is otherwise left as it was.
#[verifier::opaque]
pub open spec fn merged_views(a: FileCoverageV, o: FileCoverageV, m: FileCoverageV) -> bool {
    &&& m.all == false
    &&& m.path == a.path
    &&& m.s == reindexed_hits(merge_entries(stmt_entries(a), stmt_entries(o), plus_int()))
    &&& m.statement_map == reindexed_descs(
        merge_entries(stmt_entries(a), stmt_entries(o), plus_int()),
    )
    &&& m.f == reindexed_hits(merge_entries(fn_entries(a), fn_entries(o), plus_int()))
    &&& m.fn_map == reindexed_descs(merge_entries(fn_entries(a), fn_entries(o), plus_int()))
    &&& m.b == reindexed_vec_hits(merged_branch(a, o))
    &&& m.branch_map == reindexed_descs(merged_branch(a, o))
    &&& match (a.b_t, o.b_t) {
        (Some(bt1), Some(bt2)) => m.b_t == Some(
            reindexed_vec_hits(
                merge_entries(
                    paired_vec(bt1, reindexed_descs(merged_branch(a, o))),
                    paired_vec(bt2, o.branch_map),
                    plus_vec(),
                ),
            ),
        ),
        _ => m.b_t == a.b_t,
    }
}

/// What one statement does to the line-coverage map: its start line keeps
/// the largest count seen, and a new line is appended.
pub open spec fn upsert_max(m: Seq<(u32, u32)>, line: u32, c: u32) -> Seq<(u32, u32)> {
    if !has_key(m, line) {
        m.push((line, c))
    } else if spec_get(m, line) < c {
        upsert(m, line, c)
    } else {
        m
    }
}

/// The line-coverage map of a statement hit map: source line to the largest
/// hit count among the statements starting on it, lines in first-statement
/// order.
pub open spec fn line_cov(s: Seq<(u32, u32)>, descs: Seq<(u32, Range)>) -> Seq<(u32, u32)>
    decreases s.len(),
{
    if s.len() == 0 {
        Seq::empty()
    } else {
        upsert_max(
            line_cov(s.drop_last(), descs),
            spec_get(descs, s.last().0).start.line,
            s.last().1,
        )
    }
}

/// Line coverage never has more lines than statements.
pub proof fn lemma_line_cov_len(s: Seq<(u32, u32)>, descs: Seq<(u32, Range)>)
    ensures
        line_cov(s, descs).len() <= s.len(),
    decreases s.len(),
{
    if s.len() > 0 {
        lemma_line_cov_len(s.drop_last(), descs);
        let prev = line_cov(s.drop_last(), descs);
        let line = spec_get(descs, s.last().0).start.line;
        if has_key(prev, line) && spec_get(prev, line) < s.last().1 {
            crate::indexed_map::lemma_first_idx(prev, line);
        }
    }
}

/// The lines of a line-coverage map whose count is exactly zero, in order.
pub open spec fn zero_lines(lc: Seq<(u32, u32)>) -> Seq<u32>
    decreases lc.len(),
{
    if lc.len() == 0 {
        Seq::empty()
    } else {
        zero_lines(lc.drop_last()) + if lc.last().1 == 0 {
            seq![lc.last().0]
        } else {
            Seq::empty()
        }
    }
}

/// Whether a branch descriptor can be placed on a line at all.
pub open spec fn branch_line_ok(bv: BranchV) -> bool {
    match (bv.line, bv.loc) {
        (None, None) => false,
        _ => true,
    }
}

/// The line a branch belongs to: its explicit line if set, else the start
/// line of its fallback range.
pub open spec fn branch_line(bv: BranchV) -> u32 {
    match bv.line {
        Some(l) => l,
        None => match bv.loc {
            Some(r) => r.start.line,
            None => 0,
        },
    }
}

/// What one branch does to the per-line buckets: its path counts are
/// appended to its line's bucket, and a new line opens a bucket.
pub open spec fn upsert_concat(m: Seq<(u32, Seq<u32>)>, line: u32, hits: Seq<u32>) -> Seq<
    (u32, Seq<u32>),
> {
    if has_key(m, line) {
        upsert(m, line, spec_get(m, line) + hits)
    } else {
        m.push((line, hits))
    }
}

/// The per-line buckets of all branch path counts, lines in first-branch
/// order; every branch of the descriptor map contributes its whole list.
pub open spec fn prefilter(descs: Seq<(u32, BranchV)>, b: Seq<(u32, Seq<u32>)>) -> Seq<
    (u32, Seq<u32>),
>
    decreases descs.len(),
{
    if descs.len() == 0 {
        Seq::empty()
    } else {
        upsert_concat(
            prefilter(descs.drop_last(), b),
            branch_line(descs.last().1),
            spec_get(b, descs.last().0),
        )
    }
}

/// How many counts of a path-count list are positive.
pub open spec fn vcount_pos(v: Seq<u32>) -> int
    decreases v.len(),
{
    if v.len() == 0 {
        0int
    } else {
        vcount_pos(v.drop_last()) + if v.last() > 0 {
            1int
        } else {
            0int
        }
    }
}

pub proof fn lemma_vcount_pos_le(v: Seq<u32>)
    ensures
        0 <= vcount_pos(v) <= v.len(),
    decreases v.len(),
{
    if v.len() > 0 {
        lemma_vcount_pos_le(v.drop_last());
    }
}

/// The coverage of one line's bucket: positive paths out of all paths.
pub open spec fn coverage_of(v: Seq<u32>) -> Coverage {
    Coverage {
        covered: vcount_pos(v) as u32,
        total: v.len() as u32,
        pct: spec_percent(vcount_pos(v), v.len() as int) as u32,
    }
}

/// Per-line branch coverage: each bucket rendered as a `Coverage`.
pub open spec fn branch_cov_by_line(descs: Seq<(u32, BranchV)>, b: Seq<(u32, Seq<u32>)>) -> Seq<
    (u32, Coverage),
> {
    prefilter(descs, b).map(|i: int, e: (u32, Seq<u32>)| (e.0, coverage_of(e.1)))
}

/// The number of path counts a per-path hit map holds in all.
pub open spec fn total_len(m: Seq<(u32, Seq<u32>)>) -> int
    decreases m.len(),
{
    if m.len() == 0 {
        0int
    } else {
        total_len(m.drop_last()) + m.last().1.len()
    }
}

pub proof fn lemma_total_len_nonneg(m: Seq<(u32, Seq<u32>)>)
    ensures
        total_len(m) >= 0,
    decreases m.len(),
{
    if m.len() > 0 {
        lemma_total_len_nonneg(m.drop_last());
    }
}

/// Replacing one entry's list changes the total by the difference.
pub proof fn lemma_total_len_update(m: Seq<(u32, Seq<u32>)>, i: int, e: (u32, Seq<u32>))
    requires
        0 <= i < m.len(),
    ensures
        total_len(m.update(i, e)) == total_len(m) - m[i].1.len() + e.1.len(),
    decreases m.len(),
{
    if i == m.len() - 1 {
        assert(m.update(i, e).drop_last() =~= m.drop_last());
        assert(m.update(i, e).last() == e);
    } else {
        assert(m.update(i, e).drop_last() =~= m.drop_last().update(i, e));
        assert(m.update(i, e).last() == m.last());
        lemma_total_len_update(m.drop_last(), i, e);
    }
}

/// Appending a bucket's worth of counts grows the total by exactly them.
pub proof fn lemma_total_len_upsert_concat(m: Seq<(u32, Seq<u32>)>, line: u32, hits: Seq<u32>)
    ensures
        total_len(upsert_concat(m, line, hits)) == total_len(m) + hits.len(),
{
    if has_key(m, line) {
        crate::indexed_map::lemma_first_idx(m, line);
        let i = crate::indexed_map::first_idx(m, line);
        lemma_total_len_update(m, i, (line, spec_get(m, line) + hits));
    } else {
        assert(upsert_concat(m, line, hits).drop_last() =~= m);
    }
}

/// No single bucket is larger than the whole map's total.
pub proof fn lemma_bucket_le_total(m: Seq<(u32, Seq<u32>)>, i: int)
    requires
        0 <= i < m.len(),
    ensures
        m[i].1.len() <= total_len(m),
    decreases m.len(),
{
    if i == m.len() - 1 {
        lemma_total_len_nonneg(m.drop_last());
    } else {
        lemma_bucket_le_total(m.drop_last(), i);
        assert(m.drop_last()[i] == m[i]);
    }
}

/// The paths of all branches the descriptor map refers to, counted with
/// multiplicity in descriptor order.
pub open spec fn referenced_paths(descs: Seq<(u32, BranchV)>, b: Seq<(u32, Seq<u32>)>) -> int
    decreases descs.len(),
{
    if descs.len() == 0 {
        0int
    } else {
        referenced_paths(descs.drop_last(), b) + spec_get(b, descs.last().0).len()
    }
}

/// A prefix of the descriptor map refers to no more paths than the whole.
pub proof fn lemma_referenced_paths_mono(descs: Seq<(u32, BranchV)>, b: Seq<(u32, Seq<u32>)>, i: int)
    requires
        0 <= i <= descs.len(),
    ensures
        referenced_paths(descs.take(i), b) <= referenced_paths(descs, b),
    decreases descs.len() - i,
{
    if i == descs.len() {
        assert(descs.take(i) =~= descs);
    } else {
        assert(descs.take(i + 1).drop_last() =~= descs.take(i));
        assert(descs.take(i + 1).last() == descs[i]);
        lemma_referenced_paths_mono(descs, b, i + 1);
    }
}

/// The per-line buckets keep one entry per line.
pub proof fn lemma_prefilter_distinct(descs: Seq<(u32, BranchV)>, b: Seq<(u32, Seq<u32>)>)
    ensures
        distinct_keys(prefilter(descs, b)),
        total_len(prefilter(descs, b)) == referenced_paths(descs, b),
    decreases descs.len(),
{
    if descs.len() == 0 {
    } else {
        lemma_prefilter_distinct(descs.drop_last(), b);
        let prev = prefilter(descs.drop_last(), b);
        let line = branch_line(descs.last().1);
        let hits = spec_get(b, descs.last().0);
        lemma_total_len_upsert_concat(prev, line, hits);
        if has_key(prev, line) {
            crate::indexed_map::lemma_upsert_distinct(prev, line, spec_get(prev, line) + hits);
        } else {
            let t = prev.push((line, hits));
            assert forall|i: int, j: int| 0 <= i < j < t.len() implies t[i].0 != t[j].0 by {
                if j == t.len() - 1 {
                    assert(t[i].0 == prev[i].0);
                    if t[i].0 == line {
                        assert(has_key(prev, line));
                    }
                }
            }
        }
    }
}

/// How many counts of a scalar hit map are positive.
pub open spec fn count_pos(m: Seq<(u32, u32)>) -> int
    decreases m.len(),
{
    if m.len() == 0 {
        0int
    } else {
        count_pos(m.drop_last()) + if m.last().1 > 0 {
            1int
        } else {
            0int
        }
    }
}

pub proof fn lemma_count_pos_le(m: Seq<(u32, u32)>)
    ensures
        0 <= count_pos(m) <= m.len(),
    decreases m.len(),
{
    if m.len() > 0 {
        lemma_count_pos_le(m.drop_last());
    }
}

/// The totals of one scalar category: entries, positive entries, and the
/// covered percentage.
pub open spec fn spec_simple_totals(m: Seq<(u32, u32)>) -> Totals {
    Totals {
        total: m.len() as u32,
        covered: count_pos(m) as u32,
        skipped: 0,
        pct: spec_percent(count_pos(m), m.len() as int) as u32,
    }
}

/// How many path counts of a per-path hit map are positive, over all entries.
pub open spec fn covered_paths(m: Seq<(u32, Seq<u32>)>) -> int
    decreases m.len(),
{
    if m.len() == 0 {
        0int
    } else {
        covered_paths(m.drop_last()) + vcount_pos(m.last().1)
    }
}

pub proof fn lemma_covered_le_total(m: Seq<(u32, Seq<u32>)>)
    ensures
        0 <= covered_paths(m) <= total_len(m),
    decreases m.len(),
{
    if m.len() > 0 {
        lemma_covered_le_total(m.drop_last());
        lemma_vcount_pos_le(m.last().1);
    }
}

/// The branch totals: paths counted per branch, not branches.
pub open spec fn spec_branch_totals(m: Seq<(u32, Seq<u32>)>) -> Totals {
    Totals {
        total: total_len(m) as u32,
        covered: covered_paths(m) as u32,
        skipped: 0,
        pct: spec_percent(covered_paths(m), total_len(m)) as u32,
    }
}

/// The whole summary of a record, at spec level.
pub open spec fn spec_summary(v: FileCoverageV) -> CoverageSummary {
    CoverageSummary {
        lines: spec_simple_totals(line_cov(v.s, v.statement_map)),
        statements: spec_simple_totals(v.s),
        functions: spec_simple_totals(v.f),
        branches: spec_branch_totals(v.b),
        branches_true: match v.b_t {
            Some(bt) => Some(spec_branch_totals(bt)),
            None => None::<Totals>,
        },
    }
}

/// A hit map with every count set to zero, keys and order kept.
pub open spec fn zeroed(m: Seq<(u32, u32)>) -> Seq<(u32, u32)> {
    m.map(|i: int, e: (u32, u32)| (e.0, 0u32))
}

/// A per-path hit map with every count set to zero, keys, order and each
/// list's length kept.
pub open spec fn vzeroed(m: Seq<(u32, Seq<u32>)>) -> Seq<(u32, Seq<u32>)> {
    m.map(|i: int, e: (u32, Seq<u32>)| (e.0, e.1.map(|j: int, c: u32| 0u32)))
}

impl FileCoverage {
    /// A fresh record for `file_path` with empty maps; it tracks branch
    /// truthiness exactly when `report_logic` is set.
    pub fn empty(file_path: String, report_logic: bool) -> (r: FileCoverage)
        ensures
            r@.all == false,
            r@.path == file_path@,
            r@.statement_map.len() == 0,
            r@.fn_map.len() == 0,
            r@.branch_map.len() == 0,
            r@.s.len() == 0,
            r@.f.len() == 0,
            r@.b.len() == 0,
            r@.b_t == if report_logic {
                Some(Seq::<(u32, Seq<u32>)>::empty())
            } else {
                None::<Seq<(u32, Seq<u32>)>>
            },
    {
        FileCoverage {
            all: false,
            path: file_path,
            statement_map: IndexedMap::new(),
            fn_map: IndexedMap::new(),
            branch_map: IndexedMap::new(),
            s: IndexedMap::new(),
            f: IndexedMap::new(),
            b: IndexedMap::new(),
            b_t: if report_logic {
                Some(IndexedMap::new())
            } else {
                None
            },
        }
    }

    /// Same as `empty`.
    pub fn from_file_path(file_path: String, report_logic: bool) -> (r: FileCoverage)
        ensures
            r@.all == false,
            r@.path == file_path@,
            r@.statement_map.len() == 0,
            r@.fn_map.len() == 0,
            r@.branch_map.len() == 0,
            r@.s.len() == 0,
            r@.f.len() == 0,
            r@.b.len() == 0,
            r@.b_t == if report_logic {
                Some(Seq::<(u32, Seq<u32>)>::empty())
            } else {
                None::<Seq<(u32, Seq<u32>)>>
            },
    {
        FileCoverage::empty(file_path, report_logic)
    }

    /// A copy of `coverage` with provably the same view.
    pub fn from_file_coverage(coverage: &FileCoverage) -> (r: FileCoverage)
        ensures
            r@ == coverage@,
    {
        let r = FileCoverage {
            all: coverage.all,
            path: coverage.path.clone(),
            statement_map: coverage.statement_map.deep_clone(),
            fn_map: coverage.fn_map.deep_clone(),
            branch_map: coverage.branch_map.deep_clone(),
            s: coverage.s.deep_clone(),
            f: coverage.f.deep_clone(),
            b: coverage.b.deep_clone(),
            b_t: match &coverage.b_t {
                Some(m) => Some(m.deep_clone()),
                None => None,
            },
        };
        assert(r@ =~= coverage@);
        r
    }

    /// The computed line coverage of this record: a map from source line to
    /// the largest hit count among the statements starting on that line.
    #[verifier::loop_isolation(false)]
    pub fn get_line_coverage(&self) -> (r: LineHitMap)
        requires
            keys_covered(self@.s, self@.statement_map),
        ensures
            r@ == line_cov(self@.s, self@.statement_map),
    {
        let mut line_map: LineHitMap = IndexedMap::new();
        let n = self.s.len();
        let mut i: usize = 0;
        while i < n
            invariant
                0 <= i <= n,
                line_map@ == line_cov(self@.s.take(i as int), self@.statement_map),
            decreases n - i,
        {
            let ghost prev = line_map@;
            let st = self.s.key_at(i);
            let count = *self.s.value_at(i);
            let range = match self.statement_map.get(st) {
                Some(r) => r,
                None => unreached(),
            };
            let line = range.start.line;
            match line_map.get(line) {
                Some(pre_val) => {
                    if *pre_val < count {
                        line_map.insert(line, count);
                    }
                },
                None => {
                    line_map.insert(line, count);
                },
            }
            proof {
                assert(self@.s.take(i as int + 1).drop_last() =~= self@.s.take(i as int));
                assert(self@.s.take(i as int + 1).last() == self@.s[i as int]);
                assert(line_map@ == upsert_max(prev, line, count));
            }
            i = i + 1;
        }
        proof {
            assert(self@.s.take(n as int) =~= self@.s);
        }
        line_map
    }

    /// The source lines whose line coverage is exactly zero, in line-map
    /// order.
    #[verifier::loop_isolation(false)]
    pub fn get_uncovered_lines(&self) -> (r: Vec<u32>)
        requires
            keys_covered(self@.s, self@.statement_map),
        ensures
            r@ == zero_lines(line_cov(self@.s, self@.statement_map)),
    {
        let lc = self.get_line_coverage();
        let mut ret: Vec<u32> = Vec::new();
        let n = lc.len();
        let mut i: usize = 0;
        while i < n
            invariant
                0 <= i <= n,
                ret@ == zero_lines(lc@.take(i as int)),
            decreases n - i,
        {
            let hits = *lc.value_at(i);
            if hits == 0 {
                let l = lc.key_at(i);
                ret.push(l);
            }
            proof {
                assert(lc@.take(i as int + 1).drop_last() =~= lc@.take(i as int));
                assert(lc@.take(i as int + 1).last() == lc@[i as int]);
            }
            i = i + 1;
        }
        proof {
            assert(lc@.take(n as int) =~= lc@);
        }
        ret
    }

    /// Per-line branch coverage: every branch's path counts are pooled into
    /// its line's bucket, and each line reports covered paths, total paths,
    /// and their ratio.
    #[verifier::loop_isolation(false)]
    pub fn get_branch_coverage_by_line(&self) -> (r: BranchCoverageMap)
        requires
            keys_covered(self@.branch_map, self@.b),
            forall|i: int|
                0 <= i < self@.branch_map.len() ==> branch_line_ok(
                    #[trigger] self@.branch_map[i].1,
                ),
            referenced_paths(self@.branch_map, self@.b) <= u32::MAX,
        ensures
            r@ == branch_cov_by_line(self@.branch_map, self@.b),
    {
        let mut prefilter_data: BranchHitMap = IndexedMap::new();
        let n = self.branch_map.len();
        let mut i: usize = 0;
        while i < n
            invariant
                0 <= i <= n,
                prefilter_data@ == prefilter(self@.branch_map.take(i as int), self@.b),
            decreases n - i,
        {
            let ghost prev = prefilter_data@;
            let k = self.branch_map.key_at(i);
            let branch = self.branch_map.value_at(i);
            let line: u32 = match &branch.line {
                Some(l) => *l,
                None => match &branch.loc {
                    Some(r) => r.start.line,
                    None => unreached(),
                },
            };
            let branch_data = match self.b.get(k) {
                Some(d) => d,
                None => unreached(),
            };
            proof {
                assert(line == branch_line(self@.branch_map[i as int].1));
                assert(branch_data@ == spec_get(self@.b, self@.branch_map[i as int].0));
            }
            match prefilter_data.get(line) {
                Some(cur) => {
                    let merged = concat_counts(cur, branch_data);
                    prefilter_data.insert(line, merged);
                },
                None => {
                    prefilter_data.insert(line, branch_data.deep_clone());
                },
            }
            proof {
                assert(self@.branch_map.take(i as int + 1).drop_last() =~= self@.branch_map.take(
                    i as int,
                ));
                assert(self@.branch_map.take(i as int + 1).last() == self@.branch_map[i as int]);
                assert(prefilter_data@ == upsert_concat(
                    prev,
                    line,
                    spec_get(self@.b, self@.branch_map[i as int].0),
                ));
            }
            i = i + 1;
        }
        proof {
            assert(self@.branch_map.take(n as int) =~= self@.branch_map);
        }

        let ghost pf = prefilter(self@.branch_map, self@.b);
        proof {
            lemma_prefilter_distinct(self@.branch_map, self@.b);
        }
        let mut ret: BranchCoverageMap = IndexedMap::new();
        let m = prefilter_data.len();
        let mut j: usize = 0;
        while j < m
            invariant
                0 <= j <= m,
                ret@ == branch_cov_by_line(self@.branch_map, self@.b).take(j as int),
            decreases m - j,
        {
            let ghost ret0 = ret@;
            let line = prefilter_data.key_at(j);
            let data_array = prefilter_data.value_at(j);
            proof {
                lemma_bucket_le_total(pf, j as int);
                lemma_prefilter_distinct(self@.branch_map, self@.b);
            }
            let covered = count_covered(data_array);
            let total = data_array.len() as u32;
            let pct = percent(covered as u32, total);
            let cov = Coverage::new(covered as u32, total, pct);
            proof {
                assert(cov == coverage_of(pf[j as int].1));
                assert forall|t: int| 0 <= t < ret0.len() implies ret0[t].0 != line by {
                    assert(ret0[t].0 == pf[t].0);
                    assert(pf[t].0 != pf[j as int].0);
                }
                assert(!has_key(ret0, line));
            }
            ret.insert(line, cov);
            proof {
                assert(ret@ =~= branch_cov_by_line(self@.branch_map, self@.b).take(j as int + 1));
            }
            j = j + 1;
        }
        proof {
            assert(branch_cov_by_line(self@.branch_map, self@.b).take(m as int)
                =~= branch_cov_by_line(self@.branch_map, self@.b));
        }
        ret
    }

    /// The totals of one scalar map: its entries, those with a positive
    /// count, and the covered percentage.
    #[verifier::loop_isolation(false)]
    pub fn compute_simple_totals(line_map: &LineHitMap) -> (t: Totals)
        requires
            line_map@.len() <= u32::MAX,
        ensures
            t == spec_simple_totals(line_map@),
    {
        let n = line_map.len();
        let mut covered: u32 = 0;
        let mut i: usize = 0;
        while i < n
            invariant
                0 <= i <= n,
                covered as int == count_pos(line_map@.take(i as int)),
                covered <= i,
            decreases n - i,
        {
            let c = *line_map.value_at(i);
            proof {
                assert(line_map@.take(i as int + 1).drop_last() =~= line_map@.take(i as int));
                assert(line_map@.take(i as int + 1).last() == line_map@[i as int]);
            }
            if c > 0 {
                covered = covered + 1;
            }
            i = i + 1;
        }
        proof {
            assert(line_map@.take(n as int) =~= line_map@);
            lemma_count_pos_le(line_map@);
        }
        let total = n as u32;
        let pct = percent(covered, total);
        Totals { total, covered, skipped: 0, pct }
    }

    /// The branch totals: paths counted per branch, not branches — a branch
    /// with three paths contributes three to the total.
    #[verifier::loop_isolation(false)]
    pub fn compute_branch_totals(branch_map: &BranchHitMap) -> (t: Totals)
        requires
            total_len(branch_map@) <= u32::MAX,
        ensures
            t == spec_branch_totals(branch_map@),
    {
        let n = branch_map.len();
        let mut covered: u32 = 0;
        let mut total: u32 = 0;
        let mut i: usize = 0;
        while i < n
            invariant
                0 <= i <= n,
                covered as int == covered_paths(branch_map@.take(i as int)),
                total as int == total_len(branch_map@.take(i as int)),
                covered <= total,
            decreases n - i,
        {
            let v = branch_map.value_at(i);
            proof {
                assert(branch_map@.take(i as int + 1).drop_last() =~= branch_map@.take(i as int));
                assert(branch_map@.take(i as int + 1).last() == branch_map@[i as int]);
                lemma_vcount_pos_le(v@);
                lemma_covered_le_total(branch_map@.take(i as int + 1));
                lemma_total_len_take_le(branch_map@, i as int + 1);
            }
            let c = count_covered(v);
            covered = covered + c as u32;
            total = total + v.len() as u32;
            i = i + 1;
        }
        proof {
            assert(branch_map@.take(n as int) =~= branch_map@);
            lemma_covered_le_total(branch_map@);
        }
        let pct = percent(covered, total);
        Totals { total, covered, skipped: 0, pct }
    }

    /// A pure snapshot of this record's totals per category.
    pub fn to_summary(&self) -> (r: CoverageSummary)
        requires
            keys_covered(self@.s, self@.statement_map),
            self@.s.len() <= u32::MAX,
            self@.f.len() <= u32::MAX,
            total_len(self@.b) <= u32::MAX,
            match self@.b_t {
                Some(bt) => total_len(bt) <= u32::MAX,
                None => true,
            },
        ensures
            r.lines == spec_simple_totals(line_cov(self@.s, self@.statement_map)),
            r.statements == spec_simple_totals(self@.s),
            r.functions == spec_simple_totals(self@.f),
            r.branches == spec_branch_totals(self@.b),
            r.branches_true == match self@.b_t {
                Some(bt) => Some(spec_branch_totals(bt)),
                None => None::<Totals>,
            },
            r == spec_summary(self@),
    {
        let line_coverage = self.get_line_coverage();
        proof {
            lemma_line_cov_len(self@.s, self@.statement_map);
        }
        let line = FileCoverage::compute_simple_totals(&line_coverage);
        let function = FileCoverage::compute_simple_totals(&self.f);
        let statement = FileCoverage::compute_simple_totals(&self.s);
        let branches = FileCoverage::compute_branch_totals(&self.b);
        let branches_true = match &self.b_t {
            Some(bt) => Some(FileCoverage::compute_branch_totals(bt)),
            None => None,
        };
        CoverageSummary::new(line, statement, function, branches, branches_true)
    }

    /// Merges `coverage` into this record by source-location identity.
    ///
    /// An incoming placeholder (`coverage.all`) carries no detail and is
    /// discarded. A placeholder receiver is replaced wholesale by a copy of
    /// `coverage`. Otherwise the statement, function and branch maps are
    /// merged independently, and the branch-truthiness map is merged only
    /// when both records track it, keying the receiver's copy through the
    /// already-merged branch descriptor map.
    pub fn merge(&mut self, coverage: &FileCoverage)
        requires
            !coverage@.all && !old(self)@.all ==> merge_ok(old(self)@, coverage@),
        ensures
            coverage@.all ==> *final(self) == *old(self),
            !coverage@.all && old(self)@.all ==> final(self)@ == coverage@,
            !coverage@.all && !old(self)@.all ==> merged_views(
                old(self)@,
                coverage@,
                final(self)@,
            ),
    {
        proof {
            reveal(merge_ok);
            reveal(merged_views);
        }
        if coverage.all {
            return ;
        }
        if self.all {
            *self = FileCoverage::from_file_coverage(coverage);
            return ;
        }
        let ghost a = old(self)@;
        let ghost o = coverage@;
        proof {
            assert forall|k: Range|
                elast(paired(self.s@, self.statement_map@, key_fn::<Range>()), k, 0) + esum(
                    paired(coverage.s@, coverage.statement_map@, key_fn::<Range>()),
                    k,
                    plus_int(),
                    0,
                ) <= u32::MAX by {
                assert(elast(stmt_entries(a), k, 0) + esum(stmt_entries(o), k, plus_int(), 0)
                    <= u32::MAX);
            }
            assert forall|k: Range|
                elast(paired(self.f@, self.fn_map@, key_fn::<Function>()), k, 0) + esum(
                    paired(coverage.f@, coverage.fn_map@, key_fn::<Function>()),
                    k,
                    plus_int(),
                    0,
                ) <= u32::MAX by {
                assert(elast(fn_entries(a), k, 0) + esum(fn_entries(o), k, plus_int(), 0)
                    <= u32::MAX);
            }
        }

        let (s_merged, sm_merged) = merge_properties::<Range>(
            &self.s,
            &self.statement_map,
            &coverage.s,
            &coverage.statement_map,
        );
        self.s = s_merged;
        self.statement_map = sm_merged;

        let (f_merged, fm_merged) = merge_properties::<Function>(
            &self.f,
            &self.fn_map,
            &coverage.f,
            &coverage.fn_map,
        );
        self.f = f_merged;
        self.fn_map = fm_merged;

        proof {
            assert forall|k: Range, h: int|
                vget(
                    vsum(
                        elast(paired_vec(self.b@, self.branch_map@), k, zero_vec()),
                        esum(
                            paired_vec(coverage.b@, coverage.branch_map@),
                            k,
                            plus_vec(),
                            zero_vec(),
                        ),
                    ),
                    h,
                ) <= u32::MAX by {
                assert(vget(
                    vsum(
                        elast(branch_entries(a), k, zero_vec()),
                        esum(branch_entries(o), k, plus_vec(), zero_vec()),
                    ),
                    h,
                ) <= u32::MAX);
            }
        }
        let (b_merged, bm_merged) = merge_properties_hits_vec(
            &self.b,
            &self.branch_map,
            &coverage.b,
            &coverage.branch_map,
        );
        self.b = b_merged;
        self.branch_map = bm_merged;
        proof {
            assert(self.branch_map@ == reindexed_descs(merged_branch(a, o)));
        }

        let bt_merged: Option<BranchHitMap> = match (&self.b_t, &coverage.b_t) {
            (Some(bt1), Some(bt2)) => Some(
                merge_properties_hits_vec(bt1, &self.branch_map, bt2, &coverage.branch_map).0,
            ),
            _ => None,
        };
        match bt_merged {
            Some(bt) => {
                self.b_t = Some(bt);
            },
            None => {},
        }
    }

    /// Zeroes every count in every hit map in place; the descriptor maps,
    /// the keys, and each per-path list's length are untouched.
    pub fn reset_hits(&mut self)
        ensures
            final(self)@.all == old(self)@.all,
            final(self)@.path == old(self)@.path,
            final(self)@.statement_map == old(self)@.statement_map,
            final(self)@.fn_map == old(self)@.fn_map,
            final(self)@.branch_map == old(self)@.branch_map,
            final(self)@.s == zeroed(old(self)@.s),
            final(self)@.f == zeroed(old(self)@.f),
            final(self)@.b == vzeroed(old(self)@.b),
            final(self)@.b_t == match old(self)@.b_t {
                Some(bt) => Some(vzeroed(bt)),
                None => None::<Seq<(u32, Seq<u32>)>>,
            },
    {
        zero_scalar_map(&mut self.s);
        zero_scalar_map(&mut self.f);
        zero_vec_map(&mut self.b);
        match &mut self.b_t {
            Some(bt) => {
                zero_vec_map(bt);
            },
            None => {},
        }
        assert(final(self)@.b_t == match old(self)@.b_t {
            Some(bt) => Some(vzeroed(bt)),
            None => None::<Seq<(u32, Seq<u32>)>>,
        });
    }
}

/// The scalar working entries of a merge, viewed at spec level.
pub open spec fn wview<T: View>(w: Seq<(Range, u32, T)>) -> Seq<(Range, int, T::V)> {
    w.map(|i: int, e: (Range, u32, T)| (e.0, e.1 as int, e.2@))
}

/// The position of the first working entry with identity key `k`, if any.
fn find_entry<T>(w: &Vec<(Range, u32, T)>, k: Range) -> (r: Option<usize>)
    ensures
        match r {
            Some(i) => 0 <= i < w@.len() && w@[i as int].0 == k && (forall|j: int|
                0 <= j < i ==> w@[j].0 != k),
            None => forall|j: int| 0 <= j < w@.len() ==> w@[j].0 != k,
        },
{
    let n = w.len();
    let mut i: usize = 0;
    while i < n
        invariant
            0 <= i <= n,
            n == w@.len(),
            forall|j: int| 0 <= j < i ==> w@[j].0 != k,
        decreases n - i,
    {
        if w[i].0 == k {
            return Some(i);
        }
        i = i + 1;
    }
    None
}

/// The generic scalar merge: statement or function hit maps and their
/// descriptor maps, merged by the descriptors' identity keys, with fresh
/// dense indices assigned to the result.
#[verifier::loop_isolation(false)]
#[verifier::rlimit(100)]
fn merge_properties<T: Descriptor + DeepClone>(
    first_hits: &LineHitMap,
    first_map: &IndexedMap<T>,
    second_hits: &LineHitMap,
    second_map: &IndexedMap<T>,
) -> (r: (LineHitMap, IndexedMap<T>))
    requires
        keys_covered(first_hits@, first_map@),
        keys_covered(second_hits@, second_map@),
        forall|i: int|
            0 <= i < first_hits@.len() ==> T::key_ok(
                spec_get(first_map@, #[trigger] first_hits@[i].0),
            ),
        forall|i: int|
            0 <= i < second_hits@.len() ==> T::key_ok(
                spec_get(second_map@, #[trigger] second_hits@[i].0),
            ),
        forall|k: Range|
            elast(paired(first_hits@, first_map@, key_fn::<T>()), k, 0) + esum(
                paired(second_hits@, second_map@, key_fn::<T>()),
                k,
                plus_int(),
                0,
            ) <= u32::MAX,
        first_hits@.len() + second_hits@.len() <= u32::MAX,
    ensures
        r.0@ == reindexed_hits(
            merge_entries(
                paired(first_hits@, first_map@, key_fn::<T>()),
                paired(second_hits@, second_map@, key_fn::<T>()),
                plus_int(),
            ),
        ),
        r.1@ == reindexed_descs(
            merge_entries(
                paired(first_hits@, first_map@, key_fn::<T>()),
                paired(second_hits@, second_map@, key_fn::<T>()),
                plus_int(),
            ),
        ),
{
    let ghost a_entries = paired(first_hits@, first_map@, key_fn::<T>());
    let ghost b_entries = paired(second_hits@, second_map@, key_fn::<T>());
    let mut working: Vec<(Range, u32, T)> = Vec::new();

    let n1 = first_hits.len();
    let mut j: usize = 0;
    while j < n1
        invariant
            0 <= j <= n1,
            wview(working@) == fold_repl(Seq::<(Range, int, T::V)>::empty(), a_entries.take(j as int)),
        decreases n1 - j,
    {
        let ghost wv = wview(working@);
        let k = first_hits.key_at(j);
        let c = *first_hits.value_at(j);
        let item = match first_map.get(k) {
            Some(t) => t,
            None => unreached(),
        };
        let rk = item.identity_key();
        proof {
            assert(a_entries[j as int] == (rk, c as int, item@));
        }
        match find_entry(&working, rk) {
            Some(i) => {
                let dup = item.deep_clone();
                working.set(i, (rk, c, dup));
                proof {
                    assert(wv[i as int].0 == rk);
                    assert(ehas(wv, rk));
                    lemma_eidx(wv, rk);
                    assert(eidx(wv, rk) == i);
                    assert(wview(working@) =~= wv.update(i as int, (rk, c as int, item@)));
                    assert(wview(working@) == upsert_repl(wv, a_entries[j as int]));
                }
            },
            None => {
                working.push((rk, c, item.deep_clone()));
                proof {
                    assert(!ehas(wv, rk));
                    assert(wview(working@) =~= wv.push((rk, c as int, item@)));
                    assert(wview(working@) == upsert_repl(wv, a_entries[j as int]));
                }
            },
        }
        proof {
            assert(a_entries.take(j as int + 1) =~= a_entries.take(j as int).push(
                a_entries[j as int],
            ));
            lemma_fold_repl_push(
                Seq::<(Range, int, T::V)>::empty(),
                a_entries.take(j as int),
                a_entries[j as int],
            );
        }
        j = j + 1;
    }

    let ghost x_seed = seed(a_entries);
    proof {
        assert(a_entries.take(n1 as int) =~= a_entries);
        assert(x_seed == fold_repl(Seq::<(Range, int, T::V)>::empty(), a_entries));
        lemma_fold_repl_keys(Seq::<(Range, int, T::V)>::empty(), a_entries);
        lemma_plus_int_props();
        lemma_seed_counts(a_entries, 0);
        assert forall|i: int| 0 <= i < b_entries.len() implies #[trigger] b_entries[i].1 >= 0 by {
            assert(b_entries[i].1 == second_hits@[i].1 as int);
        }
    }

    let n2 = second_hits.len();
    let mut j2: usize = 0;
    while j2 < n2
        invariant
            0 <= j2 <= n2,
            wview(working@) == fold_add(x_seed, b_entries.take(j2 as int), plus_int()),
        decreases n2 - j2,
    {
        let ghost wv = wview(working@);
        proof {
            lemma_fold_add_keys(x_seed, b_entries.take(j2 as int), plus_int());
            assert(edistinct(wv));
        }
        let k = second_hits.key_at(j2);
        let c = *second_hits.value_at(j2);
        let item = match second_map.get(k) {
            Some(t) => t,
            None => unreached(),
        };
        let rk = item.identity_key();
        proof {
            assert(b_entries[j2 as int] == (rk, c as int, item@));
        }
        match find_entry(&working, rk) {
            Some(i) => {
                let cur = working[i].1;
                proof {
                    assert(wv[i as int].0 == rk);
                    assert(ehas(wv, rk));
                    lemma_eidx(wv, rk);
                    assert(eidx(wv, rk) == i);
                    assert(ecount(wv, rk, 0) == cur as int);
                    lemma_fold_add_counts(x_seed, b_entries.take(j2 as int), plus_int(), 0);
                    assert(cur as int == ecount(x_seed, rk, 0) + esum(
                        b_entries.take(j2 as int),
                        rk,
                        plus_int(),
                        0,
                    ));
                    assert(ecount(x_seed, rk, 0) == elast(a_entries, rk, 0));
                    lemma_esum_int_take(b_entries, j2 as int, rk);
                    assert(esum(b_entries.take(j2 as int + 1), rk, plus_int(), 0) <= esum(
                        b_entries,
                        rk,
                        plus_int(),
                        0,
                    ));
                    assert(cur as int + c as int <= elast(a_entries, rk, 0) + esum(
                        b_entries,
                        rk,
                        plus_int(),
                        0,
                    ));
                    assert(cur as int + c as int <= u32::MAX);
                }
                let newc = cur + c;
                let dup = (&working[i].2).deep_clone();
                working.set(i, (rk, newc, dup));
                proof {
                    assert(wview(working@) =~= wv.update(
                        i as int,
                        (rk, wv[i as int].1 + c as int, wv[i as int].2),
                    ));
                    assert(wview(working@) == upsert_add(wv, b_entries[j2 as int], plus_int()));
                }
            },
            None => {
                working.push((rk, c, item.deep_clone()));
                proof {
                    assert(!ehas(wv, rk));
                    assert(wview(working@) =~= wv.push((rk, c as int, item@)));
                    assert(wview(working@) == upsert_add(wv, b_entries[j2 as int], plus_int()));
                }
            },
        }
        proof {
            assert(b_entries.take(j2 as int + 1) =~= b_entries.take(j2 as int).push(
                b_entries[j2 as int],
            ));
            lemma_fold_add_push(x_seed, b_entries.take(j2 as int), b_entries[j2 as int], plus_int());
        }
        j2 = j2 + 1;
    }

    let ghost m_entries = merge_entries(a_entries, b_entries, plus_int());
    proof {
        assert(b_entries.take(n2 as int) =~= b_entries);
        assert(wview(working@) == m_entries);
        lemma_fold_repl_len(Seq::<(Range, int, T::V)>::empty(), a_entries);
        lemma_fold_add_len(x_seed, b_entries, plus_int());
        assert(m_entries.len() <= u32::MAX);
    }

    let mut hits: LineHitMap = IndexedMap::new();
    let mut map: IndexedMap<T> = IndexedMap::new();
    let n = working.len();
    let mut i: usize = 0;
    while i < n
        invariant
            0 <= i <= n,
            hits@ == reindexed_hits(m_entries).take(i as int),
            map@ == reindexed_descs(m_entries).take(i as int),
        decreases n - i,
    {
        let ghost hits0 = hits@;
        let ghost map0 = map@;
        let c = working[i].1;
        let item = (&working[i].2).deep_clone();
        proof {
            assert(m_entries[i as int] == (working@[i as int].0, c as int, working@[i as int].2@));
            assert forall|t: int| 0 <= t < hits0.len() implies hits0[t].0 != i as u32 by {
                assert(hits0[t] == reindexed_hits(m_entries)[t]);
                assert(hits0[t].0 == t as u32);
            }
            assert(!has_key(hits0, i as u32));
            assert forall|t: int| 0 <= t < map0.len() implies map0[t].0 != i as u32 by {
                assert(map0[t] == reindexed_descs(m_entries)[t]);
                assert(map0[t].0 == t as u32);
            }
            assert(!has_key(map0, i as u32));
        }
        hits.insert(i as u32, c);
        map.insert(i as u32, item);
        proof {
            assert(hits@ == hits0.push((i as u32, c)));
            assert(hits@ =~= reindexed_hits(m_entries).take(i as int + 1));
            assert(map@ == map0.push((i as u32, item@)));
            assert(map@ =~= reindexed_descs(m_entries).take(i as int + 1));
        }
        i = i + 1;
    }
    proof {
        assert(hits@ =~= reindexed_hits(m_entries));
        assert(map@ =~= reindexed_descs(m_entries));
    }
    (hits, map)
}

/// The per-path working entries of a branch merge, viewed at spec level.
pub open spec fn wview_vec(w: Seq<(Range, Vec<u32>, Branch)>) -> Seq<(Range, Seq<int>, BranchV)> {
    w.map(|i: int, e: (Range, Vec<u32>, Branch)| (e.0, ints(e.1@), e.2@))
}

/// The position of the first per-path working entry with key `k`, if any.
fn find_entry_vec(w: &Vec<(Range, Vec<u32>, Branch)>, k: Range) -> (r: Option<usize>)
    ensures
        match r {
            Some(i) => 0 <= i < w@.len() && w@[i as int].0 == k && (forall|j: int|
                0 <= j < i ==> w@[j].0 != k),
            None => forall|j: int| 0 <= j < w@.len() ==> w@[j].0 != k,
        },
{
    let n = w.len();
    let mut i: usize = 0;
    while i < n
        invariant
            0 <= i <= n,
            n == w@.len(),
            forall|j: int| 0 <= j < i ==> w@[j].0 != k,
        decreases n - i,
    {
        if w[i].0 == k {
            return Some(i);
        }
        i = i + 1;
    }
    None
}

/// Element-wise addition of an incoming path-count list into the current
/// one: the shorter side is read as zero-padded, entries the incoming list
/// does not reach are kept.
fn add_hit_vec(cur: &Vec<u32>, inc: &Vec<u32>) -> (r: Vec<u32>)
    requires
        forall|h: int| vget(ints(cur@), h) + vget(ints(inc@), h) <= u32::MAX,
    ensures
        ints(r@) == vsum(ints(cur@), ints(inc@)),
{
    let nc = cur.len();
    let ni = inc.len();
    let n = if nc >= ni {
        nc
    } else {
        ni
    };
    let mut r: Vec<u32> = Vec::new();
    let mut h: usize = 0;
    while h < n
        invariant
            0 <= h <= n,
            nc == cur@.len(),
            ni == inc@.len(),
            n == if nc >= ni {
                nc as int
            } else {
                ni as int
            },
            r@.len() == h,
            forall|t: int|
                0 <= t < h ==> #[trigger] r@[t] as int == vget(ints(cur@), t) + vget(ints(inc@), t),
            forall|t: int| vget(ints(cur@), t) + vget(ints(inc@), t) <= u32::MAX,
        decreases n - h,
    {
        let a = if h < nc {
            cur[h]
        } else {
            0
        };
        let b = if h < ni {
            inc[h]
        } else {
            0
        };
        proof {
            assert(a as int == vget(ints(cur@), h as int));
            assert(b as int == vget(ints(inc@), h as int));
        }
        r.push(a + b);
        h = h + 1;
    }
    assert(ints(r@) =~= vsum(ints(cur@), ints(inc@)));
    r
}

/// Why one element-wise addition of the branch merge cannot overflow: the
/// current list is the seeded list plus the incoming entries folded so far,
/// and together with the next entry it stays within the bound the caller
/// put on the whole merge.
proof fn lemma_vec_add_bound(
    a: Seq<(Range, Seq<int>, BranchV)>,
    b: Seq<(Range, Seq<int>, BranchV)>,
    j: int,
    k: Range,
    cur: Seq<int>,
)
    requires
        0 <= j < b.len(),
        b[j].0 == k,
        vcounts_within(b, 0xffff_ffff),
        cur == plus_vec()(
            ecount(seed(a), k, zero_vec()),
            esum(b.take(j), k, plus_vec(), zero_vec()),
        ),
        forall|k2: Range, h: int|
            #![trigger vget(vsum(elast(a, k2, zero_vec()),
                esum(b, k2, plus_vec(), zero_vec())), h)]
            vget(vsum(elast(a, k2, zero_vec()), esum(b, k2, plus_vec(), zero_vec())), h)
                <= u32::MAX,
    ensures
        forall|h: int| vget(cur, h) + vget(b[j].1, h) <= u32::MAX,
{
    lemma_plus_vec_props();
    lemma_seed_counts(a, zero_vec());
    lemma_esum_vec_take(b, j, k);
    let pre = esum(b.take(j), k, plus_vec(), zero_vec());
    let tot = esum(b, k, plus_vec(), zero_vec());
    let la = elast(a, k, zero_vec());
    assert forall|h: int| vget(cur, h) + vget(b[j].1, h) <= u32::MAX by {
        lemma_vget_vsum(la, pre, h);
        lemma_vget_vsum(pre, b[j].1, h);
        lemma_vget_vsum(la, tot, h);
        assert(esum(b.take(j + 1), k, plus_vec(), zero_vec()) == vsum(pre, b[j].1));
        assert(vget(esum(b.take(j + 1), k, plus_vec(), zero_vec()), h) <= vget(tot, h));
        assert(vget(vsum(la, tot), h) <= u32::MAX);
    }
}

/// The branch merge: per-path hit lists and branch descriptors, merged by
/// the first path location; matching keys add their lists element-wise with
/// zero-padding, and the descriptor recorded first is kept.
#[verifier::loop_isolation(false)]
#[verifier::rlimit(100)]
fn merge_properties_hits_vec(
    first_hits: &BranchHitMap,
    first_map: &BranchMap,
    second_hits: &BranchHitMap,
    second_map: &BranchMap,
) -> (r: (BranchHitMap, BranchMap))
    requires
        keys_covered(first_hits@, first_map@),
        keys_covered(second_hits@, second_map@),
        branch_keys_ok(first_hits@, first_map@),
        branch_keys_ok(second_hits@, second_map@),
        forall|k: Range, h: int|
            #![trigger vget(vsum(elast(paired_vec(first_hits@, first_map@), k, zero_vec()),
                esum(paired_vec(second_hits@, second_map@), k, plus_vec(), zero_vec())), h)]
            vget(
                vsum(
                    elast(paired_vec(first_hits@, first_map@), k, zero_vec()),
                    esum(paired_vec(second_hits@, second_map@), k, plus_vec(), zero_vec()),
                ),
                h,
            ) <= u32::MAX,
        first_hits@.len() + second_hits@.len() <= u32::MAX,
    ensures
        r.0@ == reindexed_vec_hits(
            merge_entries(
                paired_vec(first_hits@, first_map@),
                paired_vec(second_hits@, second_map@),
                plus_vec(),
            ),
        ),
        r.1@ == reindexed_descs(
            merge_entries(
                paired_vec(first_hits@, first_map@),
                paired_vec(second_hits@, second_map@),
                plus_vec(),
            ),
        ),
{
    let ghost a_entries = paired_vec(first_hits@, first_map@);
    let ghost b_entries = paired_vec(second_hits@, second_map@);
    let mut working: Vec<(Range, Vec<u32>, Branch)> = Vec::new();

    let n1 = first_hits.len();
    let mut j: usize = 0;
    while j < n1
        invariant
            0 <= j <= n1,
            wview_vec(working@) == fold_repl(
                Seq::<(Range, Seq<int>, BranchV)>::empty(),
                a_entries.take(j as int),
            ),
        decreases n1 - j,
    {
        let ghost wv = wview_vec(working@);
        let k = first_hits.key_at(j);
        let hv = first_hits.value_at(j);
        let item = match first_map.get(k) {
            Some(t) => t,
            None => unreached(),
        };
        let rk = item.identity_key();
        proof {
            assert(a_entries[j as int] == (rk, ints(hv@), item@));
        }
        match find_entry_vec(&working, rk) {
            Some(i) => {
                let dup = item.deep_clone();
                let hv2 = hv.deep_clone();
                working.set(i, (rk, hv2, dup));
                proof {
                    assert(wv[i as int].0 == rk);
                    assert(ehas(wv, rk));
                    lemma_eidx(wv, rk);
                    assert(eidx(wv, rk) == i);
                    assert(wview_vec(working@) =~= wv.update(i as int, (rk, ints(hv@), item@)));
                    assert(wview_vec(working@) == upsert_repl(wv, a_entries[j as int]));
                }
            },
            None => {
                working.push((rk, hv.deep_clone(), item.deep_clone()));
                proof {
                    assert(!ehas(wv, rk));
                    assert(wview_vec(working@) =~= wv.push((rk, ints(hv@), item@)));
                    assert(wview_vec(working@) == upsert_repl(wv, a_entries[j as int]));
                }
            },
        }
        proof {
            assert(a_entries.take(j as int + 1) =~= a_entries.take(j as int).push(
                a_entries[j as int],
            ));
            lemma_fold_repl_push(
                Seq::<(Range, Seq<int>, BranchV)>::empty(),
                a_entries.take(j as int),
                a_entries[j as int],
            );
        }
        j = j + 1;
    }

    let ghost x_seed = seed(a_entries);
    proof {
        assert(a_entries.take(n1 as int) =~= a_entries);
        assert(x_seed == fold_repl(Seq::<(Range, Seq<int>, BranchV)>::empty(), a_entries));
        lemma_fold_repl_keys(Seq::<(Range, Seq<int>, BranchV)>::empty(), a_entries);
        lemma_plus_vec_props();
        lemma_seed_counts(a_entries, zero_vec());
        assert forall|i: int, h: int|
            0 <= i < b_entries.len() && 0 <= h < b_entries[i].1.len() implies 0
            <= #[trigger] b_entries[i].1[h] <= 0xffff_ffff by {
            assert(b_entries[i].1 == ints(second_hits@[i].1));
            assert(b_entries[i].1[h] == second_hits@[i].1[h] as int);
        }
    }

    let n2 = second_hits.len();
    let mut j2: usize = 0;
    while j2 < n2
        invariant
            0 <= j2 <= n2,
            wview_vec(working@) == fold_add(x_seed, b_entries.take(j2 as int), plus_vec()),
        decreases n2 - j2,
    {
        let ghost wv = wview_vec(working@);
        proof {
            lemma_fold_add_keys(x_seed, b_entries.take(j2 as int), plus_vec());
            assert(edistinct(wv));
        }
        let k = second_hits.key_at(j2);
        let hv = second_hits.value_at(j2);
        let item = match second_map.get(k) {
            Some(t) => t,
            None => unreached(),
        };
        let rk = item.identity_key();
        proof {
            assert(b_entries[j2 as int] == (rk, ints(hv@), item@));
        }
        match find_entry_vec(&working, rk) {
            Some(i) => {
                proof {
                    assert(wv[i as int].0 == rk);
                    assert(ehas(wv, rk));
                    lemma_eidx(wv, rk);
                    assert(eidx(wv, rk) == i);
                    assert(ecount(wv, rk, zero_vec()) == ints(working@[i as int].1@));
                    lemma_fold_add_counts(x_seed, b_entries.take(j2 as int), plus_vec(), zero_vec());
                    lemma_vec_add_bound(
                        a_entries,
                        b_entries,
                        j2 as int,
                        rk,
                        ints(working@[i as int].1@),
                    );
                }
                let merged_vec = add_hit_vec(&working[i].1, hv);
                let dup = (&working[i].2).deep_clone();
                working.set(i, (rk, merged_vec, dup));
                proof {
                    assert(wview_vec(working@) =~= wv.update(
                        i as int,
                        (rk, vsum(wv[i as int].1, ints(hv@)), wv[i as int].2),
                    ));
                    assert(upsert_add(wv, b_entries[j2 as int], plus_vec()) == wv.update(
                        eidx(wv, rk),
                        (rk, plus_vec()(wv[eidx(wv, rk)].1, b_entries[j2 as int].1), wv[eidx(
                            wv,
                            rk,
                        )].2),
                    ));
                    assert(wview_vec(working@) == upsert_add(wv, b_entries[j2 as int], plus_vec()));
                }
            },
            None => {
                working.push((rk, hv.deep_clone(), item.deep_clone()));
                proof {
                    assert(!ehas(wv, rk));
                    assert(wview_vec(working@) =~= wv.push((rk, ints(hv@), item@)));
                    assert(wview_vec(working@) == upsert_add(wv, b_entries[j2 as int], plus_vec()));
                }
            },
        }
        proof {
            assert(b_entries.take(j2 as int + 1) =~= b_entries.take(j2 as int).push(
                b_entries[j2 as int],
            ));
            lemma_fold_add_push(x_seed, b_entries.take(j2 as int), b_entries[j2 as int], plus_vec());
        }
        j2 = j2 + 1;
    }

    let ghost m_entries = merge_entries(a_entries, b_entries, plus_vec());
    proof {
        assert(b_entries.take(n2 as int) =~= b_entries);
        assert(wview_vec(working@) == m_entries);
        lemma_fold_repl_len(Seq::<(Range, Seq<int>, BranchV)>::empty(), a_entries);
        lemma_fold_add_len(x_seed, b_entries, plus_vec());
        assert(m_entries.len() <= u32::MAX);
    }

    let mut hits: BranchHitMap = IndexedMap::new();
    let mut map: BranchMap = IndexedMap::new();
    let n = working.len();
    let mut i: usize = 0;
    while i < n
        invariant
            0 <= i <= n,
            hits@ == reindexed_vec_hits(m_entries).take(i as int),
            map@ == reindexed_descs(m_entries).take(i as int),
        decreases n - i,
    {
        let ghost hits0 = hits@;
        let ghost map0 = map@;
        let c = (&working[i].1).deep_clone();
        let item = (&working[i].2).deep_clone();
        proof {
            assert(m_entries[i as int] == (working@[i as int].0, ints(working@[i as int].1@), working@[i as int].2@));
            assert forall|t: int| 0 <= t < hits0.len() implies hits0[t].0 != i as u32 by {
                assert(hits0[t] == reindexed_vec_hits(m_entries)[t]);
                assert(hits0[t].0 == t as u32);
            }
            assert(!has_key(hits0, i as u32));
            assert forall|t: int| 0 <= t < map0.len() implies map0[t].0 != i as u32 by {
                assert(map0[t] == reindexed_descs(m_entries)[t]);
                assert(map0[t].0 == t as u32);
            }
            assert(!has_key(map0, i as u32));
            assert(u32s(m_entries[i as int].1) =~= c@);
        }
        hits.insert(i as u32, c);
        map.insert(i as u32, item);
        proof {
            assert(hits@ =~= reindexed_vec_hits(m_entries).take(i as int + 1));
            assert(map@ =~= reindexed_descs(m_entries).take(i as int + 1));
        }
        i = i + 1;
    }
    proof {
        assert(hits@ =~= reindexed_vec_hits(m_entries));
        assert(map@ =~= reindexed_descs(m_entries));
    }
    (hits, map)
}

/// A prefix of a per-path hit map holds no more paths than the whole.
pub proof fn lemma_total_len_take_le(m: Seq<(u32, Seq<u32>)>, i: int)
    requires
        0 <= i <= m.len(),
    ensures
        total_len(m.take(i)) <= total_len(m),
    decreases m.len() - i,
{
    if i == m.len() {
        assert(m.take(i) =~= m);
    } else {
        assert(m.take(i + 1).drop_last() =~= m.take(i));
        assert(m.take(i + 1).last() == m[i]);
        lemma_total_len_take_le(m, i + 1);
    }
}

/// One bucket's counts followed by another's.
fn concat_counts(cur: &Vec<u32>, more: &Vec<u32>) -> (r: Vec<u32>)
    ensures
        r@ == cur@ + more@,
{
    let mut r = cur.deep_clone();
    let n = more.len();
    let mut i: usize = 0;
    while i < n
        invariant
            0 <= i <= n,
            n == more@.len(),
            r@ =~= cur@ + more@.take(i as int),
        decreases n - i,
    {
        r.push(more[i]);
        proof {
            assert(cur@ + more@.take(i as int + 1) =~= (cur@ + more@.take(i as int)).push(
                more@[i as int],
            ));
        }
        i = i + 1;
    }
    assert(r@ =~= cur@ + more@);
    r
}

/// How many counts of a path-count list are positive.
fn count_covered(v: &Vec<u32>) -> (c: usize)
    ensures
        c as int == vcount_pos(v@),
        c <= v@.len(),
{
    let n = v.len();
    let mut c: usize = 0;
    let mut i: usize = 0;
    while i < n
        invariant
            0 <= i <= n,
            n == v@.len(),
            c as int == vcount_pos(v@.take(i as int)),
            c <= i,
        decreases n - i,
    {
        proof {
            assert(v@.take(i as int + 1).drop_last() =~= v@.take(i as int));
            assert(v@.take(i as int + 1).last() == v@[i as int]);
        }
        if v[i] > 0 {
            c = c + 1;
        }
        i = i + 1;
    }
    proof {
        assert(v@.take(n as int) =~= v@);
    }
    c
}

/// Sets every count of a scalar hit map to zero, in place.
fn zero_scalar_map(m: &mut LineHitMap)
    ensures
        final(m)@ == zeroed(old(m)@),
{
    let ghost m0 = m@;
    let n = m.len();
    let mut i: usize = 0;
    while i < n
        invariant
            0 <= i <= n,
            n == m0.len(),
            m@.len() == m0.len(),
            forall|j: int| 0 <= j < i ==> m@[j] == (#[trigger] m0[j].0, 0u32),
            forall|j: int| i <= j < n ==> m@[j] == #[trigger] m0[j],
        decreases n - i,
    {
        m.set_value_at(i, 0);
        i = i + 1;
    }
    assert(m@ =~= zeroed(m0));
}

/// Sets every count of a per-path hit map to zero, in place, keeping each
/// list's length.
fn zero_vec_map(m: &mut BranchHitMap)
    ensures
        final(m)@ == vzeroed(old(m)@),
{
    let ghost m0 = m@;
    let n = m.len();
    let mut i: usize = 0;
    while i < n
        invariant
            0 <= i <= n,
            n == m0.len(),
            m@.len() == m0.len(),
            forall|j: int|
                0 <= j < i ==> m@[j] == (#[trigger] m0[j].0, m0[j].1.map(|h: int, c: u32| 0u32)),
            forall|j: int| i <= j < n ==> m@[j] == #[trigger] m0[j],
        decreases n - i,
    {
        let len_j = m.value_at(i).len();
        let mut z: Vec<u32> = Vec::new();
        let mut h: usize = 0;
        while h < len_j
            invariant
                0 <= h <= len_j,
                z@.len() == h,
                forall|t: int| 0 <= t < h ==> z@[t] == 0u32,
            decreases len_j - h,
        {
            z.push(0);
            h = h + 1;
        }
        proof {
            assert(z@ =~= m@[i as int].1.map(|t: int, c: u32| 0u32));
        }
        m.set_value_at(i, z);
        i = i + 1;
    }
    assert(m@ =~= vzeroed(m0));
}

} // verus!
