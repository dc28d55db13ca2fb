//! The laws of the merge: placeholder precedence, self-merge doubling, and
//! order-independence of totals.
//!
//! Each law is stated over record views and the `merge` contract's own
//! relation, so it speaks about every record a caller could actually
//! produce with `merge`.

use vstd::prelude::*;

use crate::file_coverage::{
    branch_entries, fn_entries, key_fn, merge_ok, merged_branch, merged_views, paired, paired_vec,
    reindexed_descs, reindexed_hits, reindexed_vec_hits, spec_summary, stmt_entries, FileCoverageV,
    ints, u32s,
};
use crate::indexed_map::{first_idx, has_key, lemma_first_idx, spec_get};
use crate::keyed_merge::{
    ecount, edistinct, ehas, elast, esum, fold_add, fold_repl, lemma_eidx, lemma_eidx_unique,
    lemma_elast_int_nonneg, lemma_elast_vec_bounds, lemma_esum_int_nonneg, lemma_esum_vec_nonneg,
    lemma_fold_add_counts, lemma_fold_add_keys, lemma_fold_add_len, lemma_fold_add_pairs,
    lemma_fold_repl_keys, lemma_fold_repl_len, lemma_fold_repl_pairs, lemma_merge_entries_assoc,
    lemma_merge_entries_self, lemma_plus_int_props, lemma_plus_vec_props, lemma_seed_counts,
    lemma_esum_single, lemma_elast_single, lemma_vget_vsum, merge_entries, plus_int, plus_vec,
    seed, vget, vsum, zero_vec,
};
use crate::range::Range;
use crate::types::{Branch, BranchV, Descriptor, Function};

verus! {

/// What `merge` relates: a placeholder argument is discarded, a placeholder
/// receiver is replaced, and two detailed records merge by identity.
pub open spec fn merge_rel(a: FileCoverageV, o: FileCoverageV, m: FileCoverageV) -> bool {
    if o.all {
        m == a
    } else if a.all {
        m == o
    } else {
        merged_views(a, o, m)
    }
}

/// Each category's paired entries carry distinct identity keys: no two
/// statements share a range, no two functions a declaration range, no two
/// branches a first path location.
pub open spec fn keyed_distinct(v: FileCoverageV) -> bool {
    &&& edistinct(stmt_entries(v))
    &&& edistinct(fn_entries(v))
    &&& edistinct(branch_entries(v))
}

/// Law ("all" precedence, incoming side): merging a full-coverage
/// placeholder into a record leaves the record exactly as it was.
pub proof fn merging_placeholder_keeps_receiver(
    a: FileCoverageV,
    p: FileCoverageV,
    m: FileCoverageV,
)
    requires
        p.all,
        merge_rel(a, p, m),
    ensures
        m == a,
{
}

/// Law ("all" precedence, receiver side): merging a detailed record into a
/// full-coverage placeholder replaces the placeholder wholesale.
pub proof fn placeholder_receiver_takes_record(
    p: FileCoverageV,
    a: FileCoverageV,
    m: FileCoverageV,
)
    requires
        p.all,
        !a.all,
        merge_rel(p, a, m),
    ensures
        m == a,
{
}

/// Looking a fresh dense index up in a rendered descriptor map gives the
/// working entry it came from.
proof fn lemma_reindexed_get<C, IV>(m: Seq<(Range, C, IV)>, i: int)
    requires
        0 <= i < m.len() <= u32::MAX,
    ensures
        has_key(reindexed_descs(m), i as u32),
        spec_get(reindexed_descs(m), i as u32) == m[i].2,
{
    let descs = reindexed_descs::<C, IV>(m);
    assert(descs[i].0 == i as u32);
    assert(has_key(descs, i as u32));
    lemma_first_idx(descs, i as u32);
    let j = first_idx(descs, i as u32);
    assert(descs[j].0 == j as u32);
    assert(j == i);
}

/// Rendering merged scalar entries into maps and pairing them back gives
/// the entries again, provided keys match descriptors and counts fit.
proof fn lemma_paired_roundtrip<IV>(m: Seq<(Range, int, IV)>, kf: spec_fn(IV) -> Range)
    requires
        forall|i: int| 0 <= i < m.len() ==> (#[trigger] m[i]).0 == kf(m[i].2),
        forall|i: int| 0 <= i < m.len() ==> 0 <= (#[trigger] m[i]).1 <= u32::MAX,
        m.len() <= u32::MAX,
    ensures
        paired(reindexed_hits(m), reindexed_descs(m), kf) == m,
{
    let hits = reindexed_hits(m);
    let descs = reindexed_descs(m);
    assert forall|i: int| 0 <= i < m.len() implies paired(hits, descs, kf)[i] == m[i] by {
        assert(hits[i] == (i as u32, m[i].1 as u32));
        lemma_reindexed_get(m, i);
        assert((m[i].1 as u32) as int == m[i].1);
    }
    assert(paired(hits, descs, kf) =~= m);
}

/// The per-path analogue of `lemma_paired_roundtrip`.
proof fn lemma_paired_vec_roundtrip(m: Seq<(Range, Seq<int>, BranchV)>)
    requires
        forall|i: int| 0 <= i < m.len() ==> (#[trigger] m[i]).0 == key_fn::<Branch>()(m[i].2),
        forall|i: int, h: int|
            0 <= i < m.len() && 0 <= h < m[i].1.len() ==> 0 <= #[trigger] m[i].1[h] <= u32::MAX,
        m.len() <= u32::MAX,
    ensures
        paired_vec(reindexed_vec_hits(m), reindexed_descs(m)) == m,
{
    let hits = reindexed_vec_hits(m);
    let descs = reindexed_descs(m);
    assert forall|i: int| 0 <= i < m.len() implies paired_vec(hits, descs)[i] == m[i] by {
        assert(hits[i] == (i as u32, u32s(m[i].1)));
        lemma_reindexed_get(m, i);
        assert(ints(u32s(m[i].1)) =~= m[i].1);
    }
    assert(paired_vec(hits, descs) =~= m);
}

/// Every merged scalar count lies within `u32`, because it is the
/// receiver's stored count plus the incoming sum for that key.
proof fn lemma_merged_scalar_bounds<IV>(a: Seq<(Range, int, IV)>, b: Seq<(Range, int, IV)>)
    requires
        forall|i: int| 0 <= i < a.len() ==> (#[trigger] a[i]).1 >= 0,
        forall|i: int| 0 <= i < b.len() ==> (#[trigger] b[i]).1 >= 0,
        forall|k: Range| elast(a, k, 0) + esum(b, k, plus_int(), 0) <= u32::MAX,
    ensures
        forall|i: int|
            0 <= i < merge_entries(a, b, plus_int()).len() ==> 0 <= (#[trigger] merge_entries(
                a,
                b,
                plus_int(),
            )[i]).1 <= u32::MAX,
{
    let m = merge_entries(a, b, plus_int());
    lemma_fold_repl_keys(Seq::empty(), a);
    lemma_plus_int_props();
    lemma_fold_add_counts(seed(a), b, plus_int(), 0);
    lemma_seed_counts(a, 0);
    lemma_fold_add_keys(seed(a), b, plus_int());
    assert forall|i: int| 0 <= i < m.len() implies 0 <= (#[trigger] m[i]).1 <= u32::MAX by {
        let k = m[i].0;
        lemma_eidx_unique(m, i);
        assert(ecount(m, k, 0) == m[i].1);
        assert(m[i].1 == elast(a, k, 0) + esum(b, k, plus_int(), 0));
        lemma_elast_int_nonneg(a, k);
        lemma_esum_int_nonneg(b, k);
    }
}

/// The per-path analogue of `lemma_merged_scalar_bounds`, element-wise.
proof fn lemma_merged_vec_bounds(
    a: Seq<(Range, Seq<int>, BranchV)>,
    b: Seq<(Range, Seq<int>, BranchV)>,
)
    requires
        forall|i: int, h: int|
            0 <= i < a.len() && 0 <= h < a[i].1.len() ==> 0 <= #[trigger] a[i].1[h]
                <= 0xffff_ffff,
        forall|i: int, h: int|
            0 <= i < b.len() && 0 <= h < b[i].1.len() ==> 0 <= #[trigger] b[i].1[h]
                <= 0xffff_ffff,
        forall|k: Range, h: int|
            #![trigger vget(vsum(elast(a, k, zero_vec()),
                esum(b, k, plus_vec(), zero_vec())), h)]
            vget(vsum(elast(a, k, zero_vec()), esum(b, k, plus_vec(), zero_vec())), h)
                <= u32::MAX,
    ensures
        forall|i: int, h: int|
            0 <= i < merge_entries(a, b, plus_vec()).len() && 0 <= h < merge_entries(
                a,
                b,
                plus_vec(),
            )[i].1.len() ==> 0 <= #[trigger] merge_entries(a, b, plus_vec())[i].1[h] <= u32::MAX,
{
    let m = merge_entries(a, b, plus_vec());
    lemma_fold_repl_keys(Seq::empty(), a);
    lemma_plus_vec_props();
    lemma_fold_add_counts(seed(a), b, plus_vec(), zero_vec());
    lemma_seed_counts(a, zero_vec());
    lemma_fold_add_keys(seed(a), b, plus_vec());
    assert forall|i: int, h: int|
        0 <= i < m.len() && 0 <= h < m[i].1.len() implies 0 <= #[trigger] m[i].1[h]
        <= u32::MAX by {
        let k = m[i].0;
        lemma_eidx_unique(m, i);
        assert(ecount(m, k, zero_vec()) == m[i].1);
        let la = elast(a, k, zero_vec());
        let sb = esum(b, k, plus_vec(), zero_vec());
        assert(m[i].1 == vsum(la, sb));
        lemma_vget_vsum(la, sb, h);
        lemma_elast_vec_bounds(a, k, 0xffff_ffff);
        lemma_esum_vec_nonneg(b, k);
        assert(m[i].1[h] == vget(vsum(la, sb), h));
        assert(vget(vsum(la, sb), h) <= u32::MAX);
    }
}

/// The paired entries of a merged record are exactly the merged entries of
/// the two inputs' paired entries: rendering to maps and pairing back is
/// the identity on a merge's working sequence.
pub proof fn lemma_entries_of_merged(x: FileCoverageV, y: FileCoverageV, m: FileCoverageV)
    requires
        merge_ok(x, y),
        merged_views(x, y, m),
    ensures
        stmt_entries(m) == merge_entries(stmt_entries(x), stmt_entries(y), plus_int()),
        fn_entries(m) == merge_entries(fn_entries(x), fn_entries(y), plus_int()),
        branch_entries(m) == merged_branch(x, y),
{
    reveal(merge_ok);
    reveal(merged_views);
    lemma_plus_int_props();
    lemma_plus_vec_props();

    let sa = stmt_entries(x);
    let sb = stmt_entries(y);
    let sm = merge_entries(sa, sb, plus_int());
    let skf = key_fn::<Range>();
    assert(forall|i: int| 0 <= i < sa.len() ==> (#[trigger] sa[i]).0 == skf(sa[i].2));
    assert(forall|i: int| 0 <= i < sb.len() ==> (#[trigger] sb[i]).0 == skf(sb[i].2));
    assert(forall|i: int| 0 <= i < sa.len() ==> (#[trigger] sa[i]).1 >= 0);
    assert(forall|i: int| 0 <= i < sb.len() ==> (#[trigger] sb[i]).1 >= 0);
    let coh_s = |k: Range, iv: Range| k == skf(iv);
    lemma_fold_repl_pairs(Seq::empty(), sa, coh_s);
    lemma_fold_add_pairs(seed(sa), sb, plus_int(), coh_s);
    lemma_merged_scalar_bounds(sa, sb);
    lemma_fold_repl_len(Seq::empty(), sa);
    lemma_fold_add_len(seed(sa), sb, plus_int());
    lemma_paired_roundtrip(sm, skf);

    let fa = fn_entries(x);
    let fb = fn_entries(y);
    let fm = merge_entries(fa, fb, plus_int());
    let fkf = key_fn::<Function>();
    assert(forall|i: int| 0 <= i < fa.len() ==> (#[trigger] fa[i]).0 == fkf(fa[i].2));
    assert(forall|i: int| 0 <= i < fb.len() ==> (#[trigger] fb[i]).0 == fkf(fb[i].2));
    assert(forall|i: int| 0 <= i < fa.len() ==> (#[trigger] fa[i]).1 >= 0);
    assert(forall|i: int| 0 <= i < fb.len() ==> (#[trigger] fb[i]).1 >= 0);
    let coh_f = |k: Range, iv: <Function as View>::V| k == fkf(iv);
    lemma_fold_repl_pairs(Seq::empty(), fa, coh_f);
    lemma_fold_add_pairs(seed(fa), fb, plus_int(), coh_f);
    lemma_merged_scalar_bounds(fa, fb);
    lemma_fold_repl_len(Seq::empty(), fa);
    lemma_fold_add_len(seed(fa), fb, plus_int());
    lemma_paired_roundtrip(fm, fkf);

    let ba = branch_entries(x);
    let bb = branch_entries(y);
    let bm = merged_branch(x, y);
    let bkf = key_fn::<Branch>();
    assert(forall|i: int| 0 <= i < ba.len() ==> (#[trigger] ba[i]).0 == bkf(ba[i].2));
    assert(forall|i: int| 0 <= i < bb.len() ==> (#[trigger] bb[i]).0 == bkf(bb[i].2));
    assert forall|i: int, h: int|
        0 <= i < ba.len() && 0 <= h < ba[i].1.len() implies 0 <= #[trigger] ba[i].1[h]
        <= 0xffff_ffff by {
        assert(ba[i].1 == ints(x.b[i].1));
        assert(ba[i].1[h] == x.b[i].1[h] as int);
    }
    assert forall|i: int, h: int|
        0 <= i < bb.len() && 0 <= h < bb[i].1.len() implies 0 <= #[trigger] bb[i].1[h]
        <= 0xffff_ffff by {
        assert(bb[i].1 == ints(y.b[i].1));
        assert(bb[i].1[h] == y.b[i].1[h] as int);
    }
    let coh_b = |k: Range, iv: BranchV| k == bkf(iv);
    lemma_fold_repl_pairs(Seq::empty(), ba, coh_b);
    lemma_fold_add_pairs(seed(ba), bb, plus_vec(), coh_b);
    lemma_merged_vec_bounds(ba, bb);
    lemma_fold_repl_len(Seq::empty(), ba);
    lemma_fold_add_len(seed(ba), bb, plus_vec());
    lemma_paired_vec_roundtrip(bm);
}

/// Law (self-merge doubling): merging a record with a structurally
/// identical copy of itself keeps every map's length, keys and descriptors,
/// and doubles every count.
pub proof fn self_merge_doubles(a: FileCoverageV, m: FileCoverageV)
    requires
        !a.all,
        a.b_t is None,
        keyed_distinct(a),
        merge_ok(a, a),
        merged_views(a, a, m),
    ensures
        m.path == a.path,
        m.b_t is None,
        m.s.len() == a.s.len(),
        m.f.len() == a.f.len(),
        m.b.len() == a.b.len(),
        forall|i: int|
            0 <= i < a.s.len() ==> (#[trigger] m.s[i]).1 as int == 2 * (a.s[i].1 as int),
        forall|i: int|
            0 <= i < a.s.len() ==> (#[trigger] m.statement_map[i]).1 == spec_get(
                a.statement_map,
                a.s[i].0,
            ),
        forall|i: int|
            0 <= i < a.f.len() ==> (#[trigger] m.f[i]).1 as int == 2 * (a.f[i].1 as int),
        forall|i: int|
            0 <= i < a.f.len() ==> (#[trigger] m.fn_map[i]).1 == spec_get(a.fn_map, a.f[i].0),
        forall|i: int| 0 <= i < a.b.len() ==> (#[trigger] m.b[i]).1.len() == a.b[i].1.len(),
        forall|i: int, h: int|
            0 <= i < a.b.len() && 0 <= h < a.b[i].1.len() ==> (#[trigger] m.b[i].1[h]) as int == 2
                * (a.b[i].1[h] as int),
        forall|i: int|
            0 <= i < a.b.len() ==> (#[trigger] m.branch_map[i]).1 == spec_get(
                a.branch_map,
                a.b[i].0,
            ),
{
    reveal(merge_ok);
    reveal(merged_views);
    lemma_plus_int_props();
    lemma_plus_vec_props();
    let sa = stmt_entries(a);
    let fa = fn_entries(a);
    let ba = branch_entries(a);
    lemma_merge_entries_self(sa, plus_int(), 0);
    lemma_merge_entries_self(fa, plus_int(), 0);
    lemma_merge_entries_self(ba, plus_vec(), zero_vec());
    let sm = merge_entries(sa, sa, plus_int());
    let fm = merge_entries(fa, fa, plus_int());
    let bm = merge_entries(ba, ba, plus_vec());

    assert forall|i: int|
        0 <= i < a.s.len() implies (#[trigger] m.s[i]).1 as int == 2 * (a.s[i].1 as int) by {
        assert(sm[i] == (sa[i].0, plus_int()(sa[i].1, sa[i].1), sa[i].2));
        assert(sa[i].1 == a.s[i].1 as int);
        lemma_esum_single(sa, i, plus_int(), 0);
        lemma_elast_single(sa, i, 0);
        assert(elast(sa, sa[i].0, 0) + esum(sa, sa[i].0, plus_int(), 0) <= u32::MAX);
        assert(m.s[i] == (i as u32, sm[i].1 as u32));
    }
    assert forall|i: int|
        0 <= i < a.s.len() implies (#[trigger] m.statement_map[i]).1 == spec_get(
        a.statement_map,
        a.s[i].0,
    ) by {
        assert(sm[i].2 == sa[i].2);
        assert(m.statement_map[i] == (i as u32, sm[i].2));
    }
    assert forall|i: int|
        0 <= i < a.f.len() implies (#[trigger] m.f[i]).1 as int == 2 * (a.f[i].1 as int) by {
        assert(fm[i] == (fa[i].0, plus_int()(fa[i].1, fa[i].1), fa[i].2));
        assert(fa[i].1 == a.f[i].1 as int);
        lemma_esum_single(fa, i, plus_int(), 0);
        lemma_elast_single(fa, i, 0);
        assert(elast(fa, fa[i].0, 0) + esum(fa, fa[i].0, plus_int(), 0) <= u32::MAX);
        assert(m.f[i] == (i as u32, fm[i].1 as u32));
    }
    assert forall|i: int|
        0 <= i < a.f.len() implies (#[trigger] m.fn_map[i]).1 == spec_get(a.fn_map, a.f[i].0) by {
        assert(fm[i].2 == fa[i].2);
        assert(m.fn_map[i] == (i as u32, fm[i].2));
    }
    assert forall|i: int|
        0 <= i < a.b.len() implies (#[trigger] m.b[i]).1.len() == a.b[i].1.len() by {
        assert(bm[i] == (ba[i].0, plus_vec()(ba[i].1, ba[i].1), ba[i].2));
        assert(ba[i].1 == ints(a.b[i].1));
        assert(m.b[i] == (i as u32, u32s(bm[i].1)));
    }
    assert forall|i: int, h: int|
        0 <= i < a.b.len() && 0 <= h < a.b[i].1.len() implies (#[trigger] m.b[i].1[h]) as int == 2
        * (a.b[i].1[h] as int) by {
        assert(bm[i] == (ba[i].0, plus_vec()(ba[i].1, ba[i].1), ba[i].2));
        assert(ba[i].1 == ints(a.b[i].1));
        assert(m.b[i] == (i as u32, u32s(bm[i].1)));
        lemma_vget_vsum(ba[i].1, ba[i].1, h);
        assert(vsum(ba[i].1, ba[i].1)[h] == 2 * (a.b[i].1[h] as int));
        lemma_esum_single(ba, i, plus_vec(), zero_vec());
        lemma_elast_single(ba, i, zero_vec());
        lemma_vget_vsum(
            elast(ba, ba[i].0, zero_vec()),
            esum(ba, ba[i].0, plus_vec(), zero_vec()),
            h,
        );
        assert(vget(
            vsum(elast(ba, ba[i].0, zero_vec()), esum(ba, ba[i].0, plus_vec(), zero_vec())),
            h,
        ) <= u32::MAX);
        assert(0 <= bm[i].1[h] <= u32::MAX);
    }
    assert forall|i: int|
        0 <= i < a.b.len() implies (#[trigger] m.branch_map[i]).1 == spec_get(
        a.branch_map,
        a.b[i].0,
    ) by {
        assert(bm[i].2 == ba[i].2);
        assert(m.branch_map[i] == (i as u32, bm[i].2));
    }
}

/// Law (associativity of merging): merging three detailed records with
/// distinct identity keys gives the same record whichever way the merges
/// are grouped, and therefore the same totals.
#[verifier::spinoff_prover]
#[verifier::rlimit(100)]
pub proof fn merge_totals_associative(
    a: FileCoverageV,
    b: FileCoverageV,
    c: FileCoverageV,
    ab: FileCoverageV,
    bc: FileCoverageV,
    ab_c: FileCoverageV,
    a_bc: FileCoverageV,
)
    requires
        !a.all,
        !b.all,
        !c.all,
        a.b_t is None,
        b.b_t is None,
        c.b_t is None,
        keyed_distinct(a),
        keyed_distinct(b),
        keyed_distinct(c),
        merge_ok(a, b),
        merged_views(a, b, ab),
        merge_ok(b, c),
        merged_views(b, c, bc),
        merged_views(ab, c, ab_c),
        merged_views(a, bc, a_bc),
    ensures
        ab_c == a_bc,
        spec_summary(ab_c) == spec_summary(a_bc),
{
    reveal(merge_ok);
    reveal(merged_views);
    lemma_plus_int_props();
    lemma_plus_vec_props();
    lemma_entries_of_merged(a, b, ab);
    lemma_entries_of_merged(b, c, bc);
    let sa = stmt_entries(a);
    let sb = stmt_entries(b);
    let sc = stmt_entries(c);
    lemma_merge_entries_assoc(sa, sb, sc, plus_int());
    assert(merge_entries(stmt_entries(ab), sc, plus_int()) == merge_entries(
        sa,
        stmt_entries(bc),
        plus_int(),
    ));
    assert(ab_c.s == a_bc.s);
    assert(ab_c.statement_map == a_bc.statement_map);
    let fa = fn_entries(a);
    let fb = fn_entries(b);
    let fc = fn_entries(c);
    lemma_merge_entries_assoc(fa, fb, fc, plus_int());
    assert(merge_entries(fn_entries(ab), fc, plus_int()) == merge_entries(
        fa,
        fn_entries(bc),
        plus_int(),
    ));
    assert(ab_c.f == a_bc.f);
    assert(ab_c.fn_map == a_bc.fn_map);
    let ba = branch_entries(a);
    let bb = branch_entries(b);
    let bcx = branch_entries(c);
    lemma_merge_entries_assoc(ba, bb, bcx, plus_vec());
    assert(merged_branch(ab, c) == merged_branch(a, bc));
    assert(ab_c.b == a_bc.b);
    assert(ab_c.branch_map == a_bc.branch_map);
    assert(ab_c.b_t == a_bc.b_t);
    assert(ab_c.path == a_bc.path);
    assert(ab_c =~= a_bc);
}

} // verus!
