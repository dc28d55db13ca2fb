//! The identity-keyed merge that underlies coverage record merging.
//!
//! A merge works on sequences of entries `(key, count, descriptor)`, where
//! the key is the descriptor's defining source range. The working sequence is
//! seeded from the receiver's entries — a repeated key keeps its first
//! position and its last value, as an insertion-ordered map does — and then
//! the incoming entries are folded in: an entry whose key is already present
//! adds its count to that position (the descriptor already there is kept),
//! and an entry with a new key is appended.
//!
//! The count type is abstract: a scalar statement or function count combines
//! by addition, a branch path-count list combines element-wise after
//! zero-padding. Both operations are passed in as `plus`.

use vstd::prelude::*;

use crate::range::Range;

verus! {

/// Does some entry of `s` carry the identity key `k`?
pub open spec fn ehas<C, IV>(s: Seq<(Range, C, IV)>, k: Range) -> bool {
    exists|i: int| 0 <= i < s.len() && s[i].0 == k
}

/// The position of the first entry of `s` carrying the identity key `k`.
pub open spec fn eidx<C, IV>(s: Seq<(Range, C, IV)>, k: Range) -> int
    decreases s.len(),
{
    if s.len() == 0 {
        0
    } else if s[0].0 == k {
        0
    } else {
        1 + eidx(s.subrange(1, s.len() as int), k)
    }
}

/// The count stored for key `k`, or `zero` when `k` is absent.
pub open spec fn ecount<C, IV>(s: Seq<(Range, C, IV)>, k: Range, zero: C) -> C {
    if ehas(s, k) {
        s[eidx(s, k)].1
    } else {
        zero
    }
}

/// The combination, under `plus`, of the counts of every entry of `s`
/// carrying key `k`.
pub open spec fn esum<C, IV>(s: Seq<(Range, C, IV)>, k: Range, plus: spec_fn(C, C) -> C, zero: C) -> C
    decreases s.len(),
{
    if s.len() == 0 {
        zero
    } else if s[0].0 == k {
        plus(s[0].1, esum(s.subrange(1, s.len() as int), k, plus, zero))
    } else {
        esum(s.subrange(1, s.len() as int), k, plus, zero)
    }
}

/// The count stored for key `k` by the last entry of `s` carrying it,
/// or `zero` when `k` is absent.
pub open spec fn elast<C, IV>(s: Seq<(Range, C, IV)>, k: Range, zero: C) -> C
    decreases s.len(),
{
    if s.len() == 0 {
        zero
    } else if s.last().0 == k {
        s.last().1
    } else {
        elast(s.drop_last(), k, zero)
    }
}

/// Replacing insertion: the first entry with `e`'s key has its count and
/// descriptor replaced in place; a new key is appended.
pub open spec fn upsert_repl<C, IV>(s: Seq<(Range, C, IV)>, e: (Range, C, IV)) -> Seq<(Range, C, IV)> {
    if ehas(s, e.0) {
        s.update(eidx(s, e.0), e)
    } else {
        s.push(e)
    }
}

/// Adding insertion: the first entry with `e`'s key has `e`'s count combined
/// into it and keeps its descriptor; a new key is appended.
pub open spec fn upsert_add<C, IV>(
    s: Seq<(Range, C, IV)>,
    e: (Range, C, IV),
    plus: spec_fn(C, C) -> C,
) -> Seq<(Range, C, IV)> {
    if ehas(s, e.0) {
        s.update(eidx(s, e.0), (e.0, plus(s[eidx(s, e.0)].1, e.1), s[eidx(s, e.0)].2))
    } else {
        s.push(e)
    }
}

/// Every entry of `y`, in order, inserted into `acc` by replacement.
pub open spec fn fold_repl<C, IV>(acc: Seq<(Range, C, IV)>, y: Seq<(Range, C, IV)>) -> Seq<(Range, C, IV)>
    decreases y.len(),
{
    if y.len() == 0 {
        acc
    } else {
        fold_repl(upsert_repl(acc, y[0]), y.subrange(1, y.len() as int))
    }
}

/// The working sequence seeded from the receiver's entries.
pub open spec fn seed<C, IV>(y: Seq<(Range, C, IV)>) -> Seq<(Range, C, IV)> {
    fold_repl(Seq::empty(), y)
}

/// Every entry of `y`, in order, inserted into `x` by addition.
pub open spec fn fold_add<C, IV>(
    x: Seq<(Range, C, IV)>,
    y: Seq<(Range, C, IV)>,
    plus: spec_fn(C, C) -> C,
) -> Seq<(Range, C, IV)>
    decreases y.len(),
{
    if y.len() == 0 {
        x
    } else {
        fold_add(upsert_add(x, y[0], plus), y.subrange(1, y.len() as int), plus)
    }
}

/// The whole merge: seed from the receiver `a`, fold the incoming `b` in.
pub open spec fn merge_entries<C, IV>(
    a: Seq<(Range, C, IV)>,
    b: Seq<(Range, C, IV)>,
    plus: spec_fn(C, C) -> C,
) -> Seq<(Range, C, IV)> {
    fold_add(seed(a), b, plus)
}

/// No two entries of `s` carry the same identity key.
pub open spec fn edistinct<C, IV>(s: Seq<(Range, C, IV)>) -> bool {
    forall|i: int, j: int| 0 <= i < j < s.len() ==> s[i].0 != s[j].0
}

/// How scalar counts combine: addition.
pub open spec fn plus_int() -> spec_fn(int, int) -> int {
    |a: int, b: int| a + b
}

/// The element of `v` at `i`, reading positions past the end as zero —
/// the zero-padding of the branch path-count merge.
pub open spec fn vget(v: Seq<int>, i: int) -> int {
    if 0 <= i < v.len() {
        v[i]
    } else {
        0
    }
}

/// Element-wise sum of two count lists, the shorter zero-padded to the
/// longer; entries beyond the shorter list are left as they were.
pub open spec fn vsum(a: Seq<int>, b: Seq<int>) -> Seq<int> {
    Seq::new(
        if a.len() >= b.len() {
            a.len()
        } else {
            b.len()
        },
        |i: int| vget(a, i) + vget(b, i),
    )
}

/// How per-path count lists combine: padded element-wise addition.
pub open spec fn plus_vec() -> spec_fn(Seq<int>, Seq<int>) -> Seq<int> {
    |a: Seq<int>, b: Seq<int>| vsum(a, b)
}

/// The empty count list, the zero of `plus_vec`.
pub open spec fn zero_vec() -> Seq<int> {
    Seq::empty()
}

/// Addition is associative with zero as identity.
pub proof fn lemma_plus_int_props()
    ensures
        forall|a: int, b: int, c: int|
            #[trigger] plus_int()(plus_int()(a, b), c) == plus_int()(a, plus_int()(b, c)),
        forall|a: int| #[trigger] plus_int()(a, 0) == a,
        forall|a: int| #[trigger] plus_int()(0, a) == a,
        forall|a: int, b: int| #[trigger] plus_int()(a, b) == plus_int()(b, a),
{
}

/// Padded element-wise addition is associative with the empty list as identity.
pub proof fn lemma_plus_vec_props()
    ensures
        forall|a: Seq<int>, b: Seq<int>, c: Seq<int>|
            #[trigger] plus_vec()(plus_vec()(a, b), c) == plus_vec()(a, plus_vec()(b, c)),
        forall|a: Seq<int>| #[trigger] plus_vec()(a, zero_vec()) == a,
        forall|a: Seq<int>| #[trigger] plus_vec()(zero_vec(), a) == a,
        forall|a: Seq<int>, b: Seq<int>| #[trigger] plus_vec()(a, b) == plus_vec()(b, a),
{
    assert forall|a: Seq<int>, b: Seq<int>| #[trigger] plus_vec()(a, b) == plus_vec()(b, a) by {
        lemma_vsum_commutes(a, b);
    }
    assert forall|a: Seq<int>, b: Seq<int>, c: Seq<int>|
        #[trigger] plus_vec()(plus_vec()(a, b), c) == plus_vec()(a, plus_vec()(b, c)) by {
        assert(vsum(vsum(a, b), c) =~= vsum(a, vsum(b, c)));
    }
    assert forall|a: Seq<int>| #[trigger] plus_vec()(a, zero_vec()) == a by {
        assert(vsum(a, zero_vec()) =~= a);
    }
    assert forall|a: Seq<int>| #[trigger] plus_vec()(zero_vec(), a) == a by {
        assert(vsum(zero_vec(), a) =~= a);
    }
}

/// Padded element-wise addition is commutative.
pub proof fn lemma_vsum_commutes(a: Seq<int>, b: Seq<int>)
    ensures
        vsum(a, b) == vsum(b, a),
{
    assert(vsum(a, b) =~= vsum(b, a));
}

/// Reading an element of a padded sum.
pub proof fn lemma_vget_vsum(a: Seq<int>, b: Seq<int>, h: int)
    ensures
        vget(vsum(a, b), h) == vget(a, h) + vget(b, h),
{
}

/// Every scalar count of `s` is within `[0, hi]`.
pub open spec fn counts_within<IV>(s: Seq<(Range, int, IV)>, hi: int) -> bool {
    forall|i: int| 0 <= i < s.len() ==> 0 <= #[trigger] s[i].1 <= hi
}

/// Every element of every count list of `s` is within `[0, hi]`.
pub open spec fn vcounts_within<IV>(s: Seq<(Range, Seq<int>, IV)>, hi: int) -> bool {
    forall|i: int, h: int|
        0 <= i < s.len() && 0 <= h < s[i].1.len() ==> 0 <= #[trigger] s[i].1[h] <= hi
}

/// Splitting a scalar per-key sum around a concatenation.
pub proof fn lemma_esum_int_app<IV>(x: Seq<(Range, int, IV)>, y: Seq<(Range, int, IV)>, k: Range)
    ensures
        esum(x + y, k, plus_int(), 0) == esum(x, k, plus_int(), 0) + esum(y, k, plus_int(), 0),
    decreases x.len(),
{
    if x.len() == 0 {
        assert(x + y =~= y);
    } else {
        let xt = x.subrange(1, x.len() as int);
        assert((x + y).subrange(1, (x + y).len() as int) =~= xt + y);
        assert((x + y)[0] == x[0]);
        lemma_esum_int_app(xt, y, k);
    }
}

/// A scalar per-key sum of nonnegative counts is nonnegative.
pub proof fn lemma_esum_int_nonneg<IV>(s: Seq<(Range, int, IV)>, k: Range)
    requires
        forall|i: int| 0 <= i < s.len() ==> #[trigger] s[i].1 >= 0,
    ensures
        esum(s, k, plus_int(), 0) >= 0,
    decreases s.len(),
{
    if s.len() > 0 {
        let t = s.subrange(1, s.len() as int);
        lemma_esum_int_nonneg(t, k);
    }
}

/// A prefix of nonnegative counts sums to no more than the whole, and one
/// more entry grows the prefix sum by exactly that entry's contribution.
pub proof fn lemma_esum_int_take<IV>(s: Seq<(Range, int, IV)>, j: int, k: Range)
    requires
        0 <= j < s.len(),
        forall|i: int| 0 <= i < s.len() ==> #[trigger] s[i].1 >= 0,
    ensures
        esum(s.take(j + 1), k, plus_int(), 0) == esum(s.take(j), k, plus_int(), 0) + (if s[j].0 == k {
            s[j].1
        } else {
            0
        }),
        esum(s.take(j + 1), k, plus_int(), 0) <= esum(s, k, plus_int(), 0),
{
    assert(s.take(j + 1) =~= s.take(j) + seq![s[j]]);
    lemma_esum_int_app(s.take(j), seq![s[j]], k);
    let one = seq![s[j]];
    assert(one[0] == s[j]);
    assert(one.subrange(1, 1) =~= Seq::<(Range, int, IV)>::empty());
    assert(esum(one.subrange(1, 1), k, plus_int(), 0) == 0);
    assert(esum(one, k, plus_int(), 0) == if s[j].0 == k {
        s[j].1
    } else {
        0
    });
    assert(s =~= s.take(j + 1) + s.skip(j + 1));
    lemma_esum_int_app(s.take(j + 1), s.skip(j + 1), k);
    assert forall|i: int| 0 <= i < s.skip(j + 1).len() implies #[trigger] s.skip(j + 1)[i].1 >= 0 by {
        assert(s.skip(j + 1)[i] == s[i + j + 1]);
    }
    lemma_esum_int_nonneg(s.skip(j + 1), k);
}

/// Splitting a per-path per-key sum around a concatenation.
pub proof fn lemma_esum_vec_app<IV>(
    x: Seq<(Range, Seq<int>, IV)>,
    y: Seq<(Range, Seq<int>, IV)>,
    k: Range,
)
    ensures
        esum(x + y, k, plus_vec(), zero_vec()) == vsum(
            esum(x, k, plus_vec(), zero_vec()),
            esum(y, k, plus_vec(), zero_vec()),
        ),
    decreases x.len(),
{
    lemma_plus_vec_props();
    if x.len() == 0 {
        assert(x + y =~= y);
        assert(plus_vec()(zero_vec(), esum(y, k, plus_vec(), zero_vec())) == esum(
            y,
            k,
            plus_vec(),
            zero_vec(),
        ));
    } else {
        let xt = x.subrange(1, x.len() as int);
        assert((x + y).subrange(1, (x + y).len() as int) =~= xt + y);
        assert((x + y)[0] == x[0]);
        lemma_esum_vec_app(xt, y, k);
        if x[0].0 == k {
            assert(plus_vec()(plus_vec()(x[0].1, esum(xt, k, plus_vec(), zero_vec())), esum(
                y,
                k,
                plus_vec(),
                zero_vec(),
            )) == plus_vec()(x[0].1, plus_vec()(esum(xt, k, plus_vec(), zero_vec()), esum(
                y,
                k,
                plus_vec(),
                zero_vec(),
            ))));
        }
    }
}

/// A per-path per-key sum of nonnegative counts is nonnegative everywhere.
pub proof fn lemma_esum_vec_nonneg<IV>(s: Seq<(Range, Seq<int>, IV)>, k: Range)
    requires
        vcounts_within(s, 0xffff_ffff),
    ensures
        forall|h: int| #[trigger] vget(esum(s, k, plus_vec(), zero_vec()), h) >= 0,
    decreases s.len(),
{
    if s.len() == 0 {
    } else {
        let t = s.subrange(1, s.len() as int);
        assert(vcounts_within(t, 0xffff_ffff)) by {
            assert forall|i: int, h: int|
                0 <= i < t.len() && 0 <= h < t[i].1.len() implies 0 <= #[trigger] t[i].1[h]
                <= 0xffff_ffff by {
                assert(t[i] == s[i + 1]);
            }
        }
        lemma_esum_vec_nonneg(t, k);
        if s[0].0 == k {
            assert(esum(s, k, plus_vec(), zero_vec()) == plus_vec()(
                s[0].1,
                esum(t, k, plus_vec(), zero_vec()),
            ));
            assert forall|h: int|
                #[trigger] vget(esum(s, k, plus_vec(), zero_vec()), h) >= 0 by {
                lemma_vget_vsum(s[0].1, esum(t, k, plus_vec(), zero_vec()), h);
            }
        } else {
            assert(esum(s, k, plus_vec(), zero_vec()) == esum(t, k, plus_vec(), zero_vec()));
        }
    }
}

/// The per-path analogue of `lemma_esum_int_take`, element-wise.
pub proof fn lemma_esum_vec_take<IV>(s: Seq<(Range, Seq<int>, IV)>, j: int, k: Range)
    requires
        0 <= j < s.len(),
        vcounts_within(s, 0xffff_ffff),
    ensures
        esum(s.take(j + 1), k, plus_vec(), zero_vec()) == if s[j].0 == k {
            vsum(esum(s.take(j), k, plus_vec(), zero_vec()), s[j].1)
        } else {
            esum(s.take(j), k, plus_vec(), zero_vec())
        },
        forall|h: int|
            #[trigger] vget(esum(s.take(j + 1), k, plus_vec(), zero_vec()), h) <= vget(
                esum(s, k, plus_vec(), zero_vec()),
                h,
            ),
{
    lemma_plus_vec_props();
    assert(s.take(j + 1) =~= s.take(j) + seq![s[j]]);
    lemma_esum_vec_app(s.take(j), seq![s[j]], k);
    let one = seq![s[j]];
    assert(one[0] == s[j]);
    assert(one.subrange(1, 1) =~= Seq::<(Range, Seq<int>, IV)>::empty());
    assert(esum(one.subrange(1, 1), k, plus_vec(), zero_vec()) == zero_vec());
    if s[j].0 == k {
        assert(esum(one, k, plus_vec(), zero_vec()) == plus_vec()(s[j].1, zero_vec()));
        assert(plus_vec()(s[j].1, zero_vec()) == s[j].1);
    } else {
        assert(esum(one, k, plus_vec(), zero_vec()) == zero_vec());
    }
    assert(s =~= s.take(j + 1) + s.skip(j + 1));
    lemma_esum_vec_app(s.take(j + 1), s.skip(j + 1), k);
    assert(vcounts_within(s.skip(j + 1), 0xffff_ffff)) by {
        assert forall|i: int, h: int|
            0 <= i < s.skip(j + 1).len() && 0 <= h < s.skip(j + 1)[i].1.len() implies 0
            <= #[trigger] s.skip(j + 1)[i].1[h] <= 0xffff_ffff by {
            assert(s.skip(j + 1)[i] == s[i + j + 1]);
        }
    }
    lemma_esum_vec_nonneg(s.skip(j + 1), k);
    assert forall|h: int|
        #[trigger] vget(esum(s.take(j + 1), k, plus_vec(), zero_vec()), h) <= vget(
            esum(s, k, plus_vec(), zero_vec()),
            h,
        ) by {
        lemma_vget_vsum(
            esum(s.take(j + 1), k, plus_vec(), zero_vec()),
            esum(s.skip(j + 1), k, plus_vec(), zero_vec()),
            h,
        );
    }
}

/// A key that never occurs contributes nothing.
pub proof fn lemma_esum_absent<C, IV>(
    s: Seq<(Range, C, IV)>,
    k: Range,
    plus: spec_fn(C, C) -> C,
    zero: C,
)
    requires
        !ehas(s, k),
    ensures
        esum(s, k, plus, zero) == zero,
    decreases s.len(),
{
    if s.len() > 0 {
        assert(s[0].0 != k);
        let t = s.subrange(1, s.len() as int);
        assert forall|i: int| 0 <= i < t.len() implies t[i].0 != k by {
            assert(t[i] == s[i + 1]);
        }
        assert(!ehas(t, k));
        lemma_esum_absent(t, k, plus, zero);
    }
}

/// With distinct keys, a key's sum is its one count (combined with zero).
pub proof fn lemma_esum_single<C, IV>(
    s: Seq<(Range, C, IV)>,
    i: int,
    plus: spec_fn(C, C) -> C,
    zero: C,
)
    requires
        edistinct(s),
        0 <= i < s.len(),
    ensures
        esum(s, s[i].0, plus, zero) == plus(s[i].1, zero),
    decreases s.len(),
{
    let k = s[i].0;
    let t = s.subrange(1, s.len() as int);
    if i == 0 {
        assert forall|j: int| 0 <= j < t.len() implies t[j].0 != k by {
            assert(t[j] == s[j + 1]);
        }
        assert(!ehas(t, k));
        lemma_esum_absent(t, k, plus, zero);
    } else {
        assert(s[0].0 != k);
        assert(t[i - 1] == s[i]);
        lemma_esum_single(t, i - 1, plus, zero);
    }
}

/// With distinct keys, a key's last count is its one count.
pub proof fn lemma_elast_single<C, IV>(s: Seq<(Range, C, IV)>, i: int, zero: C)
    requires
        edistinct(s),
        0 <= i < s.len(),
    ensures
        elast(s, s[i].0, zero) == s[i].1,
    decreases s.len(),
{
    let k = s[i].0;
    if i == s.len() - 1 {
    } else {
        assert(s.last().0 != k);
        assert(s.drop_last()[i] == s[i]);
        lemma_elast_single(s.drop_last(), i, zero);
    }
}

/// Folding a concatenation is folding the parts in turn.
pub proof fn lemma_fold_add_concat<C, IV>(
    x: Seq<(Range, C, IV)>,
    y: Seq<(Range, C, IV)>,
    z: Seq<(Range, C, IV)>,
    plus: spec_fn(C, C) -> C,
)
    ensures
        fold_add(x, y + z, plus) == fold_add(fold_add(x, y, plus), z, plus),
    decreases y.len(),
{
    if y.len() == 0 {
        assert(y + z =~= z);
        assert(fold_add(x, y, plus) == x);
    } else {
        assert((y + z)[0] == y[0]);
        assert((y + z).subrange(1, (y + z).len() as int) =~= y.subrange(1, y.len() as int) + z);
        assert(fold_add(x, y + z, plus) == fold_add(
            upsert_add(x, y[0], plus),
            y.subrange(1, y.len() as int) + z,
            plus,
        ));
        lemma_fold_add_concat(upsert_add(x, y[0], plus), y.subrange(1, y.len() as int), z, plus);
        assert(fold_add(x, y, plus) == fold_add(
            upsert_add(x, y[0], plus),
            y.subrange(1, y.len() as int),
            plus,
        ));
    }
}

/// Folding entries whose keys are all new appends them unchanged.
pub proof fn lemma_fold_add_id<C, IV>(
    x: Seq<(Range, C, IV)>,
    y: Seq<(Range, C, IV)>,
    plus: spec_fn(C, C) -> C,
)
    requires
        edistinct(y),
        forall|i: int| 0 <= i < y.len() ==> !ehas(x, #[trigger] y[i].0),
    ensures
        fold_add(x, y, plus) == x + y,
    decreases y.len(),
{
    if y.len() == 0 {
        assert(x + y =~= x);
    } else {
        let t = y.subrange(1, y.len() as int);
        assert(!ehas(x, y[0].0));
        let x2 = x.push(y[0]);
        assert(upsert_add(x, y[0], plus) == x2);
        assert forall|i: int| 0 <= i < t.len() implies !ehas(x2, #[trigger] t[i].0) by {
            assert(t[i] == y[i + 1]);
            assert(y[0].0 != y[i + 1].0);
            if ehas(x2, t[i].0) {
                let j = choose|j: int| 0 <= j < x2.len() && x2[j].0 == t[i].0;
                if j < x.len() {
                    assert(ehas(x, y[i + 1].0));
                }
            }
        }
        lemma_fold_add_id(x2, t, plus);
        assert(fold_add(x, y, plus) == fold_add(x2, t, plus));
        assert(x2 + t =~= x + y);
    }
}

/// Two insertions of the same key fuse into one with the combined count.
pub proof fn lemma_upsert_add_fuse<C, IV>(
    z: Seq<(Range, C, IV)>,
    d: (Range, C, IV),
    e: (Range, C, IV),
    plus: spec_fn(C, C) -> C,
)
    requires
        d.0 == e.0,
        edistinct(z),
        forall|a: C, b: C, c: C| #[trigger] plus(plus(a, b), c) == plus(a, plus(b, c)),
    ensures
        upsert_add(upsert_add(z, d, plus), e, plus) == upsert_add(
            z,
            (d.0, plus(d.1, e.1), d.2),
            plus,
        ),
{
    let k = d.0;
    if ehas(z, k) {
        lemma_eidx(z, k);
        let i = eidx(z, k);
        let z1 = upsert_add(z, d, plus);
        assert(z1[i].0 == k);
        lemma_upsert_add_keys(z, d, plus);
        lemma_eidx_unique(z1, i);
        assert(upsert_add(z1, e, plus) =~= z.update(
            i,
            (k, plus(plus(z[i].1, d.1), e.1), z[i].2),
        ));
        assert(upsert_add(z, (d.0, plus(d.1, e.1), d.2), plus) =~= z.update(
            i,
            (k, plus(z[i].1, plus(d.1, e.1)), z[i].2),
        ));
    } else {
        let z1 = z.push(d);
        assert(upsert_add(z, d, plus) == z1);
        let i = z.len() as int;
        assert(z1[i].0 == k);
        lemma_upsert_add_keys(z, d, plus);
        lemma_eidx_unique(z1, i);
        assert(upsert_add(z1, e, plus) =~= z.push((k, plus(d.1, e.1), d.2)));
        assert(!ehas(z, (d.0, plus(d.1, e.1), d.2).0));
        assert(upsert_add(z, (d.0, plus(d.1, e.1), d.2), plus) == z.push((k, plus(d.1, e.1), d.2)));
    }
}

/// Insertions of different keys commute, as long as the second key is
/// already present (so no two appends can trade places).
pub proof fn lemma_upsert_add_commute<C, IV>(
    z: Seq<(Range, C, IV)>,
    d: (Range, C, IV),
    e: (Range, C, IV),
    plus: spec_fn(C, C) -> C,
)
    requires
        d.0 != e.0,
        ehas(z, e.0),
        edistinct(z),
    ensures
        upsert_add(upsert_add(z, d, plus), e, plus) == upsert_add(
            upsert_add(z, e, plus),
            d,
            plus,
        ),
{
    lemma_eidx(z, e.0);
    let ie = eidx(z, e.0);
    lemma_upsert_add_keys(z, d, plus);
    lemma_upsert_add_keys(z, e, plus);
    if ehas(z, d.0) {
        lemma_eidx(z, d.0);
        let id = eidx(z, d.0);
        let zd = upsert_add(z, d, plus);
        let ze = upsert_add(z, e, plus);
        assert(zd[ie].0 == e.0);
        lemma_eidx_unique(zd, ie);
        assert(ze[id].0 == d.0);
        lemma_eidx_unique(ze, id);
        assert(upsert_add(zd, e, plus) =~= upsert_add(ze, d, plus));
    } else {
        let zd = z.push(d);
        assert(upsert_add(z, d, plus) == zd);
        let ze = upsert_add(z, e, plus);
        assert(zd[ie].0 == e.0);
        lemma_eidx_unique(zd, ie);
        assert(!ehas(ze, d.0));
        assert(upsert_add(zd, e, plus) =~= ze.push(d));
        assert(upsert_add(ze, d, plus) == ze.push(d));
    }
}

/// Folding an already-collapsed sequence extended by one entry is the fold
/// followed by that entry.
pub proof fn lemma_fold_add_collapsed<C, IV>(
    x: Seq<(Range, C, IV)>,
    c: Seq<(Range, C, IV)>,
    e: (Range, C, IV),
    plus: spec_fn(C, C) -> C,
)
    requires
        edistinct(x),
        edistinct(c),
        forall|a: C, b: C, c2: C| #[trigger] plus(plus(a, b), c2) == plus(a, plus(b, c2)),
    ensures
        fold_add(x, upsert_add(c, e, plus), plus) == upsert_add(fold_add(x, c, plus), e, plus),
    decreases c.len(),
{
    if !ehas(c, e.0) {
        assert(upsert_add(c, e, plus) == c.push(e));
        lemma_fold_add_push(x, c, e, plus);
    } else {
        let k = e.0;
        let cd = c.drop_last();
        let d = c.last();
        assert(c =~= cd.push(d));
        if d.0 == k {
            assert forall|j: int| 0 <= j < cd.len() implies cd[j].0 != k by {
                assert(cd[j] == c[j]);
                assert(c[j].0 != c[c.len() - 1].0);
            }
            assert(!ehas(cd, k));
            assert(c[c.len() - 1].0 == k);
            lemma_eidx_unique(c, c.len() - 1);
            assert(upsert_add(c, e, plus) =~= cd.push((k, plus(d.1, e.1), d.2)));
            lemma_fold_add_push(x, cd, (k, plus(d.1, e.1), d.2), plus);
            lemma_fold_add_push(x, cd, d, plus);
            let fx = fold_add(x, cd, plus);
            lemma_fold_add_keys(x, cd, plus);
            lemma_upsert_add_fuse(fx, d, e, plus);
            assert(fold_add(x, c, plus) == upsert_add(fx, d, plus));
        } else {
            assert(ehas(cd, k)) by {
                let i = choose|i: int| 0 <= i < c.len() && c[i].0 == k;
                assert(i < c.len() - 1);
                assert(cd[i].0 == k);
            }
            lemma_eidx(cd, k);
            let i = eidx(cd, k);
            assert(c[i].0 == k);
            lemma_eidx_unique(c, i);
            assert(upsert_add(c, e, plus) =~= upsert_add(cd, e, plus).push(d)) by {
                lemma_eidx(c, k);
            }
            lemma_fold_add_push(x, upsert_add(cd, e, plus), d, plus);
            assert(edistinct(cd)) by {
                assert(forall|p: int, q: int|
                    0 <= p < q < cd.len() ==> cd[p] == c[p] && cd[q] == c[q]);
            }
            lemma_fold_add_collapsed(x, cd, e, plus);
            lemma_fold_add_push(x, cd, d, plus);
            let fx = fold_add(x, cd, plus);
            lemma_fold_add_keys(x, cd, plus);
            assert(ehas(fx, k));
            lemma_upsert_add_commute(fx, d, e, plus);
            assert(fold_add(x, upsert_add(c, e, plus), plus) == upsert_add(
                fold_add(x, upsert_add(cd, e, plus), plus),
                d,
                plus,
            ));
            assert(fold_add(x, c, plus) == upsert_add(fx, d, plus));
        }
    }
}

/// Folding a pre-collapsed sequence is folding the raw one.
pub proof fn lemma_fold_add_combine<C, IV>(
    x: Seq<(Range, C, IV)>,
    w: Seq<(Range, C, IV)>,
    plus: spec_fn(C, C) -> C,
)
    requires
        edistinct(x),
        forall|a: C, b: C, c: C| #[trigger] plus(plus(a, b), c) == plus(a, plus(b, c)),
    ensures
        fold_add(x, fold_add(Seq::empty(), w, plus), plus) == fold_add(x, w, plus),
    decreases w.len(),
{
    if w.len() == 0 {
    } else {
        let wd = w.drop_last();
        let e = w.last();
        assert(w =~= wd.push(e));
        lemma_fold_add_push(Seq::empty(), wd, e, plus);
        lemma_fold_add_push(x, wd, e, plus);
        lemma_fold_add_combine(x, wd, plus);
        let c = fold_add(Seq::<(Range, C, IV)>::empty(), wd, plus);
        lemma_fold_add_keys(Seq::<(Range, C, IV)>::empty(), wd, plus);
        lemma_fold_add_collapsed(x, c, e, plus);
    }
}

/// The merge of entry sequences with distinct keys is associative.
pub proof fn lemma_merge_entries_assoc<C, IV>(
    a: Seq<(Range, C, IV)>,
    b: Seq<(Range, C, IV)>,
    c: Seq<(Range, C, IV)>,
    plus: spec_fn(C, C) -> C,
)
    requires
        edistinct(a),
        edistinct(b),
        edistinct(c),
        forall|p: C, q: C, r: C| #[trigger] plus(plus(p, q), r) == plus(p, plus(q, r)),
    ensures
        merge_entries(merge_entries(a, b, plus), c, plus) == merge_entries(
            a,
            merge_entries(b, c, plus),
            plus,
        ),
{
    lemma_seed_of_distinct(a);
    lemma_seed_of_distinct(b);
    let ab = fold_add(a, b, plus);
    lemma_fold_add_keys(a, b, plus);
    lemma_seed_of_distinct(ab);
    assert(merge_entries(merge_entries(a, b, plus), c, plus) == fold_add(
        fold_add(a, b, plus),
        c,
        plus,
    ));
    lemma_fold_add_concat(a, b, c, plus);
    assert(fold_add(fold_add(a, b, plus), c, plus) == fold_add(a, b + c, plus));

    let bc = fold_add(b, c, plus);
    assert(merge_entries(a, merge_entries(b, c, plus), plus) == fold_add(a, bc, plus));
    lemma_fold_add_id(Seq::empty(), b, plus);
    assert(fold_add(Seq::<(Range, C, IV)>::empty(), b, plus) =~= b);
    lemma_fold_add_concat(Seq::empty(), b, c, plus);
    assert(fold_add(Seq::<(Range, C, IV)>::empty(), b + c, plus) == bc);
    lemma_fold_add_combine(a, b + c, plus);
}

/// Folding entries whose keys are all present only updates in place: the
/// keys, their order, and the stored descriptors stay.
pub proof fn lemma_fold_add_no_new<C, IV>(
    x: Seq<(Range, C, IV)>,
    y: Seq<(Range, C, IV)>,
    plus: spec_fn(C, C) -> C,
)
    requires
        edistinct(x),
        forall|i: int| 0 <= i < y.len() ==> ehas(x, #[trigger] y[i].0),
    ensures
        fold_add(x, y, plus).len() == x.len(),
        forall|i: int|
            0 <= i < x.len() ==> #[trigger] fold_add(x, y, plus)[i].0 == x[i].0 && fold_add(
                x,
                y,
                plus,
            )[i].2 == x[i].2,
    decreases y.len(),
{
    if y.len() == 0 {
    } else {
        let t = y.subrange(1, y.len() as int);
        let x2 = upsert_add(x, y[0], plus);
        assert(fold_add(x, y, plus) == fold_add(x2, t, plus));
        assert(ehas(x, y[0].0));
        lemma_eidx(x, y[0].0);
        lemma_upsert_add_keys(x, y[0], plus);
        assert(x2.len() == x.len());
        assert(forall|i: int| 0 <= i < x.len() ==> #[trigger] x2[i].0 == x[i].0 && x2[i].2
            == x[i].2);
        assert forall|i: int| 0 <= i < t.len() implies ehas(x2, #[trigger] t[i].0) by {
            assert(t[i] == y[i + 1]);
            assert(ehas(x, y[i + 1].0));
        }
        lemma_fold_add_no_new(x2, t, plus);
    }
}

/// Merging a sequence with itself keeps its keys, order and descriptors,
/// and combines each count with itself.
pub proof fn lemma_merge_entries_self<C, IV>(
    x: Seq<(Range, C, IV)>,
    plus: spec_fn(C, C) -> C,
    zero: C,
)
    requires
        edistinct(x),
        forall|a: C, b: C, c: C| #[trigger] plus(plus(a, b), c) == plus(a, plus(b, c)),
        forall|a: C| #[trigger] plus(a, zero) == a,
        forall|a: C| #[trigger] plus(zero, a) == a,
    ensures
        merge_entries(x, x, plus).len() == x.len(),
        forall|i: int|
            0 <= i < x.len() ==> #[trigger] merge_entries(x, x, plus)[i] == (
                x[i].0,
                plus(x[i].1, x[i].1),
                x[i].2,
            ),
{
    lemma_seed_of_distinct(x);
    let m = fold_add(x, x, plus);
    assert(merge_entries(x, x, plus) == m);
    lemma_fold_add_no_new(x, x, plus);
    lemma_fold_add_counts(x, x, plus, zero);
    lemma_fold_add_keys(x, x, plus);
    assert forall|i: int|
        0 <= i < x.len() implies #[trigger] merge_entries(x, x, plus)[i] == (
        x[i].0,
        plus(x[i].1, x[i].1),
        x[i].2,
    ) by {
        let k = x[i].0;
        assert(m[i].0 == k);
        lemma_eidx_unique(m, i);
        assert(ecount(m, k, zero) == m[i].1);
        lemma_eidx_unique(x, i);
        assert(ecount(x, k, zero) == x[i].1);
        lemma_esum_single(x, i, plus, zero);
        assert(m[i].1 == plus(x[i].1, plus(x[i].1, zero)));
    }
}

/// Every key-descriptor pair in a fold comes from one of the inputs, so a
/// property of all input pairs holds of all merged pairs.
pub proof fn lemma_fold_add_pairs<C, IV>(
    x: Seq<(Range, C, IV)>,
    y: Seq<(Range, C, IV)>,
    plus: spec_fn(C, C) -> C,
    p: spec_fn(Range, IV) -> bool,
)
    requires
        forall|i: int| 0 <= i < x.len() ==> p(#[trigger] x[i].0, x[i].2),
        forall|i: int| 0 <= i < y.len() ==> p(#[trigger] y[i].0, y[i].2),
    ensures
        forall|i: int|
            0 <= i < fold_add(x, y, plus).len() ==> p(
                #[trigger] fold_add(x, y, plus)[i].0,
                fold_add(x, y, plus)[i].2,
            ),
    decreases y.len(),
{
    if y.len() == 0 {
    } else {
        let t = y.subrange(1, y.len() as int);
        let x2 = upsert_add(x, y[0], plus);
        assert(fold_add(x, y, plus) == fold_add(x2, t, plus));
        if ehas(x, y[0].0) {
            lemma_eidx(x, y[0].0);
        }
        assert(forall|i: int| 0 <= i < x2.len() ==> p(#[trigger] x2[i].0, x2[i].2));
        assert(forall|i: int| 0 <= i < t.len() ==> p(#[trigger] t[i].0, t[i].2));
        lemma_fold_add_pairs(x2, t, plus, p);
    }
}

/// The seeding analogue of `lemma_fold_add_pairs`.
pub proof fn lemma_fold_repl_pairs<C, IV>(
    x: Seq<(Range, C, IV)>,
    y: Seq<(Range, C, IV)>,
    p: spec_fn(Range, IV) -> bool,
)
    requires
        forall|i: int| 0 <= i < x.len() ==> p(#[trigger] x[i].0, x[i].2),
        forall|i: int| 0 <= i < y.len() ==> p(#[trigger] y[i].0, y[i].2),
    ensures
        forall|i: int|
            0 <= i < fold_repl(x, y).len() ==> p(
                #[trigger] fold_repl(x, y)[i].0,
                fold_repl(x, y)[i].2,
            ),
    decreases y.len(),
{
    if y.len() == 0 {
    } else {
        let t = y.subrange(1, y.len() as int);
        let x2 = upsert_repl(x, y[0]);
        assert(fold_repl(x, y) == fold_repl(x2, t));
        if ehas(x, y[0].0) {
            lemma_eidx(x, y[0].0);
        }
        assert(forall|i: int| 0 <= i < x2.len() ==> p(#[trigger] x2[i].0, x2[i].2));
        assert(forall|i: int| 0 <= i < t.len() ==> p(#[trigger] t[i].0, t[i].2));
        lemma_fold_repl_pairs(x2, t, p);
    }
}

/// The last scalar count of a key among nonnegative counts is nonnegative.
pub proof fn lemma_elast_int_nonneg<IV>(s: Seq<(Range, int, IV)>, k: Range)
    requires
        forall|i: int| 0 <= i < s.len() ==> #[trigger] s[i].1 >= 0,
    ensures
        elast(s, k, 0) >= 0,
    decreases s.len(),
{
    if s.len() > 0 {
        if s.last().0 != k {
            assert(forall|i: int|
                0 <= i < s.drop_last().len() ==> #[trigger] s.drop_last()[i].1 == s[i].1);
            lemma_elast_int_nonneg(s.drop_last(), k);
        }
    }
}

/// The last path-count list of a key, element by element, stays within the
/// bounds of the lists it came from.
pub proof fn lemma_elast_vec_bounds<IV>(s: Seq<(Range, Seq<int>, IV)>, k: Range, hi: int)
    requires
        vcounts_within(s, hi),
        hi >= 0,
    ensures
        forall|h: int| #[trigger] vget(elast(s, k, zero_vec()), h) >= 0,
    decreases s.len(),
{
    if s.len() == 0 {
        assert(elast(s, k, zero_vec()) == zero_vec());
        assert(forall|h: int| #[trigger] vget(zero_vec(), h) == 0);
    } else if s.last().0 == k {
        assert forall|h: int| #[trigger] vget(elast(s, k, zero_vec()), h) >= 0 by {
            assert(elast(s, k, zero_vec()) == s.last().1);
            if 0 <= h < s.last().1.len() {
                assert(s[s.len() - 1].1[h] >= 0);
            }
        }
    } else {
        assert(vcounts_within(s.drop_last(), hi)) by {
            assert(forall|i: int, h: int|
                0 <= i < s.drop_last().len() && 0 <= h < s.drop_last()[i].1.len()
                    ==> #[trigger] s.drop_last()[i].1[h] == s[i].1[h]);
        }
        lemma_elast_vec_bounds(s.drop_last(), k, hi);
        assert(elast(s, k, zero_vec()) == elast(s.drop_last(), k, zero_vec()));
        assert forall|h: int| #[trigger] vget(elast(s, k, zero_vec()), h) >= 0 by {
            assert(vget(elast(s.drop_last(), k, zero_vec()), h) >= 0);
        }
    }
}

pub proof fn lemma_eidx<C, IV>(s: Seq<(Range, C, IV)>, k: Range)
    requires
        ehas(s, k),
    ensures
        0 <= eidx(s, k) < s.len(),
        s[eidx(s, k)].0 == k,
        forall|j: int| 0 <= j < eidx(s, k) ==> s[j].0 != k,
    decreases s.len(),
{
    if s.len() == 0 {
    } else if s[0].0 == k {
    } else {
        let t = s.subrange(1, s.len() as int);
        assert(ehas(t, k)) by {
            let i = choose|i: int| 0 <= i < s.len() && s[i].0 == k;
            assert(t[i - 1].0 == k);
        }
        lemma_eidx(t, k);
        assert forall|j: int| 0 <= j < eidx(s, k) implies s[j].0 != k by {
            if j > 0 {
                assert(t[j - 1].0 != k);
                assert(s[j] == t[j - 1]);
            }
        }
    }
}

/// The keys present after an insertion, and distinctness kept.
pub proof fn lemma_upsert_repl_keys<C, IV>(s: Seq<(Range, C, IV)>, e: (Range, C, IV))
    ensures
        forall|k: Range| ehas(upsert_repl(s, e), k) <==> (ehas(s, k) || k == e.0),
        edistinct(s) ==> edistinct(upsert_repl(s, e)),
{
    let t = upsert_repl(s, e);
    if ehas(s, e.0) {
        lemma_eidx(s, e.0);
        assert forall|k: Range| ehas(t, k) implies (ehas(s, k) || k == e.0) by {
            let i = choose|i: int| 0 <= i < t.len() && t[i].0 == k;
            if i != eidx(s, e.0) {
                assert(s[i].0 == k);
            }
        }
        assert forall|k: Range| ehas(s, k) || k == e.0 implies ehas(t, k) by {
            if k == e.0 {
                assert(t[eidx(s, e.0)].0 == k);
            } else {
                let i = choose|i: int| 0 <= i < s.len() && s[i].0 == k;
                assert(t[i].0 == k);
            }
        }
    } else {
        assert forall|k: Range| ehas(t, k) implies (ehas(s, k) || k == e.0) by {
            let i = choose|i: int| 0 <= i < t.len() && t[i].0 == k;
            if i < s.len() {
                assert(s[i].0 == k);
            }
        }
        assert forall|k: Range| ehas(s, k) || k == e.0 implies ehas(t, k) by {
            if k == e.0 {
                assert(t[s.len() as int].0 == k);
            } else {
                let i = choose|i: int| 0 <= i < s.len() && s[i].0 == k;
                assert(t[i].0 == k);
            }
        }
        if edistinct(s) {
            assert forall|i: int, j: int| 0 <= i < j < t.len() implies t[i].0 != t[j].0 by {
                if j < s.len() {
                } else {
                    assert(t[i].0 == s[i].0);
                    assert(!ehas(s, e.0));
                    assert(s[i].0 != e.0);
                }
            }
        }
    }
}

pub proof fn lemma_upsert_add_keys<C, IV>(s: Seq<(Range, C, IV)>, e: (Range, C, IV), plus: spec_fn(C, C) -> C)
    ensures
        forall|k: Range| ehas(upsert_add(s, e, plus), k) <==> (ehas(s, k) || k == e.0),
        edistinct(s) ==> edistinct(upsert_add(s, e, plus)),
{
    let t = upsert_add(s, e, plus);
    if ehas(s, e.0) {
        lemma_eidx(s, e.0);
        assert forall|k: Range| ehas(t, k) implies (ehas(s, k) || k == e.0) by {
            let i = choose|i: int| 0 <= i < t.len() && t[i].0 == k;
            if i != eidx(s, e.0) {
                assert(s[i].0 == k);
            }
        }
        assert forall|k: Range| ehas(s, k) || k == e.0 implies ehas(t, k) by {
            if k == e.0 {
                assert(t[eidx(s, e.0)].0 == k);
            } else {
                let i = choose|i: int| 0 <= i < s.len() && s[i].0 == k;
                assert(t[i].0 == k);
            }
        }
    } else {
        assert forall|k: Range| ehas(t, k) implies (ehas(s, k) || k == e.0) by {
            let i = choose|i: int| 0 <= i < t.len() && t[i].0 == k;
            if i < s.len() {
                assert(s[i].0 == k);
            }
        }
        assert forall|k: Range| ehas(s, k) || k == e.0 implies ehas(t, k) by {
            if k == e.0 {
                assert(t[s.len() as int].0 == k);
            } else {
                let i = choose|i: int| 0 <= i < s.len() && s[i].0 == k;
                assert(t[i].0 == k);
            }
        }
        if edistinct(s) {
            assert forall|i: int, j: int| 0 <= i < j < t.len() implies t[i].0 != t[j].0 by {
                if j < s.len() {
                } else {
                    assert(t[i].0 == s[i].0);
                    assert(s[i].0 != e.0);
                }
            }
        }
    }
}

/// Folding one more entry from the back.
pub proof fn lemma_fold_repl_push<C, IV>(
    x: Seq<(Range, C, IV)>,
    y: Seq<(Range, C, IV)>,
    e: (Range, C, IV),
)
    ensures
        fold_repl(x, y.push(e)) == upsert_repl(fold_repl(x, y), e),
    decreases y.len(),
{
    if y.len() == 0 {
        assert(y.push(e)[0] == e);
        assert(y.push(e).subrange(1, 1) =~= Seq::<(Range, C, IV)>::empty());
        assert(fold_repl(x, y.push(e)) == fold_repl(
            upsert_repl(x, e),
            Seq::<(Range, C, IV)>::empty(),
        ));
        assert(fold_repl(upsert_repl(x, e), Seq::<(Range, C, IV)>::empty()) == upsert_repl(x, e));
        assert(fold_repl(x, y) == x);
    } else {
        assert(y.push(e)[0] == y[0]);
        assert(y.push(e).subrange(1, y.len() as int + 1) =~= y.subrange(1, y.len() as int).push(e));
        assert(fold_repl(x, y.push(e)) == fold_repl(
            upsert_repl(x, y[0]),
            y.subrange(1, y.len() as int).push(e),
        ));
        lemma_fold_repl_push(upsert_repl(x, y[0]), y.subrange(1, y.len() as int), e);
        assert(fold_repl(x, y) == fold_repl(upsert_repl(x, y[0]), y.subrange(1, y.len() as int)));
    }
}

pub proof fn lemma_fold_add_push<C, IV>(
    x: Seq<(Range, C, IV)>,
    y: Seq<(Range, C, IV)>,
    e: (Range, C, IV),
    plus: spec_fn(C, C) -> C,
)
    ensures
        fold_add(x, y.push(e), plus) == upsert_add(fold_add(x, y, plus), e, plus),
    decreases y.len(),
{
    if y.len() == 0 {
        assert(y.push(e)[0] == e);
        assert(y.push(e).subrange(1, 1) =~= Seq::<(Range, C, IV)>::empty());
        assert(fold_add(x, y.push(e), plus) == fold_add(
            upsert_add(x, e, plus),
            Seq::<(Range, C, IV)>::empty(),
            plus,
        ));
        assert(fold_add(upsert_add(x, e, plus), Seq::<(Range, C, IV)>::empty(), plus)
            == upsert_add(x, e, plus));
        assert(fold_add(x, y, plus) == x);
    } else {
        assert(y.push(e)[0] == y[0]);
        assert(y.push(e).subrange(1, y.len() as int + 1) =~= y.subrange(1, y.len() as int).push(e));
        assert(fold_add(x, y.push(e), plus) == fold_add(
            upsert_add(x, y[0], plus),
            y.subrange(1, y.len() as int).push(e),
            plus,
        ));
        lemma_fold_add_push(upsert_add(x, y[0], plus), y.subrange(1, y.len() as int), e, plus);
        assert(fold_add(x, y, plus) == fold_add(
            upsert_add(x, y[0], plus),
            y.subrange(1, y.len() as int),
            plus,
        ));
    }
}

/// The keys present after a fold, and distinctness kept.
pub proof fn lemma_fold_repl_keys<C, IV>(x: Seq<(Range, C, IV)>, y: Seq<(Range, C, IV)>)
    ensures
        forall|k: Range| ehas(fold_repl(x, y), k) <==> (ehas(x, k) || ehas(y, k)),
        edistinct(x) ==> edistinct(fold_repl(x, y)),
    decreases y.len(),
{
    if y.len() == 0 {
        assert forall|k: Range| ehas(fold_repl(x, y), k) implies (ehas(x, k) || ehas(y, k)) by {}
    } else {
        let t = y.subrange(1, y.len() as int);
        assert(fold_repl(x, y) == fold_repl(upsert_repl(x, y[0]), t));
        lemma_upsert_repl_keys(x, y[0]);
        lemma_fold_repl_keys(upsert_repl(x, y[0]), t);
        assert forall|k: Range| ehas(y, k) implies ehas(fold_repl(x, y), k) by {
            let i = choose|i: int| 0 <= i < y.len() && y[i].0 == k;
            if i > 0 {
                assert(t[i - 1].0 == k);
                assert(ehas(t, k));
            } else {
                assert(ehas(upsert_repl(x, y[0]), k));
            }
            assert(ehas(fold_repl(upsert_repl(x, y[0]), t), k));
        }
        assert forall|k: Range| ehas(fold_repl(x, y), k) implies (ehas(x, k) || ehas(y, k)) by {
            if ehas(t, k) {
                let i = choose|i: int| 0 <= i < t.len() && t[i].0 == k;
                assert(y[i + 1].0 == k);
            }
        }
    }
}

pub proof fn lemma_fold_add_keys<C, IV>(
    x: Seq<(Range, C, IV)>,
    y: Seq<(Range, C, IV)>,
    plus: spec_fn(C, C) -> C,
)
    ensures
        forall|k: Range| ehas(fold_add(x, y, plus), k) <==> (ehas(x, k) || ehas(y, k)),
        edistinct(x) ==> edistinct(fold_add(x, y, plus)),
    decreases y.len(),
{
    if y.len() == 0 {
        assert forall|k: Range| ehas(fold_add(x, y, plus), k) implies (ehas(x, k) || ehas(y, k)) by {}
    } else {
        let t = y.subrange(1, y.len() as int);
        assert(fold_add(x, y, plus) == fold_add(upsert_add(x, y[0], plus), t, plus));
        lemma_upsert_add_keys(x, y[0], plus);
        lemma_fold_add_keys(upsert_add(x, y[0], plus), t, plus);
        assert forall|k: Range| ehas(y, k) implies ehas(fold_add(x, y, plus), k) by {
            let i = choose|i: int| 0 <= i < y.len() && y[i].0 == k;
            if i > 0 {
                assert(t[i - 1].0 == k);
                assert(ehas(t, k));
            } else {
                assert(ehas(upsert_add(x, y[0], plus), k));
            }
            assert(ehas(fold_add(upsert_add(x, y[0], plus), t, plus), k));
        }
        assert forall|k: Range| ehas(fold_add(x, y, plus), k) implies (ehas(x, k) || ehas(y, k)) by {
            if ehas(t, k) {
                let i = choose|i: int| 0 <= i < t.len() && t[i].0 == k;
                assert(y[i + 1].0 == k);
            }
        }
    }
}

/// A fold can only grow the working sequence up to the number of entries folded in.
pub proof fn lemma_fold_add_len<C, IV>(
    x: Seq<(Range, C, IV)>,
    y: Seq<(Range, C, IV)>,
    plus: spec_fn(C, C) -> C,
)
    ensures
        x.len() <= fold_add(x, y, plus).len() <= x.len() + y.len(),
    decreases y.len(),
{
    if y.len() == 0 {
    } else {
        let t = y.subrange(1, y.len() as int);
        assert(fold_add(x, y, plus) == fold_add(upsert_add(x, y[0], plus), t, plus));
        if ehas(x, y[0].0) {
            lemma_eidx(x, y[0].0);
        }
        assert(x.len() <= upsert_add(x, y[0], plus).len() <= x.len() + 1);
        lemma_fold_add_len(upsert_add(x, y[0], plus), t, plus);
    }
}

pub proof fn lemma_fold_repl_len<C, IV>(x: Seq<(Range, C, IV)>, y: Seq<(Range, C, IV)>)
    ensures
        x.len() <= fold_repl(x, y).len() <= x.len() + y.len(),
    decreases y.len(),
{
    if y.len() == 0 {
    } else {
        let t = y.subrange(1, y.len() as int);
        assert(fold_repl(x, y) == fold_repl(upsert_repl(x, y[0]), t));
        if ehas(x, y[0].0) {
            lemma_eidx(x, y[0].0);
        }
        assert(x.len() <= upsert_repl(x, y[0]).len() <= x.len() + 1);
        lemma_fold_repl_len(upsert_repl(x, y[0]), t);
    }
}

/// Seeding a sequence whose keys are already distinct leaves it unchanged.
pub proof fn lemma_seed_of_distinct<C, IV>(a: Seq<(Range, C, IV)>)
    requires
        edistinct(a),
    ensures
        seed(a) == a,
{
    lemma_fold_repl_id(Seq::empty(), a);
    assert(Seq::<(Range, C, IV)>::empty() + a =~= a);
}

/// In a sequence with distinct keys, any position holding `k` is the first.
pub proof fn lemma_eidx_unique<C, IV>(s: Seq<(Range, C, IV)>, i: int)
    requires
        edistinct(s),
        0 <= i < s.len(),
    ensures
        eidx(s, s[i].0) == i,
{
    assert(ehas(s, s[i].0));
    lemma_eidx(s, s[i].0);
    let j = eidx(s, s[i].0);
    if i < j {
        assert(s[i].0 != s[j].0);
    } else if j < i {
        assert(s[j].0 != s[i].0);
    }
}

/// What an adding insertion does to each key's stored count.
pub proof fn lemma_upsert_add_ecount<C, IV>(
    s: Seq<(Range, C, IV)>,
    e: (Range, C, IV),
    plus: spec_fn(C, C) -> C,
    zero: C,
)
    requires
        edistinct(s),
    ensures
        ecount(upsert_add(s, e, plus), e.0, zero) == if ehas(s, e.0) {
            plus(ecount(s, e.0, zero), e.1)
        } else {
            e.1
        },
        forall|k: Range|
            k != e.0 ==> ecount(upsert_add(s, e, plus), k, zero) == ecount(s, k, zero),
{
    let t = upsert_add(s, e, plus);
    lemma_upsert_add_keys(s, e, plus);
    if ehas(s, e.0) {
        lemma_eidx(s, e.0);
        let i = eidx(s, e.0);
        assert(t[i].0 == e.0);
        lemma_eidx_unique(t, i);
        assert forall|k: Range| k != e.0 implies ecount(t, k, zero) == ecount(s, k, zero) by {
            if ehas(s, k) {
                lemma_eidx(s, k);
                let j = eidx(s, k);
                assert(t[j] == s[j]);
                lemma_eidx_unique(t, j);
            }
        }
    } else {
        let i = s.len() as int;
        assert(t[i].0 == e.0);
        lemma_eidx_unique(t, i);
        assert forall|k: Range| k != e.0 implies ecount(t, k, zero) == ecount(s, k, zero) by {
            if ehas(s, k) {
                lemma_eidx(s, k);
                let j = eidx(s, k);
                assert(t[j] == s[j]);
                lemma_eidx_unique(t, j);
            }
        }
    }
}

/// What a replacing insertion does to each key's stored count.
pub proof fn lemma_upsert_repl_ecount<C, IV>(s: Seq<(Range, C, IV)>, e: (Range, C, IV), zero: C)
    requires
        edistinct(s),
    ensures
        ecount(upsert_repl(s, e), e.0, zero) == e.1,
        forall|k: Range| k != e.0 ==> ecount(upsert_repl(s, e), k, zero) == ecount(s, k, zero),
{
    let t = upsert_repl(s, e);
    lemma_upsert_repl_keys(s, e);
    if ehas(s, e.0) {
        lemma_eidx(s, e.0);
        let i = eidx(s, e.0);
        assert(t[i].0 == e.0);
        lemma_eidx_unique(t, i);
        assert forall|k: Range| k != e.0 implies ecount(t, k, zero) == ecount(s, k, zero) by {
            if ehas(s, k) {
                lemma_eidx(s, k);
                let j = eidx(s, k);
                assert(t[j] == s[j]);
                lemma_eidx_unique(t, j);
            }
        }
    } else {
        let i = s.len() as int;
        assert(t[i].0 == e.0);
        lemma_eidx_unique(t, i);
        assert forall|k: Range| k != e.0 implies ecount(t, k, zero) == ecount(s, k, zero) by {
            if ehas(s, k) {
                lemma_eidx(s, k);
                let j = eidx(s, k);
                assert(t[j] == s[j]);
                lemma_eidx_unique(t, j);
            }
        }
    }
}

/// After a fold by addition, each key's count is the receiver's count
/// combined with the sum of the incoming entries for that key.
pub proof fn lemma_fold_add_counts<C, IV>(
    x: Seq<(Range, C, IV)>,
    y: Seq<(Range, C, IV)>,
    plus: spec_fn(C, C) -> C,
    zero: C,
)
    requires
        edistinct(x),
        forall|a: C, b: C, c: C| #[trigger] plus(plus(a, b), c) == plus(a, plus(b, c)),
        forall|a: C| #[trigger] plus(a, zero) == a,
        forall|a: C| #[trigger] plus(zero, a) == a,
    ensures
        forall|k: Range|
            #[trigger] ecount(fold_add(x, y, plus), k, zero) == plus(
                ecount(x, k, zero),
                esum(y, k, plus, zero),
            ),
    decreases y.len(),
{
    if y.len() == 0 {
        assert forall|k: Range|
            #[trigger] ecount(fold_add(x, y, plus), k, zero) == plus(
                ecount(x, k, zero),
                esum(y, k, plus, zero),
            ) by {
            assert(fold_add(x, y, plus) == x);
            assert(esum(y, k, plus, zero) == zero);
        }
    } else {
        let t = y.subrange(1, y.len() as int);
        let x2 = upsert_add(x, y[0], plus);
        assert(fold_add(x, y, plus) == fold_add(x2, t, plus));
        lemma_upsert_add_keys(x, y[0], plus);
        lemma_upsert_add_ecount(x, y[0], plus, zero);
        lemma_fold_add_counts(x2, t, plus, zero);
        assert forall|k: Range|
            #[trigger] ecount(fold_add(x, y, plus), k, zero) == plus(
                ecount(x, k, zero),
                esum(y, k, plus, zero),
            ) by {
            assert(ecount(fold_add(x2, t, plus), k, zero) == plus(
                ecount(x2, k, zero),
                esum(t, k, plus, zero),
            ));
            if k == y[0].0 {
                assert(esum(y, k, plus, zero) == plus(y[0].1, esum(t, k, plus, zero)));
                if ehas(x, k) {
                    assert(ecount(x2, k, zero) == plus(ecount(x, k, zero), y[0].1));
                    assert(plus(plus(ecount(x, k, zero), y[0].1), esum(t, k, plus, zero)) == plus(
                        ecount(x, k, zero),
                        plus(y[0].1, esum(t, k, plus, zero)),
                    ));
                } else {
                    assert(ecount(x, k, zero) == zero);
                    assert(ecount(x2, k, zero) == y[0].1);
                    assert(plus(y[0].1, esum(t, k, plus, zero)) == plus(
                        zero,
                        plus(y[0].1, esum(t, k, plus, zero)),
                    ));
                }
            } else {
                assert(ecount(x2, k, zero) == ecount(x, k, zero));
                assert(esum(y, k, plus, zero) == esum(t, k, plus, zero));
            }
        }
    }
}

/// A key that never occurs stores nothing.
pub proof fn lemma_elast_absent<C, IV>(y: Seq<(Range, C, IV)>, k: Range, zero: C)
    requires
        !ehas(y, k),
    ensures
        elast(y, k, zero) == zero,
    decreases y.len(),
{
    if y.len() > 0 {
        assert(y[y.len() - 1].0 != k);
        assert(forall|i: int| 0 <= i < y.len() - 1 ==> y.drop_last()[i] == y[i]);
        lemma_elast_absent(y.drop_last(), k, zero);
    }
}

/// After seeding, each key stores the count of its last occurrence.
pub proof fn lemma_seed_counts<C, IV>(y: Seq<(Range, C, IV)>, zero: C)
    ensures
        forall|k: Range| #[trigger] ecount(seed(y), k, zero) == elast(y, k, zero),
{
    lemma_fold_repl_ecount(Seq::empty(), y, zero);
    assert forall|k: Range| #[trigger] ecount(seed(y), k, zero) == elast(y, k, zero) by {
        assert(ecount(Seq::<(Range, C, IV)>::empty(), k, zero) == zero);
        if !ehas(y, k) {
            lemma_elast_absent(y, k, zero);
        }
    }
}

/// After a fold by replacement, a key occurring in `y` stores its last
/// count from `y`; other keys keep their count from `x`.
pub proof fn lemma_fold_repl_ecount<C, IV>(x: Seq<(Range, C, IV)>, y: Seq<(Range, C, IV)>, zero: C)
    requires
        edistinct(x),
    ensures
        forall|k: Range|
            #[trigger] ecount(fold_repl(x, y), k, zero) == if ehas(y, k) {
                elast(y, k, zero)
            } else {
                ecount(x, k, zero)
            },
    decreases y.len(),
{
    if y.len() == 0 {
        assert forall|k: Range|
            #[trigger] ecount(fold_repl(x, y), k, zero) == if ehas(y, k) {
                elast(y, k, zero)
            } else {
                ecount(x, k, zero)
            } by {
            assert(fold_repl(x, y) == x);
            assert(!ehas(y, k));
        }
    } else {
        let t = y.subrange(1, y.len() as int);
        let x2 = upsert_repl(x, y[0]);
        assert(fold_repl(x, y) == fold_repl(x2, t));
        lemma_upsert_repl_keys(x, y[0]);
        lemma_upsert_repl_ecount(x, y[0], zero);
        lemma_fold_repl_ecount(x2, t, zero);
        assert forall|k: Range|
            #[trigger] ecount(fold_repl(x, y), k, zero) == if ehas(y, k) {
                elast(y, k, zero)
            } else {
                ecount(x, k, zero)
            } by {
            lemma_elast_split(y, k, zero);
            assert(ecount(fold_repl(x2, t), k, zero) == if ehas(t, k) {
                elast(t, k, zero)
            } else {
                ecount(x2, k, zero)
            });
            if ehas(t, k) {
                let i = choose|i: int| 0 <= i < t.len() && t[i].0 == k;
                assert(y[i + 1].0 == k);
                assert(ehas(y, k));
            } else if k == y[0].0 {
                assert(y[0].0 == k);
                assert(ehas(y, k));
                assert(ecount(x2, k, zero) == y[0].1);
            } else {
                if ehas(y, k) {
                    let i = choose|i: int| 0 <= i < y.len() && y[i].0 == k;
                    assert(i > 0);
                    assert(t[i - 1].0 == k);
                }
                assert(!ehas(y, k));
                assert(ecount(x2, k, zero) == ecount(x, k, zero));
            }
        }
    }
}

/// The last count for `k` in `y` seen from the front: if the tail holds `k`,
/// it decides; else the head does.
pub proof fn lemma_elast_split<C, IV>(y: Seq<(Range, C, IV)>, k: Range, zero: C)
    requires
        y.len() > 0,
    ensures
        elast(y, k, zero) == if ehas(y.subrange(1, y.len() as int), k) {
            elast(y.subrange(1, y.len() as int), k, zero)
        } else if y[0].0 == k {
            y[0].1
        } else {
            zero
        },
    decreases y.len(),
{
    let t = y.subrange(1, y.len() as int);
    if y.len() == 1 {
        assert(t.len() == 0);
        assert(!ehas(t, k));
        assert(y.last() == y[0]);
        if y[0].0 != k {
            assert(y.drop_last() =~= Seq::<(Range, C, IV)>::empty());
            assert(elast(y.drop_last(), k, zero) == zero);
        }
    } else {
        assert(y.last() == t.last());
        if y.last().0 == k {
            assert(t[t.len() - 1].0 == k);
            assert(ehas(t, k));
            assert(elast(y, k, zero) == y.last().1);
            assert(elast(t, k, zero) == t.last().1);
        } else {
            let yd = y.drop_last();
            let td = t.drop_last();
            assert(elast(y, k, zero) == elast(yd, k, zero));
            assert(elast(t, k, zero) == elast(td, k, zero));
            lemma_elast_split(yd, k, zero);
            assert(yd.subrange(1, yd.len() as int) =~= td);
            assert(yd[0] == y[0]);
            if ehas(t, k) {
                let i = choose|i: int| 0 <= i < t.len() && t[i].0 == k;
                assert(i < t.len() - 1);
                assert(td[i].0 == k);
                assert(ehas(td, k));
            } else {
                if ehas(td, k) {
                    let i = choose|i: int| 0 <= i < td.len() && td[i].0 == k;
                    assert(t[i].0 == k);
                }
                assert(!ehas(td, k));
            }
        }
    }
}

/// Folding by replacement appends entries whose keys are all new and distinct.
proof fn lemma_fold_repl_id<C, IV>(x: Seq<(Range, C, IV)>, y: Seq<(Range, C, IV)>)
    requires
        edistinct(y),
        forall|i: int| 0 <= i < y.len() ==> !ehas(x, #[trigger] y[i].0),
    ensures
        fold_repl(x, y) == x + y,
    decreases y.len(),
{
    if y.len() == 0 {
        assert(x + y =~= x);
    } else {
        let t = y.subrange(1, y.len() as int);
        assert(!ehas(x, y[0].0));
        let x2 = x.push(y[0]);
        assert(upsert_repl(x, y[0]) == x2);
        assert forall|i: int| 0 <= i < t.len() implies !ehas(x2, #[trigger] t[i].0) by {
            assert(t[i] == y[i + 1]);
            assert(y[0].0 != y[i + 1].0);
            if ehas(x2, t[i].0) {
                let j = choose|j: int| 0 <= j < x2.len() && x2[j].0 == t[i].0;
                if j < x.len() {
                    assert(ehas(x, y[i + 1].0));
                }
            }
        }
        lemma_fold_repl_id(x2, t);
        assert(x2 + t =~= x + y);
    }
}

} // verus!
