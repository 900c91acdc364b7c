//! The set of character ranges behind an alphabet, kept in
//! `rangemap::RangeInclusiveSet`, and what the rest of the library may assume
//! of it.

use rangemap::RangeInclusiveSet;
use std::ops::RangeInclusive;
use vstd::prelude::*;

verus! {

/// `rangemap::RangeInclusiveSet`, opaque to the verifier.
#[verifier::external_type_specification]
#[verifier::external_body]
#[verifier::reject_recursive_types(T)]
#[verifier::reject_recursive_types(StepFnsT)]
pub struct ExRangeInclusiveSet<T, StepFnsT>(RangeInclusiveSet<T, StepFnsT>);

/// The ranges a set stores, as `(first, last)` pairs in the order in which
/// the set hands them out.
pub uninterp spec fn range_set_ranges(s: RangeInclusiveSet<u32>) -> Seq<(u32, u32)>;

/// Each range is non-empty, the ranges ascend, and between any two of them
/// at least one character is missing.
pub open spec fn ranges_canonical(rs: Seq<(u32, u32)>) -> bool {
    &&& forall|i: int| 0 <= i < rs.len() ==> (#[trigger] rs[i]).0 <= rs[i].1
    &&& forall|i: int, j: int|
        0 <= i < j < rs.len() ==> (#[trigger] rs[i]).1 + 1 < (#[trigger] rs[j]).0
}

/// Whether `c` lies in one of the ranges.
pub open spec fn ranges_cover(rs: Seq<(u32, u32)>, c: u32) -> bool {
    exists|i: int| 0 <= i < rs.len() && (#[trigger] rs[i]).0 <= c <= rs[i].1
}

/// Whether `after` is the coalesced form of `before` with `lo..=hi` added.
pub open spec fn ranges_inserted(
    before: Seq<(u32, u32)>,
    lo: u32,
    hi: u32,
    after: Seq<(u32, u32)>,
) -> bool {
    &&& ranges_canonical(after)
    &&& forall|c: u32|
        #[trigger] ranges_cover(after, c) <==> (ranges_cover(before, c) || lo <= c <= hi)
}

/// The characters of one range, ascending.
pub open spec fn range_chars(r: (u32, u32)) -> Seq<u32> {
    Seq::new((r.1 - r.0 + 1) as nat, |k: int| (r.0 + k) as u32)
}

/// The characters of all the ranges, in the order of the ranges.
pub open spec fn flatten_ranges(rs: Seq<(u32, u32)>) -> Seq<u32>
    decreases rs.len(),
{
    if rs.len() == 0 {
        Seq::empty()
    } else {
        flatten_ranges(rs.drop_last()) + range_chars(rs.last())
    }
}

/// A prefix of canonical ranges is canonical.
pub proof fn lemma_canonical_take(rs: Seq<(u32, u32)>, n: int)
    requires
        ranges_canonical(rs),
        0 <= n <= rs.len(),
    ensures
        ranges_canonical(rs.take(n)),
{
    let t = rs.take(n);
    assert forall|i: int| 0 <= i < t.len() implies (#[trigger] t[i]).0 <= t[i].1 by {
        assert(t[i] == rs[i]);
    }
    assert forall|i: int, j: int| 0 <= i < j < t.len() implies (#[trigger] t[i]).1 + 1 < (
    #[trigger] t[j]).0 by {
        assert(t[i] == rs[i] && t[j] == rs[j]);
    }
}

/// Flattening one more range appends that range's characters.
pub proof fn lemma_flatten_step(rs: Seq<(u32, u32)>, n: int)
    requires
        0 <= n < rs.len(),
    ensures
        flatten_ranges(rs.take(n + 1)) == flatten_ranges(rs.take(n)) + range_chars(rs[n]),
{
    assert(rs.take(n + 1).drop_last() =~= rs.take(n));
    assert(rs.take(n + 1).last() == rs[n]);
}

/// The flattened prefix is never longer than the whole.
pub proof fn lemma_flatten_take_len(rs: Seq<(u32, u32)>, n: int)
    requires
        ranges_canonical(rs),
        0 <= n <= rs.len(),
    ensures
        flatten_ranges(rs.take(n)).len() <= flatten_ranges(rs).len(),
        n <= flatten_ranges(rs.take(n)).len(),
    decreases rs.len() - n,
{
    if n == rs.len() {
        assert(rs.take(n) =~= rs);
        lemma_flatten_count(rs);
    } else {
        lemma_flatten_step(rs, n);
        lemma_flatten_take_len(rs, n + 1);
        lemma_canonical_take(rs, n);
        lemma_flatten_count(rs.take(n));
    }
}

/// Canonical ranges hold at least one character each.
pub proof fn lemma_flatten_count(rs: Seq<(u32, u32)>)
    requires
        ranges_canonical(rs),
    ensures
        rs.len() <= flatten_ranges(rs).len(),
    decreases rs.len(),
{
    if rs.len() > 0 {
        assert(rs.drop_last() =~= rs.take(rs.len() - 1));
        lemma_canonical_take(rs, rs.len() - 1);
        lemma_flatten_count(rs.drop_last());
        assert(rs.last() == rs[rs.len() - 1]);
    }
}

/// The flattened form of canonical ranges ascends strictly and holds exactly
/// the characters that the ranges cover.
pub proof fn lemma_flatten_props(rs: Seq<(u32, u32)>)
    requires
        ranges_canonical(rs),
    ensures
        forall|j: int, k: int|
            0 <= j < k < flatten_ranges(rs).len() ==> flatten_ranges(rs)[j] < flatten_ranges(
                rs,
            )[k],
        forall|k: int|
            0 <= k < flatten_ranges(rs).len() ==> ranges_cover(rs, #[trigger] flatten_ranges(rs)[k]),
        forall|c: u32| #[trigger] ranges_cover(rs, c) ==> flatten_ranges(rs).contains(c),
        rs.len() > 0 ==> flatten_ranges(rs).len() > 0 && flatten_ranges(rs)[0] == rs[0].0
            && flatten_ranges(rs).last() == rs.last().1,
    decreases rs.len(),
{
    let fl = flatten_ranges(rs);
    if rs.len() > 0 {
        let init = rs.drop_last();
        let last = rs.last();
        let n = rs.len() - 1;
        assert(last == rs[n]);
        assert(init =~= rs.take(n));
        lemma_canonical_take(rs, n);
        lemma_flatten_props(init);
        let fi = flatten_ranges(init);
        let rc = range_chars(last);
        assert(fl == fi + rc);
        assert forall|k: int| 0 <= k < fi.len() implies #[trigger] fi[k] < last.0 by {
            assert(ranges_cover(init, fi[k]));
            let i = choose|i: int| 0 <= i < init.len() && (#[trigger] init[i]).0 <= fi[k] <= init[i].1;
            assert(init[i] == rs[i]);
        }
        assert forall|j: int, k: int| 0 <= j < k < fl.len() implies fl[j] < fl[k] by {
            if k < fi.len() {
                assert(fl[j] == fi[j] && fl[k] == fi[k]);
            } else if j < fi.len() {
                assert(fl[j] == fi[j]);
                assert(fl[k] == rc[k - fi.len()]);
            } else {
                assert(fl[j] == rc[j - fi.len()]);
                assert(fl[k] == rc[k - fi.len()]);
            }
        }
        assert forall|k: int| 0 <= k < fl.len() implies ranges_cover(rs, #[trigger] fl[k]) by {
            if k < fi.len() {
                assert(fl[k] == fi[k]);
                assert(ranges_cover(init, fi[k]));
                let i = choose|i: int| 0 <= i < init.len() && (#[trigger] init[i]).0 <= fi[k] <= init[i].1;
                assert(init[i] == rs[i]);
            } else {
                assert(fl[k] == rc[k - fi.len()]);
                assert(rs[n].0 <= fl[k] <= rs[n].1);
            }
        }
        assert forall|c: u32| #[trigger] ranges_cover(rs, c) implies fl.contains(c) by {
            let i = choose|i: int| 0 <= i < rs.len() && (#[trigger] rs[i]).0 <= c <= rs[i].1;
            if i < n {
                assert(init[i] == rs[i]);
                assert(ranges_cover(init, c));
                assert(fi.contains(c));
                let k = choose|k: int| 0 <= k < fi.len() && fi[k] == c;
                assert(fl[k] == c);
            } else {
                let k = c - last.0;
                assert(rc[k] == c);
                assert(fl[fi.len() + k] == c);
            }
        }
        if n > 0 {
            assert(init[0] == rs[0]);
            assert(fl[0] == fi[0]);
        } else {
            assert(fi.len() == 0);
            assert(fl[0] == rc[0]);
        }
        assert(fl.last() == rc[rc.len() - 1]);
    }
}

/// Two canonical lists of ranges that cover the same characters are the same
/// list.
pub proof fn lemma_canonical_unique(a: Seq<(u32, u32)>, b: Seq<(u32, u32)>)
    requires
        ranges_canonical(a),
        ranges_canonical(b),
        forall|c: u32| ranges_cover(a, c) <==> ranges_cover(b, c),
    ensures
        a == b,
    decreases a.len(),
{
    if a.len() == 0 {
        if b.len() > 0 {
            assert(b[0].0 <= b[0].0 <= b[0].1);
            assert(ranges_cover(b, b[0].0));
            assert(ranges_cover(a, b[0].0));
        }
        assert(a =~= b);
    } else if b.len() == 0 {
        assert(a[0].0 <= a[0].0 <= a[0].1);
        assert(ranges_cover(a, a[0].0));
        assert(ranges_cover(b, a[0].0));
    } else {
        lemma_last_range_matches(a, b);
        lemma_last_range_matches(b, a);
        let la = a.last();
        let lb = b.last();
        assert(la == a[a.len() - 1] && lb == b[b.len() - 1]);
        assert(la == lb);
        let ia = a.drop_last();
        let ib = b.drop_last();
        assert(ia =~= a.take(a.len() - 1) && ib =~= b.take(b.len() - 1));
        lemma_canonical_take(a, a.len() - 1);
        lemma_canonical_take(b, b.len() - 1);
        assert forall|c: u32| ranges_cover(ia, c) <==> ranges_cover(ib, c) by {
            lemma_cover_drop_last(a, c);
            lemma_cover_drop_last(b, c);
        }
        lemma_canonical_unique(ia, ib);
        assert(a =~= ia.push(la));
        assert(b =~= ib.push(lb));
    }
}

/// The last range of `a` starts no earlier and ends no later than that of
/// `b`, when both cover the same characters.
proof fn lemma_last_range_matches(a: Seq<(u32, u32)>, b: Seq<(u32, u32)>)
    requires
        ranges_canonical(a),
        ranges_canonical(b),
        a.len() > 0,
        b.len() > 0,
        forall|c: u32| ranges_cover(a, c) <==> ranges_cover(b, c),
    ensures
        a.last().1 <= b.last().1,
        b.last().0 <= a.last().0,
{
    let la = a[a.len() - 1];
    let lb = b[b.len() - 1];
    assert(la.0 <= la.1 <= la.1);
    assert(ranges_cover(a, la.1));
    assert(ranges_cover(b, la.1));
    let j1 = choose|j: int| 0 <= j < b.len() && (#[trigger] b[j]).0 <= la.1 <= b[j].1;
    assert(b[j1].1 <= lb.1) by {
        if j1 < b.len() - 1 {
            assert(b[j1].1 + 1 < b[b.len() - 1].0);
        }
    }
    // the start: la.0 lies in some range of b; were it not the last, a gap of b
    // would fall inside la
    assert(la.0 <= la.0 <= la.1);
    assert(ranges_cover(a, la.0));
    assert(ranges_cover(b, la.0));
    let j = choose|j: int| 0 <= j < b.len() && (#[trigger] b[j]).0 <= la.0 <= b[j].1;
    if j < b.len() - 1 {
        assert(b[j].1 + 1 < b[b.len() - 1].0);
        let g: u32 = (b[j].1 + 1) as u32;
        // symmetric bound: lb.1 is covered by a, hence at most la.1
        assert(lb.0 <= lb.1 <= lb.1);
        assert(ranges_cover(b, lb.1));
        assert(ranges_cover(a, lb.1));
        let i1 = choose|i: int| 0 <= i < a.len() && (#[trigger] a[i]).0 <= lb.1 <= a[i].1;
        assert(a[i1].1 <= la.1) by {
            if i1 < a.len() - 1 {
                assert(a[i1].1 + 1 < a[a.len() - 1].0);
            }
        }
        assert(la.0 <= g <= la.1);
        assert(ranges_cover(a, g));
        assert(ranges_cover(b, g));
        let k = choose|k: int| 0 <= k < b.len() && (#[trigger] b[k]).0 <= g <= b[k].1;
        if k < j {
            assert(b[k].1 + 1 < b[j].0);
        } else if k > j {
            assert(b[j].1 + 1 < b[k].0);
        }
        assert(false);
    }
}

/// What the ranges but the last cover: what all cover, below the last range.
proof fn lemma_cover_drop_last(a: Seq<(u32, u32)>, c: u32)
    requires
        ranges_canonical(a),
        a.len() > 0,
    ensures
        ranges_cover(a.drop_last(), c) <==> (ranges_cover(a, c) && c < a.last().0),
{
    let ia = a.drop_last();
    let n = a.len() - 1;
    if ranges_cover(ia, c) {
        let i = choose|i: int| 0 <= i < ia.len() && (#[trigger] ia[i]).0 <= c <= ia[i].1;
        assert(ia[i] == a[i]);
        assert(a[i].1 + 1 < a[n].0);
    }
    if ranges_cover(a, c) && c < a.last().0 {
        let i = choose|i: int| 0 <= i < a.len() && (#[trigger] a[i]).0 <= c <= a[i].1;
        assert(i < n);
        assert(ia[i] == a[i]);
    }
}

/// Specifies `RangeInclusive::start` of the standard library: it returns the
/// lower bound the range was made with.
pub assume_specification<Idx>[ RangeInclusive::<Idx>::start ](r: &RangeInclusive<Idx>) -> (ret:
    &Idx)
    ensures
        *ret == r@.start,
;

/// Specifies `RangeInclusive::end` of the standard library: it returns the
/// upper bound the range was made with.
pub assume_specification<Idx>[ RangeInclusive::<Idx>::end ](r: &RangeInclusive<Idx>) -> (ret:
    &Idx)
    ensures
        *ret == r@.end,
;

/// Makes an empty set with `RangeInclusiveSet::new`. The contract claims that
/// it stores no range.
#[verifier::external_body]
pub(crate) fn range_set_new() -> (s: RangeInclusiveSet<u32>)
    ensures
        range_set_ranges(s) == Seq::<(u32, u32)>::empty(),
{
    RangeInclusiveSet::new()
}

/// Adds a range with `RangeInclusiveSet::insert`. The contract claims what
/// the crate documents: afterwards the set covers what it covered before and
/// the new range, and overlapping or adjacent ranges have been merged, so the
/// stored ranges ascend with a gap between any two. The call panics when the
/// range starts after its end, which the precondition leaves out.
#[verifier::external_body]
pub(crate) fn range_set_insert(set: &mut RangeInclusiveSet<u32>, range: RangeInclusive<u32>)
    requires
        range@.start <= range@.end,
    ensures
        ranges_inserted(
            range_set_ranges(*old(set)),
            range@.start,
            range@.end,
            range_set_ranges(*final(set)),
        ),
{
    set.insert(range)
}

/// Lists the stored ranges with `RangeInclusiveSet::iter`, each as the pair
/// of its bounds. The contract claims that the iterator yields the stored
/// ranges in ascending order, and that they are non-empty with a gap between
/// any two.
#[verifier::external_body]
pub(crate) fn range_set_to_vec(set: &RangeInclusiveSet<u32>) -> (v: Vec<(u32, u32)>)
    ensures
        v@ == range_set_ranges(*set),
        ranges_canonical(v@),
{
    set.iter().map(|r| (*r.start(), *r.end())).collect()
}

/// Copies a set with its derived `Clone`. The contract claims that the copy
/// stores the same ranges.
#[verifier::external_body]
pub(crate) fn range_set_clone(set: &RangeInclusiveSet<u32>) -> (s: RangeInclusiveSet<u32>)
    ensures
        range_set_ranges(s) == range_set_ranges(*set),
{
    set.clone()
}

} // verus!
