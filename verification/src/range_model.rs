//! The mathematics of range lists: what a list of sequence ranges covers,
//! when it is in order, and what inserting a range makes of it.

use crate::seq32::{lemma_offset_bounds, lemma_offset_rebase, lemma_window_order, Seq32, HALF};
use vstd::prelude::*;

verus! {

/// `p` lies in the half-open range `[start, end)`.
pub open spec fn in_range(start: Seq32, end: Seq32, p: Seq32) -> bool {
    p.offset_from(start) < end.offset_from(start)
}

/// The positions of `[start, end)`: none unless `end` follows `start`.
pub open spec fn span(start: Seq32, end: Seq32) -> Set<Seq32> {
    Set::new(|p: Seq32| end.follows(start) && in_range(start, end, p))
}

/// Seen from `base`, every range is non-empty and ends less than 2^31
/// ahead, and each range ends strictly before the next one starts.
pub open spec fn ordered_from(ranges: Seq<(Seq32, Seq32)>, base: Seq32) -> bool {
    &&& forall|i: int|
        0 <= i < ranges.len() ==> (#[trigger] ranges[i]).0.offset_from(base)
            < ranges[i].1.offset_from(base) < HALF
    &&& forall|i: int, j: int|
        0 <= i < j < ranges.len() ==> (#[trigger] ranges[i]).1.offset_from(base)
            < (#[trigger] ranges[j]).0.offset_from(base)
}

/// The canonical form of a range list: ordered as seen from its own first
/// start.
pub open spec fn canonical(ranges: Seq<(Seq32, Seq32)>) -> bool {
    ranges.len() > 0 ==> ordered_from(ranges, ranges[0].0)
}

/// Some range of the list holds `p`.
pub open spec fn covered(ranges: Seq<(Seq32, Seq32)>, p: Seq32) -> bool {
    exists|i: int| 0 <= i < ranges.len() && in_range((#[trigger] ranges[i]).0, ranges[i].1, p)
}

/// All positions that the ranges of the list hold.
pub open spec fn coverage(ranges: Seq<(Seq32, Seq32)>) -> Set<Seq32> {
    Set::new(|p: Seq32| covered(ranges, p))
}

/// The list together with `[start, end)` fits a window: seen from `base`
/// the ranges are ordered and both new endpoints lie less than 2^31 ahead.
pub open spec fn fits(ranges: Seq<(Seq32, Seq32)>, base: Seq32, start: Seq32, end: Seq32) -> bool {
    &&& ordered_from(ranges, base)
    &&& start.offset_from(base) < HALF
    &&& end.offset_from(base) < HALF
}

/// What `insert` of `[start, end)` makes of `pre`: `post` is canonical and
/// covers what `pre` covered and the new range; `added` tells whether the
/// range brought a position that `pre` did not cover, and without one the
/// list stays as it was.
pub open spec fn inserted(
    pre: Seq<(Seq32, Seq32)>,
    start: Seq32,
    end: Seq32,
    post: Seq<(Seq32, Seq32)>,
    added: bool,
) -> bool {
    &&& canonical(post)
    &&& coverage(post) == coverage(pre).union(span(start, end))
    &&& added <==> !span(start, end).subset_of(coverage(pre))
    &&& !added ==> post == pre
}

/// Every start of `post` is `start` or a start of `pre`, and every end of
/// `post` is `end` or an end of `pre`: an insert invents no endpoint.
pub open spec fn endpoints_kept(
    pre: Seq<(Seq32, Seq32)>,
    start: Seq32,
    end: Seq32,
    post: Seq<(Seq32, Seq32)>,
) -> bool {
    forall|i: int|
        0 <= i < post.len() ==> ((#[trigger] post[i]).0 == start || exists|j: int|
            0 <= j < pre.len() && (#[trigger] pre[j]).0 == post[i].0) && (post[i].1 == end
            || exists|j: int| 0 <= j < pre.len() && (#[trigger] pre[j]).1 == post[i].1)
}

/// The list `old` with the ranges `lo .. hi` replaced by the one range
/// `item`.
pub open spec fn spliced(
    old: Seq<(Seq32, Seq32)>,
    lo: int,
    hi: int,
    item: (Seq32, Seq32),
) -> Seq<(Seq32, Seq32)> {
    old.subrange(0, lo).push(item) + old.subrange(hi, old.len() as int)
}

/// Membership in a range, read off the offsets from a base before the
/// range's start.
pub proof fn lemma_in_range_offsets(base: Seq32, start: Seq32, end: Seq32, p: Seq32)
    requires
        start.offset_from(base) <= end.offset_from(base),
    ensures
        in_range(start, end, p) <==> start.offset_from(base) <= p.offset_from(base)
            < end.offset_from(base),
{
    lemma_offset_rebase(base, start, end);
    lemma_offset_rebase(base, start, p);
}

/// A list ordered from `base` is ordered from any base that lies between
/// `base` and the list's first start.
pub proof fn lemma_ordered_rebase(ranges: Seq<(Seq32, Seq32)>, base: Seq32, nearer: Seq32)
    requires
        ordered_from(ranges, base),
        ranges.len() > 0,
        nearer.offset_from(base) <= ranges[0].0.offset_from(base),
    ensures
        ordered_from(ranges, nearer),
{
    lemma_offset_bounds(base, nearer);
    assert forall|i: int| 0 <= i < ranges.len() implies (#[trigger] ranges[i]).0.offset_from(nearer)
        == ranges[i].0.offset_from(base) - nearer.offset_from(base) && ranges[i].1.offset_from(
        nearer,
    ) == ranges[i].1.offset_from(base) - nearer.offset_from(base) by {
        assert(ranges[0].0.offset_from(base) <= ranges[i].0.offset_from(base));
        lemma_offset_rebase(base, nearer, ranges[i].0);
        lemma_offset_rebase(base, nearer, ranges[i].1);
    }
}

/// A list ordered from any base is canonical.
pub proof fn lemma_ordered_is_canonical(ranges: Seq<(Seq32, Seq32)>, base: Seq32)
    requires
        ordered_from(ranges, base),
    ensures
        canonical(ranges),
{
    if ranges.len() > 0 {
        lemma_ordered_rebase(ranges, base, ranges[0].0);
    }
}

/// A list ordered from one base is ordered from every base from which all
/// its endpoints lie less than 2^31 ahead.
pub proof fn lemma_ordered_from_other(ranges: Seq<(Seq32, Seq32)>, base: Seq32, other: Seq32)
    requires
        ordered_from(ranges, base),
        forall|i: int|
            0 <= i < ranges.len() ==> (#[trigger] ranges[i]).0.offset_from(other) < HALF
                && ranges[i].1.offset_from(other) < HALF,
    ensures
        ordered_from(ranges, other),
{
    assert forall|i: int| 0 <= i < ranges.len() implies (#[trigger] ranges[i]).0.offset_from(other)
        < ranges[i].1.offset_from(other) by {
        lemma_window_order(base, ranges[i].0, ranges[i].1);
        lemma_window_order(other, ranges[i].0, ranges[i].1);
    }
    assert forall|i: int, j: int| 0 <= i < j < ranges.len() implies (
    #[trigger] ranges[i]).1.offset_from(other) < (#[trigger] ranges[j]).0.offset_from(other) by {
        assert(ranges[j].0.offset_from(base) < ranges[j].1.offset_from(base));
        lemma_window_order(base, ranges[i].1, ranges[j].0);
        lemma_window_order(other, ranges[i].1, ranges[j].0);
    }
}

/// What an insert leaves is ordered from every base that the list and the
/// new range fitted, since it invents no endpoint.
pub proof fn lemma_ordered_from_fitting(
    pre: Seq<(Seq32, Seq32)>,
    start: Seq32,
    end: Seq32,
    post: Seq<(Seq32, Seq32)>,
    base: Seq32,
    other: Seq32,
)
    requires
        ordered_from(post, base),
        endpoints_kept(pre, start, end, post),
        fits(pre, other, start, end),
    ensures
        ordered_from(post, other),
{
    assert forall|i: int| 0 <= i < post.len() implies (#[trigger] post[i]).0.offset_from(other)
        < HALF && post[i].1.offset_from(other) < HALF by {
        if post[i].0 != start {
            let j = choose|j: int| 0 <= j < pre.len() && (#[trigger] pre[j]).0 == post[i].0;
            assert(pre[j].0.offset_from(other) < pre[j].1.offset_from(other));
        }
        if post[i].1 != end {
            let j = choose|j: int| 0 <= j < pre.len() && (#[trigger] pre[j]).1 == post[i].1;
            assert(pre[j].1.offset_from(other) < HALF);
        }
    }
    lemma_ordered_from_other(post, base, other);
}

/// A list that loses one range stays ordered.
pub proof fn lemma_remove_keeps_order(ranges: Seq<(Seq32, Seq32)>, base: Seq32, at: int)
    requires
        ordered_from(ranges, base),
        0 <= at < ranges.len(),
    ensures
        ordered_from(ranges.remove(at), base),
{
    let rest = ranges.remove(at);
    assert forall|i: int| 0 <= i < rest.len() implies (#[trigger] rest[i]).0.offset_from(base)
        < rest[i].1.offset_from(base) < HALF by {
        if i < at {
            assert(rest[i] == ranges[i]);
        } else {
            assert(rest[i] == ranges[i + 1]);
        }
    }
    assert forall|i: int, j: int| 0 <= i < j < rest.len() implies (
    #[trigger] rest[i]).1.offset_from(base) < (#[trigger] rest[j]).0.offset_from(base) by {
        let oi = if i < at { i } else { i + 1 };
        let oj = if j < at { j } else { j + 1 };
        assert(rest[i] == ranges[oi]);
        assert(rest[j] == ranges[oj]);
    }
}

/// A range that lies within range `at` of the list adds nothing to what
/// the list covers.
pub proof fn lemma_covered_by_one(
    ranges: Seq<(Seq32, Seq32)>,
    base: Seq32,
    start: Seq32,
    end: Seq32,
    at: int,
)
    requires
        fits(ranges, base, start, end),
        0 <= at < ranges.len(),
        ranges[at].0.offset_from(base) <= start.offset_from(base),
        end.offset_from(base) <= ranges[at].1.offset_from(base),
    ensures
        span(start, end).subset_of(coverage(ranges)),
        coverage(ranges) == coverage(ranges).union(span(start, end)),
{
    assert forall|p: Seq32| span(start, end).contains(p) implies coverage(ranges).contains(p) by {
        lemma_window_order(base, end, start);
        lemma_in_range_offsets(base, start, end, p);
        lemma_in_range_offsets(base, ranges[at].0, ranges[at].1, p);
    }
    assert(coverage(ranges) =~= coverage(ranges).union(span(start, end)));
}

/// The merge that `insert` performs: with `[start, end)` widened to
/// `[new_start, new_end)` over the ranges `lo .. hi` that it overlaps or
/// touches, the spliced list is ordered, covers the old coverage and the
/// new range, and the new range held a position that was not covered.
pub proof fn lemma_merge(
    old: Seq<(Seq32, Seq32)>,
    base: Seq32,
    start: Seq32,
    end: Seq32,
    lo: int,
    from: int,
    hi: int,
    new_start: Seq32,
    new_end: Seq32,
)
    requires
        fits(old, base, start, end),
        start.offset_from(base) < end.offset_from(base),
        0 <= lo <= from <= hi <= old.len(),
        from - 1 <= lo,
        forall|i: int|
            0 <= i < old.len() ==> (i < from <==> (#[trigger] old[i]).0.offset_from(base)
                <= start.offset_from(base)),
        lo == from ==> new_start == start && (from > 0 ==> old[from - 1].1.offset_from(base)
            < start.offset_from(base)),
        lo < from ==> new_start == old[lo].0 && start.offset_from(base) <= old[lo].1.offset_from(
            base,
        ) < end.offset_from(base),
        end.offset_from(base) <= new_end.offset_from(base) < HALF,
        new_end == end || (hi > from && new_end == old[hi - 1].1),
        forall|i: int|
            from <= i < hi ==> (#[trigger] old[i]).0.offset_from(base) <= end.offset_from(base)
                && old[i].1.offset_from(base) <= new_end.offset_from(base),
        hi < old.len() ==> old[hi].0.offset_from(base) > new_end.offset_from(base),
    ensures
        ordered_from(spliced(old, lo, hi, (new_start, new_end)), base),
        coverage(spliced(old, lo, hi, (new_start, new_end))) == coverage(old).union(
            span(start, end),
        ),
        !span(start, end).subset_of(coverage(old)),
        endpoints_kept(old, start, end, spliced(old, lo, hi, (new_start, new_end))),
{
    let item = (new_start, new_end);
    let new = spliced(old, lo, hi, item);
    let shift = hi - lo - 1;
    assert(new.len() == old.len() - shift);
    assert forall|i: int| 0 <= i < new.len() implies #[trigger] new[i] == (if i < lo {
        old[i]
    } else if i == lo {
        item
    } else {
        old[i + shift]
    }) by {}
    assert(new_start.offset_from(base) <= start.offset_from(base));
    assert forall|i: int| 0 <= i < new.len() implies ((#[trigger] new[i]).0 == start
        || exists|j: int| 0 <= j < old.len() && (#[trigger] old[j]).0 == new[i].0) && (new[i].1
        == end || exists|j: int| 0 <= j < old.len() && (#[trigger] old[j]).1 == new[i].1) by {
        if i < lo {
            assert(old[i] == new[i]);
        } else if i > lo {
            assert(old[i + shift] == new[i]);
        } else {
            if new_start != start {
                assert(old[lo].0 == new[i].0);
            }
            if new_end != end {
                assert(old[hi - 1].1 == new[i].1);
            }
        }
    }
    // order
    assert forall|i: int| 0 <= i < new.len() implies (#[trigger] new[i]).0.offset_from(base)
        < new[i].1.offset_from(base) < HALF by {
        if i < lo {
            assert(new[i] == old[i]);
        } else if i > lo {
            assert(new[i] == old[i + shift]);
        }
    }
    assert forall|i: int, j: int| 0 <= i < j < new.len() implies (#[trigger] new[i]).1.offset_from(
        base,
    ) < (#[trigger] new[j]).0.offset_from(base) by {
        if j < lo {
            assert(new[i] == old[i] && new[j] == old[j]);
        } else if j == lo {
            assert(new[i] == old[i]);
            if lo < from {
                assert(old[i].1.offset_from(base) < old[lo].0.offset_from(base));
            } else {
                assert(old[from - 1].0.offset_from(base) < old[from - 1].1.offset_from(base));
                if i < from - 1 {
                    assert(old[i].1.offset_from(base) < old[from - 1].0.offset_from(base));
                }
            }
        } else {
            assert(new[j] == old[j + shift]);
            assert(old[hi].0.offset_from(base) <= old[j + shift].0.offset_from(base)) by {
                if hi < j + shift {
                    assert(old[hi].0.offset_from(base) < old[hi].1.offset_from(base));
                    assert(old[hi].1.offset_from(base) < old[j + shift].0.offset_from(base));
                }
            }
            if i < lo {
                assert(new[i] == old[i]);
                assert(old[i].1.offset_from(base) < old[j + shift].0.offset_from(base));
            } else if i > lo {
                assert(new[i] == old[i + shift]);
                assert(old[i + shift].1.offset_from(base) < old[j + shift].0.offset_from(base));
            }
        }
    }
    // coverage
    assert forall|p: Seq32| coverage(new).contains(p) == coverage(old).union(
        span(start, end),
    ).contains(p) by {
        lemma_window_order(base, end, start);
        lemma_in_range_offsets(base, start, end, p);
        lemma_in_range_offsets(base, new_start, new_end, p);
        if covered(new, p) {
            let i = choose|i: int| 0 <= i < new.len() && in_range(new[i].0, new[i].1, p);
            if i < lo {
                assert(in_range(old[i].0, old[i].1, p));
            } else if i > lo {
                assert(in_range(old[i + shift].0, old[i + shift].1, p));
            } else if p.offset_from(base) < start.offset_from(base) {
                lemma_in_range_offsets(base, old[lo].0, old[lo].1, p);
                assert(in_range(old[lo].0, old[lo].1, p));
            } else if p.offset_from(base) >= end.offset_from(base) {
                assert(old[hi - 1].0.offset_from(base) <= end.offset_from(base));
                lemma_in_range_offsets(base, old[hi - 1].0, old[hi - 1].1, p);
                assert(in_range(old[hi - 1].0, old[hi - 1].1, p));
            }
        }
        if covered(old, p) {
            let i = choose|i: int| 0 <= i < old.len() && in_range(old[i].0, old[i].1, p);
            assert(old[i].0.offset_from(base) < old[i].1.offset_from(base));
            lemma_in_range_offsets(base, old[i].0, old[i].1, p);
            if i < lo {
                assert(in_range(new[i].0, new[i].1, p));
            } else if i >= hi {
                assert(new[i - shift] == old[i]);
                assert(in_range(new[i - shift].0, new[i - shift].1, p));
            } else {
                assert(new[lo] == item);
                assert(in_range(new[lo].0, new[lo].1, p));
            }
        }
        if span(start, end).contains(p) {
            assert(new[lo] == item);
            assert(in_range(new[lo].0, new[lo].1, p));
        }
    }
    assert(coverage(new) =~= coverage(old).union(span(start, end)));
    // a position of the new range that was not covered
    let fresh = if lo < from { old[lo].1 } else { start };
    lemma_window_order(base, end, start);
    lemma_in_range_offsets(base, start, end, fresh);
    assert(span(start, end).contains(fresh));
    assert(!covered(old, fresh)) by {
        assert forall|i: int| 0 <= i < old.len() implies !in_range(
            (#[trigger] old[i]).0,
            old[i].1,
            fresh,
        ) by {
            assert(old[i].0.offset_from(base) < old[i].1.offset_from(base));
            lemma_in_range_offsets(base, old[i].0, old[i].1, fresh);
            if i < from - 1 {
                assert(old[i].1.offset_from(base) < old[from - 1].0.offset_from(base));
                assert(old[from - 1].0.offset_from(base) < old[from - 1].1.offset_from(base));
            }
        }
    }
}

/// In an ordered list, a position that range `i` holds lies between the
/// offsets of that range, in no other range, and at the end of none.
pub proof fn lemma_ranges_apart(ranges: Seq<(Seq32, Seq32)>, base: Seq32, k: int, i: int, p: Seq32)
    requires
        ordered_from(ranges, base),
        0 <= k < ranges.len(),
        0 <= i < ranges.len(),
        in_range(ranges[i].0, ranges[i].1, p),
    ensures
        p != ranges[k].1,
        in_range(ranges[k].0, ranges[k].1, p) ==> i == k,
        ranges[i].0.offset_from(base) <= p.offset_from(base) < ranges[i].1.offset_from(base),
{
    assert(ranges[i].0.offset_from(base) < ranges[i].1.offset_from(base));
    assert(ranges[k].0.offset_from(base) < ranges[k].1.offset_from(base));
    lemma_in_range_offsets(base, ranges[i].0, ranges[i].1, p);
    lemma_in_range_offsets(base, ranges[k].0, ranges[k].1, p);
    if i < k {
        assert(ranges[i].1.offset_from(base) < ranges[k].0.offset_from(base));
    }
    if k < i {
        assert(ranges[k].1.offset_from(base) < ranges[i].0.offset_from(base));
    }
}

/// Two lists ordered from one base that cover the same positions and
/// agree on their first `k` ranges are the same list.
pub proof fn lemma_same_from(a: Seq<(Seq32, Seq32)>, b: Seq<(Seq32, Seq32)>, base: Seq32, k: int)
    requires
        ordered_from(a, base),
        ordered_from(b, base),
        coverage(a) == coverage(b),
        0 <= k <= a.len(),
        k <= b.len(),
        forall|i: int| 0 <= i < k ==> a[i] == b[i],
    ensures
        a == b,
    decreases a.len() + b.len() - 2 * k,
{
    if k == a.len() && k == b.len() {
        assert(a =~= b);
    } else if k == a.len() || k == b.len() {
        // one list has a range that the other, being at its end, cannot cover
        let (long, short) = if k == a.len() { (b, a) } else { (a, b) };
        let p = long[k].0;
        lemma_offset_bounds(p, p);
        lemma_offset_bounds(p, long[k].1);
        assert(long[k].0.offset_from(base) < long[k].1.offset_from(base));
        assert(in_range(long[k].0, long[k].1, p));
        assert(coverage(long).contains(p));
        assert(coverage(short).contains(p));
        let i = choose|i: int| 0 <= i < short.len() && in_range(short[i].0, short[i].1, p);
        assert(short[i] == long[i]);
        lemma_ranges_apart(long, base, k, i, p);
    } else {
        let s = a[k].0;
        let t = b[k].0;
        assert(a[k].0.offset_from(base) < a[k].1.offset_from(base) < HALF);
        assert(b[k].0.offset_from(base) < b[k].1.offset_from(base) < HALF);
        lemma_offset_bounds(s, s);
        lemma_offset_bounds(s, a[k].1);
        lemma_offset_bounds(t, t);
        lemma_offset_bounds(t, b[k].1);
        // each start lies at or after the other
        assert(in_range(a[k].0, a[k].1, s));
        assert(coverage(a).contains(s));
        assert(coverage(b).contains(s));
        let j = choose|j: int| 0 <= j < b.len() && in_range(b[j].0, b[j].1, s);
        lemma_ranges_apart(b, base, k, j, s);
        if j < k {
            assert(b[j] == a[j]);
            lemma_ranges_apart(a, base, k, j, s);
        }
        if k < j {
            assert(b[k].1.offset_from(base) < b[j].0.offset_from(base));
        }
        assert(t.offset_from(base) <= s.offset_from(base));
        assert(in_range(b[k].0, b[k].1, t));
        assert(coverage(b).contains(t));
        assert(coverage(a).contains(t));
        let i = choose|i: int| 0 <= i < a.len() && in_range(a[i].0, a[i].1, t);
        lemma_ranges_apart(a, base, k, i, t);
        if i < k {
            assert(a[i] == b[i]);
            lemma_ranges_apart(b, base, k, i, t);
        }
        if k < i {
            assert(a[k].1.offset_from(base) < a[i].0.offset_from(base));
        }
        assert(s.offset_from(base) <= t.offset_from(base));
        lemma_window_order(base, s, t);
        assert(s == t);
        // and so does each end
        let e = a[k].1;
        let f = b[k].1;
        if e.offset_from(base) < f.offset_from(base) {
            lemma_in_range_offsets(base, t, f, e);
            assert(in_range(b[k].0, b[k].1, e));
            assert(coverage(b).contains(e));
            assert(coverage(a).contains(e));
            let i2 = choose|i: int| 0 <= i < a.len() && in_range(a[i].0, a[i].1, e);
            lemma_ranges_apart(a, base, k, i2, e);
        }
        if f.offset_from(base) < e.offset_from(base) {
            lemma_in_range_offsets(base, s, e, f);
            assert(in_range(a[k].0, a[k].1, f));
            assert(coverage(a).contains(f));
            assert(coverage(b).contains(f));
            let j2 = choose|j: int| 0 <= j < b.len() && in_range(b[j].0, b[j].1, f);
            lemma_ranges_apart(b, base, k, j2, f);
        }
        lemma_window_order(base, e, f);
        assert(a[k] == b[k]);
        lemma_same_from(a, b, base, k + 1);
    }
}

/// What a set covers fixes its ranges: two canonical lists that cover the
/// same positions are equal.
pub proof fn lemma_coverage_fixes_ranges(a: Seq<(Seq32, Seq32)>, b: Seq<(Seq32, Seq32)>)
    requires
        canonical(a),
        canonical(b),
        coverage(a) == coverage(b),
    ensures
        a == b,
{
    if a.len() == 0 || b.len() == 0 {
        if a.len() > 0 {
            lemma_same_from(a, b, a[0].0, 0);
        } else if b.len() > 0 {
            lemma_same_from(a, b, b[0].0, 0);
        } else {
            assert(a =~= b);
        }
    } else {
        let s = a[0].0;
        let t = b[0].0;
        lemma_offset_bounds(s, s);
        lemma_offset_bounds(t, t);
        assert(a[0].0.offset_from(s) < a[0].1.offset_from(s));
        assert(b[0].0.offset_from(t) < b[0].1.offset_from(t));
        assert(in_range(a[0].0, a[0].1, s));
        assert(coverage(a).contains(s));
        assert(coverage(b).contains(s));
        let j = choose|j: int| 0 <= j < b.len() && in_range(b[j].0, b[j].1, s);
        lemma_ranges_apart(b, t, 0, j, s);
        assert(s.offset_from(t) < HALF);
        assert(in_range(b[0].0, b[0].1, t));
        assert(coverage(b).contains(t));
        assert(coverage(a).contains(t));
        let i = choose|i: int| 0 <= i < a.len() && in_range(a[i].0, a[i].1, t);
        lemma_ranges_apart(a, s, 0, i, t);
        assert(t.offset_from(s) < HALF);
        lemma_offset_rebase(s, t, s);
        lemma_offset_bounds(s, t);
        assert(s == t);
        lemma_same_from(a, b, s, 0);
    }
}

/// Two ranges inserted in either order leave the same set: the same
/// coverage, and with it the same ranges.
pub proof fn lemma_insert_order_irrelevant(
    pre: Seq<(Seq32, Seq32)>,
    first: (Seq32, Seq32),
    second: (Seq32, Seq32),
    one_way: (Seq<(Seq32, Seq32)>, Seq<(Seq32, Seq32)>),
    other_way: (Seq<(Seq32, Seq32)>, Seq<(Seq32, Seq32)>),
    added: (bool, bool, bool, bool),
)
    requires
        inserted(pre, first.0, first.1, one_way.0, added.0),
        inserted(one_way.0, second.0, second.1, one_way.1, added.1),
        inserted(pre, second.0, second.1, other_way.0, added.2),
        inserted(other_way.0, first.0, first.1, other_way.1, added.3),
    ensures
        coverage(one_way.1) == coverage(other_way.1),
        one_way.1 == other_way.1,
{
    assert(coverage(one_way.1) =~= coverage(other_way.1));
    lemma_coverage_fixes_ranges(one_way.1, other_way.1);
}

/// The positions of all the ranges of a list taken together, whatever the
/// order of the list.
pub open spec fn all_spans(ranges: Seq<(Seq32, Seq32)>) -> Set<Seq32> {
    Set::new(
        |p: Seq32|
            exists|i: int|
                0 <= i < ranges.len() && span((#[trigger] ranges[i]).0, ranges[i].1).contains(p),
    )
}

/// `states` are the lists that a run of inserts passes through: insert `i`
/// puts range `i` of `ranges` into state `i` and leaves state `i + 1`.
pub open spec fn insert_run(
    states: Seq<Seq<(Seq32, Seq32)>>,
    ranges: Seq<(Seq32, Seq32)>,
    added: Seq<bool>,
) -> bool {
    &&& states.len() == ranges.len() + 1
    &&& added.len() == ranges.len()
    &&& forall|i: int|
        0 <= i < ranges.len() ==> inserted(
            #[trigger] states[i],
            ranges[i].0,
            ranges[i].1,
            states[i + 1],
            added[i],
        )
}

/// A run of inserts ends with what was covered at first and all the ranges
/// inserted, and nothing else.
pub proof fn lemma_insert_run_covers(
    states: Seq<Seq<(Seq32, Seq32)>>,
    ranges: Seq<(Seq32, Seq32)>,
    added: Seq<bool>,
)
    requires
        insert_run(states, ranges, added),
    ensures
        coverage(states.last()) == coverage(states[0]).union(all_spans(ranges)),
    decreases ranges.len(),
{
    let n = ranges.len() as int;
    if n == 0 {
        assert(coverage(states.last()) =~= coverage(states[0]).union(all_spans(ranges)));
    } else {
        let earlier = ranges.drop_last();
        assert forall|i: int| 0 <= i < earlier.len() implies inserted(
            #[trigger] states.drop_last()[i],
            earlier[i].0,
            earlier[i].1,
            states.drop_last()[i + 1],
            added.drop_last()[i],
        ) by {
            assert(inserted(states[i], ranges[i].0, ranges[i].1, states[i + 1], added[i]));
        }
        lemma_insert_run_covers(states.drop_last(), earlier, added.drop_last());
        assert(inserted(states[n - 1], ranges[n - 1].0, ranges[n - 1].1, states[n], added[n - 1]));
        assert(states.drop_last().last() == states[n - 1]);
        assert forall|p: Seq32| all_spans(ranges).contains(p) == (all_spans(earlier).contains(p)
            || span(ranges[n - 1].0, ranges[n - 1].1).contains(p)) by {
            if all_spans(ranges).contains(p) {
                let i = choose|i: int|
                    0 <= i < ranges.len() && span((#[trigger] ranges[i]).0, ranges[i].1).contains(
                        p,
                    );
                if i < n - 1 {
                    assert(earlier[i] == ranges[i]);
                }
            }
            if all_spans(earlier).contains(p) {
                let i = choose|i: int|
                    0 <= i < earlier.len() && span(
                        (#[trigger] earlier[i]).0,
                        earlier[i].1,
                    ).contains(p);
                assert(earlier[i] == ranges[i]);
            }
        }
        assert(coverage(states.last()) =~= coverage(states[0]).union(all_spans(ranges)));
    }
}

/// The same ranges inserted into the same set in any two orders leave the
/// same set.
pub proof fn lemma_insert_any_order(
    one_way: (Seq<Seq<(Seq32, Seq32)>>, Seq<(Seq32, Seq32)>, Seq<bool>),
    other_way: (Seq<Seq<(Seq32, Seq32)>>, Seq<(Seq32, Seq32)>, Seq<bool>),
)
    requires
        insert_run(one_way.0, one_way.1, one_way.2),
        insert_run(other_way.0, other_way.1, other_way.2),
        one_way.0[0] == other_way.0[0],
        canonical(one_way.0[0]),
        forall|i: int| 0 <= i < one_way.1.len() ==> other_way.1.contains(#[trigger] one_way.1[i]),
        forall|i: int| 0 <= i < other_way.1.len() ==> one_way.1.contains(#[trigger] other_way.1[i]),
    ensures
        one_way.0.last() == other_way.0.last(),
{
    lemma_insert_run_covers(one_way.0, one_way.1, one_way.2);
    lemma_insert_run_covers(other_way.0, other_way.1, other_way.2);
    assert forall|p: Seq32| all_spans(one_way.1).contains(p) == all_spans(other_way.1).contains(
        p,
    ) by {
        if all_spans(one_way.1).contains(p) {
            let i = choose|i: int|
                0 <= i < one_way.1.len() && span(
                    (#[trigger] one_way.1[i]).0,
                    one_way.1[i].1,
                ).contains(p);
            let j = choose|j: int| 0 <= j < other_way.1.len() && other_way.1[j] == one_way.1[i];
            assert(span(other_way.1[j].0, other_way.1[j].1).contains(p));
        }
        if all_spans(other_way.1).contains(p) {
            let i = choose|i: int|
                0 <= i < other_way.1.len() && span(
                    (#[trigger] other_way.1[i]).0,
                    other_way.1[i].1,
                ).contains(p);
            let j = choose|j: int| 0 <= j < one_way.1.len() && one_way.1[j] == other_way.1[i];
            assert(span(one_way.1[j].0, one_way.1[j].1).contains(p));
        }
    }
    assert(all_spans(one_way.1) =~= all_spans(other_way.1));
    let a = one_way.0.last();
    let b = other_way.0.last();
    if one_way.1.len() > 0 {
        let n = one_way.1.len() as int;
        assert(inserted(
            one_way.0[n - 1],
            one_way.1[n - 1].0,
            one_way.1[n - 1].1,
            one_way.0[n],
            one_way.2[n - 1],
        ));
    }
    if other_way.1.len() > 0 {
        let n = other_way.1.len() as int;
        assert(inserted(
            other_way.0[n - 1],
            other_way.1[n - 1].0,
            other_way.1[n - 1].1,
            other_way.0[n],
            other_way.2[n - 1],
        ));
    }
    lemma_coverage_fixes_ranges(a, b);
}

/// A range inserted a second time is rejected and leaves the set, and so
/// its number of ranges, as it was.
pub proof fn lemma_insert_again_rejected(
    pre: Seq<(Seq32, Seq32)>,
    start: Seq32,
    end: Seq32,
    once: Seq<(Seq32, Seq32)>,
    twice: Seq<(Seq32, Seq32)>,
    added: (bool, bool),
)
    requires
        inserted(pre, start, end, once, added.0),
        inserted(once, start, end, twice, added.1),
    ensures
        !added.1,
        twice == once,
        twice.len() == once.len(),
{
    assert(span(start, end).subset_of(coverage(once)));
}

/// A range that the set covers already is rejected, whoever put the
/// cover there.
pub proof fn lemma_insert_covered_rejected(
    pre: Seq<(Seq32, Seq32)>,
    start: Seq32,
    end: Seq32,
    post: Seq<(Seq32, Seq32)>,
    added: bool,
)
    requires
        inserted(pre, start, end, post, added),
        forall|p: Seq32| end.follows(start) && in_range(start, end, p) ==> covered(pre, p),
    ensures
        !added,
        post == pre,
{
    assert(span(start, end).subset_of(coverage(pre)));
}

} // verus!
