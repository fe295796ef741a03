//! A set of sequence positions, kept as disjoint ranges that do not touch.

use crate::range_model::{
    canonical, coverage, endpoints_kept, fits, inserted, lemma_covered_by_one, lemma_merge,
    lemma_ordered_from_fitting, lemma_ordered_is_canonical, lemma_remove_keeps_order,
    ordered_from, span, spliced,
};
use crate::seq32::{lemma_window_order, Seq32, HALF};
use vstd::prelude::*;

verus! {

/// A set of sequence ranges, sorted by start, in which no two ranges
/// overlap or touch.
#[derive(Debug, Clone)]
pub struct RangeSet {
    ranges: Vec<(Seq32, Seq32)>,
}

impl View for RangeSet {
    type V = Seq<(Seq32, Seq32)>;

    closed spec fn view(&self) -> Seq<(Seq32, Seq32)> {
        self.ranges@
    }
}

/// A pass over the ranges of a set, in ascending order.
pub struct RangeSetIter<'a> {
    ranges: &'a Vec<(Seq32, Seq32)>,
    pos: usize,
}

impl<'a> RangeSetIter<'a> {
    /// The ranges that the pass has not yet given out.
    pub closed spec fn remaining(&self) -> Seq<(Seq32, Seq32)> {
        self.ranges@.subrange(self.pos as int, self.ranges@.len() as int)
    }

    /// The pass never runs beyond the end of the list.
    pub closed spec fn wf(&self) -> bool {
        self.pos <= self.ranges@.len()
    }

    /// Gives out the next range, if one is left.
    pub fn next(&mut self) -> (r: Option<(&'a Seq32, &'a Seq32)>)
        requires
            old(self).wf(),
        ensures
            final(self).wf(),
            old(self).remaining().len() == 0 ==> r is None && final(self).remaining() == old(
                self,
            ).remaining(),
            old(self).remaining().len() > 0 ==> r == Some(
                (&old(self).remaining()[0].0, &old(self).remaining()[0].1),
            ) && final(self).remaining() == old(self).remaining().drop_first(),
    {
        if self.pos < self.ranges.len() {
            let range = &self.ranges[self.pos];
            self.pos = self.pos + 1;
            assert(self.remaining() == old(self).remaining().drop_first());
            Some((&range.0, &range.1))
        } else {
            None
        }
    }
}

impl RangeSet {
    /// The set keeps its ranges in canonical form.
    pub open spec fn wf(&self) -> bool {
        canonical(self@)
    }

    /// The set and `[start, end)` lie within one window of less than 2^31
    /// positions, so that all comparisons among them agree.
    pub open spec fn admits(&self, start: Seq32, end: Seq32) -> bool {
        exists|base: Seq32| fits(self@, base, start, end)
    }

    /// An empty set.
    pub fn new() -> (r: RangeSet)
        ensures
            r@ == Seq::<(Seq32, Seq32)>::empty(),
            r.wf(),
    {
        RangeSet { ranges: Vec::new() }
    }

    /// A pass over the ranges in ascending order.
    pub fn iter(&self) -> (r: RangeSetIter<'_>)
        ensures
            r.wf(),
            r.remaining() == self@,
    {
        let r = RangeSetIter { ranges: &self.ranges, pos: 0 };
        assert(r.remaining() == self@);
        r
    }

    /// The number of ranges.
    pub fn len(&self) -> (r: usize)
        ensures
            r == self@.len(),
    {
        self.ranges.len()
    }

    /// Counts the ranges that start at or before `pos`. They are the first
    /// ones of the list wherever `pos` lies in the window of `base`.
    fn rank(&self, pos: Seq32, Ghost(base): Ghost<Seq32>) -> (r: usize)
        requires
            ordered_from(self@, base),
        ensures
            r <= self@.len(),
            pos.offset_from(base) < HALF ==> forall|i: int|
                0 <= i < self@.len() ==> (i < r <==> (#[trigger] self@[i]).0.offset_from(base)
                    <= pos.offset_from(base)),
    {
        let mut lo: usize = 0;
        let mut hi: usize = self.ranges.len();
        while lo < hi
            invariant
                lo <= hi <= self@.len(),
                ordered_from(self@, base),
                pos.offset_from(base) < HALF ==> forall|i: int|
                    0 <= i < lo ==> (#[trigger] self@[i]).0.offset_from(base) <= pos.offset_from(
                        base,
                    ),
                pos.offset_from(base) < HALF ==> forall|i: int|
                    hi <= i < self@.len() ==> (#[trigger] self@[i]).0.offset_from(base)
                        > pos.offset_from(base),
            decreases hi - lo,
        {
            let mid: usize = lo + (hi - lo) / 2;
            let key = self.ranges[mid].0;
            proof {
                if pos.offset_from(base) < HALF {
                    lemma_window_order(base, key, pos);
                    assert forall|i: int| 0 <= i < mid implies (#[trigger] self@[i]).0.offset_from(
                        base,
                    ) < self@[mid as int].0.offset_from(base) by {
                        assert(self@[i].0.offset_from(base) < self@[i].1.offset_from(base));
                    }
                    assert forall|i: int| mid < i < self@.len() implies (
                    #[trigger] self@[i]).0.offset_from(base) > self@[mid as int].0.offset_from(
                        base,
                    ) by {
                        assert(self@[mid as int].0.offset_from(base)
                            < self@[mid as int].1.offset_from(base));
                    }
                }
            }
            if key <= pos {
                lo = mid + 1;
            } else {
                hi = mid;
            }
        }
        lo
    }

    /// The index of the last range that starts at or before `pos`.
    fn pred(&self, pos: Seq32, Ghost(base): Ghost<Seq32>) -> (r: Option<usize>)
        requires
            ordered_from(self@, base),
        ensures
            r is Some ==> r.unwrap() < self@.len() && r.unwrap() < usize::MAX,
            pos.offset_from(base) < HALF ==> forall|i: int|
                0 <= i < self@.len() ==> ((r is Some && i <= r.unwrap()) <==> (
                #[trigger] self@[i]).0.offset_from(base) <= pos.offset_from(base)),
    {
        let rank = self.rank(pos, Ghost(base));
        if rank > 0 {
            Some(rank - 1)
        } else {
            None
        }
    }

    /// Walks the ranges from index `from` on and takes in each one that
    /// starts at or before `end`: gives the index after the last one taken
    /// and the end of the range that results.
    fn absorb(&self, from: usize, end: Seq32, Ghost(base): Ghost<Seq32>) -> (r: (usize, Seq32))
        requires
            ordered_from(self@, base),
            from <= self@.len(),
            end.offset_from(base) < HALF,
        ensures
            from <= r.0 <= self@.len(),
            end.offset_from(base) <= r.1.offset_from(base) < HALF,
            r.1 == end || (r.0 > from && r.1 == self@[r.0 - 1].1),
            forall|i: int|
                from <= i < r.0 ==> (#[trigger] self@[i]).0.offset_from(base) <= end.offset_from(
                    base,
                ) && self@[i].1.offset_from(base) <= r.1.offset_from(base),
            r.0 < self@.len() ==> self@[r.0 as int].0.offset_from(base) > r.1.offset_from(base),
    {
        let n = self.ranges.len();
        let mut hi: usize = from;
        while hi < n
            invariant
                from <= hi <= n == self@.len(),
                ordered_from(self@, base),
                end.offset_from(base) < HALF,
                forall|i: int|
                    from <= i < hi ==> (#[trigger] self@[i]).0.offset_from(base) <= end.offset_from(
                        base,
                    ) && self@[i].1.offset_from(base) < end.offset_from(base),
            decreases n - hi,
        {
            let (next_start, next_end) = self.ranges[hi];
            proof {
                assert(self@[hi as int].0.offset_from(base) < self@[hi as int].1.offset_from(base));
                lemma_window_order(base, next_start, end);
                lemma_window_order(base, end, next_end);
            }
            if next_start > end {
                return (hi, end);
            }
            hi = hi + 1;
            if end <= next_end {
                return (hi, next_end);
            }
        }
        (hi, end)
    }

    /// Puts `item` in the place of the ranges `lo .. hi`.
    fn splice(&mut self, lo: usize, hi: usize, item: (Seq32, Seq32))
        requires
            lo <= hi <= old(self)@.len(),
        ensures
            final(self)@ == spliced(old(self)@, lo as int, hi as int, item),
    {
        if lo == hi {
            self.ranges.insert(lo, item);
            assert(self@ == spliced(old(self)@, lo as int, hi as int, item));
        } else {
            let mut k: usize = hi;
            while k > lo + 1
                invariant
                    lo < k <= hi <= old(self)@.len(),
                    self@ == old(self)@.subrange(0, k as int) + old(self)@.subrange(
                        hi as int,
                        old(self)@.len() as int,
                    ),
                decreases k,
            {
                k = k - 1;
                self.ranges.remove(k);
                assert(self@ == old(self)@.subrange(0, k as int) + old(self)@.subrange(
                    hi as int,
                    old(self)@.len() as int,
                ));
            }
            self.ranges[lo] = item;
            assert(self@ == spliced(old(self)@, lo as int, hi as int, item));
        }
    }

    /// Adds the positions of `[start, end)` to the set and tells whether
    /// any of them is new. A range that `end` does not follow is empty; a
    /// range that the set covers already leaves it as it is. Ranges that
    /// the new one overlaps or touches are merged with it.
    pub fn insert(&mut self, start: Seq32, end: Seq32) -> (added: bool)
        requires
            old(self).wf(),
            end.follows(start) ==> old(self).admits(start, end),
        ensures
            final(self).wf(),
            inserted(old(self)@, start, end, final(self)@, added),
            endpoints_kept(old(self)@, start, end, final(self)@),
            forall|base: Seq32|
                fits(old(self)@, base, start, end) ==> ordered_from(final(self)@, base),
    {
        if end <= start {
            assert(span(start, end) =~= Set::<Seq32>::empty());
            assert(coverage(self@) =~= coverage(self@).union(span(start, end)));
            return false;
        }
        let ghost base = choose|base: Seq32| fits(self@, base, start, end);
        proof {
            lemma_window_order(base, end, start);
        }
        let mut lo: usize = 0;
        let mut new_start = start;
        let pred = self.pred(start, Ghost(base));
        if let Some(p) = pred {
            let (p_start, p_end) = self.ranges[p];
            lo = p + 1;
            proof {
                lemma_window_order(base, p_end, start);
                lemma_window_order(base, p_end, end);
            }
            if p_end >= start {
                if p_end >= end {
                    proof {
                        lemma_covered_by_one(self@, base, start, end, p as int);
                    }
                    return false;
                }
                new_start = p_start;
                lo = p;
            }
        }
        let from = match pred {
            Some(p) => p + 1,
            None => 0,
        };
        let (hi, new_end) = self.absorb(from, end, Ghost(base));
        self.splice(lo, hi, (new_start, new_end));
        proof {
            lemma_merge(
                old(self)@,
                base,
                start,
                end,
                lo as int,
                from as int,
                hi as int,
                new_start,
                new_end,
            );
            lemma_ordered_is_canonical(self@, base);
            assert forall|other: Seq32| fits(old(self)@, other, start, end) implies ordered_from(
                self@,
                other,
            ) by {
                lemma_ordered_from_fitting(old(self)@, start, end, self@, base, other);
            }
        }
        true
    }

    /// Removes the range that starts exactly at `start`, if there is one,
    /// and gives its end.
    pub fn remove(&mut self, start: &Seq32) -> (r: Option<Seq32>)
        requires
            old(self).wf(),
        ensures
            final(self).wf(),
            match r {
                Some(end) => exists|i: int|
                    0 <= i < old(self)@.len() && old(self)@[i] == (*start, end) && final(self)@
                        == old(self)@.remove(i),
                None => final(self)@ == old(self)@ && forall|i: int|
                    0 <= i < old(self)@.len() ==> (#[trigger] old(self)@[i]).0 != *start,
            },
    {
        if self.ranges.len() == 0 {
            return None;
        }
        let ghost base = self@[0].0;
        let pred = self.pred(*start, Ghost(base));
        proof {
            assert forall|i: int| 0 <= i < self@.len() && (#[trigger] self@[i]).0
                == *start implies pred is Some && i == pred.unwrap() by {
                let p = pred.unwrap() as int;
                assert(self@[i].0.offset_from(base) < self@[i].1.offset_from(base));
                if i < p {
                    assert(self@[i].1.offset_from(base) < self@[p].0.offset_from(base));
                }
            }
        }
        if let Some(p) = pred {
            let (p_start, p_end) = self.ranges[p];
            if p_start == *start {
                self.ranges.remove(p);
                proof {
                    lemma_remove_keeps_order(old(self)@, base, p as int);
                    lemma_ordered_is_canonical(self@, base);
                }
                return Some(p_end);
            }
        }
        None
    }
}

impl Default for RangeSet {
    fn default() -> (r: RangeSet)
        ensures
            r@ == Seq::<(Seq32, Seq32)>::empty(),
            r.wf(),
    {
        RangeSet::new()
    }
}

} // verus!
