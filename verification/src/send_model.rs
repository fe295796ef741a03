//! What a send buffer stands for, what each operation makes of it, and
//! the laws that follow.

use crate::range_model::in_range;
use crate::seq32::{
    lemma_advance_in_window, lemma_advanced_offset, lemma_advanced_sum, lemma_offset_bounds,
    lemma_offset_rebase, lemma_window_order, Seq32, HALF, SPACE,
};
use vstd::prelude::*;

verus! {

/// The largest limit a send buffer can be made with: all that is buffered
/// has to span less than 2^31 positions for them to compare.
pub const SBUF_MAX_LIMIT: usize = 0x7fff_ffff;

/// What a send buffer stands for: its segments in order, each with its
/// start position and bytes, the position where the next byte is appended,
/// the position of the first byte not yet handed out, the number of bytes
/// that count against the limit, the limit and the greatest segment size.
pub struct SendBufferView {
    pub segments: Seq<(Seq32, Seq<u8>)>,
    pub enqueue: Seq32,
    pub unsent: Seq32,
    pub size: nat,
    pub limit: nat,
    pub mss: nat,
}

impl SendBufferView {
    /// The position that all others are measured from: the start of the
    /// earliest segment, or the append position where there is none.
    pub open spec fn base(self) -> Seq32 {
        if self.segments.len() > 0 {
            self.segments[0].0
        } else {
            self.enqueue
        }
    }

    /// How far segment `i` starts ahead of the base.
    pub open spec fn at(self, i: int) -> int {
        self.segments[i].0.offset_from(self.base())
    }

    /// Where the bytes after segment `i` start: at the next segment, or at
    /// the append position after the last one.
    pub open spec fn next_at(self, i: int) -> int {
        if i + 1 < self.segments.len() {
            self.at(i + 1)
        } else {
            self.size as int
        }
    }

    /// How far the first byte not yet handed out lies ahead of the base.
    pub open spec fn sent(self) -> int {
        self.unsent.offset_from(self.base())
    }

    /// The state is consistent. The bytes counted span from the base to the
    /// append position and stay within the limit; segments hold between one
    /// and `mss` bytes and follow each other in order without overlap; the
    /// segments handed out end at or before `unsent`, and from `unsent` on
    /// the segments follow each other without a gap up to the append
    /// position.
    pub open spec fn valid(self) -> bool {
        &&& 0 < self.mss
        &&& self.size <= self.limit < HALF
        &&& self.enqueue.offset_from(self.base()) == self.size
        &&& self.sent() <= self.size
        &&& forall|i: int|
            0 <= i < self.segments.len() ==> 0 < (#[trigger] self.segments[i]).1.len() <= self.mss
                && self.at(i) + self.segments[i].1.len() <= self.size
        &&& forall|i: int, j: int|
            0 <= i < j < self.segments.len() ==> (#[trigger] self.at(i)) + self.segments[i].1.len()
                <= (#[trigger] self.at(j))
        &&& forall|i: int|
            0 <= i < self.segments.len() && self.sent() <= (#[trigger] self.at(i)) ==> self.at(i)
                + self.segments[i].1.len() == self.next_at(i)
        &&& forall|i: int|
            0 <= i < self.segments.len() && (#[trigger] self.at(i)) < self.sent() ==> self.at(i)
                + self.segments[i].1.len() <= self.sent()
        &&& self.sent() < self.size ==> exists|i: int|
            0 <= i < self.segments.len() && (#[trigger] self.segments[i]).0 == self.unsent
    }

    /// The state after segment `i`, the first one not yet handed out, has
    /// been handed out.
    pub open spec fn popped(self, i: int) -> SendBufferView {
        SendBufferView { unsent: self.unsent.advanced(self.segments[i].1.len() as int), ..self }
    }

    /// How many bytes the last segment can still take: it has to be short
    /// of `mss` and not handed out yet.
    pub open spec fn room(self) -> int {
        if self.segments.len() > 0 && self.segments.last().0.at_or_after(self.unsent)
            && self.segments.last().1.len() < self.mss {
            self.mss - self.segments.last().1.len()
        } else {
            0
        }
    }

    /// The state after `bytes` have been added to the last segment.
    pub open spec fn topped_up(self, bytes: Seq<u8>) -> SendBufferView {
        let last = self.segments.len() - 1;
        SendBufferView {
            segments: self.segments.update(
                last,
                (self.segments[last].0, self.segments[last].1 + bytes),
            ),
            enqueue: self.enqueue.advanced(bytes.len() as int),
            size: self.size + bytes.len(),
            ..self
        }
    }

    /// The state after a new segment holding `bytes` has been appended.
    pub open spec fn appended(self, bytes: Seq<u8>) -> SendBufferView {
        SendBufferView {
            segments: self.segments.push((self.enqueue, bytes)),
            enqueue: self.enqueue.advanced(bytes.len() as int),
            size: self.size + bytes.len(),
            ..self
        }
    }

    /// The state after `data` has been appended as new segments: `mss`
    /// bytes each, the last one what is left.
    pub open spec fn cut(self, data: Seq<u8>) -> SendBufferView
        decreases data.len(),
    {
        if data.len() == 0 || self.mss == 0 {
            self
        } else {
            let n = if self.mss < data.len() {
                self.mss as int
            } else {
                data.len() as int
            };
            self.appended(data.subrange(0, n)).cut(data.subrange(n, data.len() as int))
        }
    }

    /// The state after `data` has been pushed: the last segment is filled
    /// up first, as far as it has room, and the rest is cut into new
    /// segments.
    pub open spec fn pushed(self, data: Seq<u8>) -> SendBufferView {
        let n = if self.room() < data.len() {
            self.room()
        } else {
            data.len() as int
        };
        if n > 0 {
            self.topped_up(data.subrange(0, n)).cut(data.subrange(n, data.len() as int))
        } else {
            self.cut(data)
        }
    }

    /// The state after the segments `lo .. hi` have been dropped: the bytes
    /// counted shrink by as much as the earliest segment left starts later
    /// than the earliest one did, and to nothing where none is left.
    pub open spec fn dropped(self, lo: int, hi: int) -> SendBufferView {
        let kept = self.segments.subrange(0, lo) + self.segments.subrange(
            hi,
            self.segments.len() as int,
        );
        SendBufferView {
            segments: kept,
            size: if kept.len() == 0 {
                0
            } else {
                (self.size - kept[0].0.offset_from(self.base())) as nat
            },
            ..self
        }
    }

    /// An acknowledgement of `[start, end)` is taken: the range is not
    /// empty and lies before `unsent`.
    pub open spec fn accepts(self, start: Seq32, end: Seq32) -> bool {
        end.follows(start) && start.precedes(self.unsent) && end.at_or_before(self.unsent)
    }

    /// The least offset from the base at which a segment that an accepted
    /// acknowledgement from `start` on names can start: the offset of
    /// `start`, or 0 where `start` lies before the base.
    pub open spec fn ack_floor(self, start: Seq32) -> int {
        if start.offset_from(self.base()) <= self.sent() {
            start.offset_from(self.base())
        } else {
            0
        }
    }

    /// The state after `[start, end)` has been acknowledged: the segments
    /// that start in the range are gone, and the bytes counted shrink by
    /// as much as the earliest segment left starts later than the earliest
    /// one did.
    pub open spec fn acked(self, start: Seq32, end: Seq32) -> SendBufferView {
        if !self.accepts(start, end) || self.segments.len() == 0 {
            self
        } else {
            let kept = self.segments.filter(|s: (Seq32, Seq<u8>)| !in_range(start, end, s.0));
            SendBufferView {
                segments: kept,
                size: if kept.len() == 0 {
                    0
                } else {
                    (self.size - kept[0].0.offset_from(self.segments[0].0)) as nat
                },
                ..self
            }
        }
    }

    /// Segment `i` starts at `pos`.
    pub open spec fn starts_at(self, i: int, pos: Seq32) -> bool {
        0 <= i < self.segments.len() && self.segments[i].0 == pos
    }

    /// Some segment starts at `pos`.
    pub open spec fn has(self, pos: Seq32) -> bool {
        exists|i: int| #[trigger] self.starts_at(i, pos)
    }

    /// The index of the segment that starts at `pos`, where there is one.
    pub open spec fn index_of(self, pos: Seq32) -> int {
        choose|i: int| #[trigger] self.starts_at(i, pos)
    }
}

/// In a consistent state no two segments start at the same position.
pub proof fn lemma_starts_differ(v: SendBufferView, i: int, j: int)
    requires
        v.valid(),
        0 <= i < v.segments.len(),
        0 <= j < v.segments.len(),
        v.segments[i].0 == v.segments[j].0,
    ensures
        i == j,
{
    if i < j {
        assert(v.at(i) + v.segments[i].1.len() <= v.at(j));
    }
    if j < i {
        assert(v.at(j) + v.segments[j].1.len() <= v.at(i));
    }
}

/// Handing out segment `i`, which starts at `unsent`, leaves a consistent
/// state.
pub proof fn lemma_popped(v: SendBufferView, i: int)
    requires
        v.valid(),
        v.starts_at(i, v.unsent),
    ensures
        v.popped(i).valid(),
        v.segments[i].1.len() <= v.mss,
        v.segments[i].1.len() < HALF,
{
    let w = v.popped(i);
    let len = v.segments[i].1.len() as int;
    assert(v.at(i) + len <= v.size);
    assert(v.at(i) == v.sent());
    assert(v.at(i) + len == v.next_at(i));
    lemma_offset_bounds(v.base(), v.unsent);
    lemma_advance_in_window(v.base(), v.unsent, len);
    assert(w.sent() == v.sent() + len);
    assert(w.base() == v.base());
    assert forall|k: int| 0 <= k < w.segments.len() implies w.at(k) == v.at(k) && w.next_at(k)
        == v.next_at(k) by {}
    assert forall|k: int| 0 <= k < w.segments.len() && (#[trigger] w.at(k))
        < w.sent() implies w.at(k) + w.segments[k].1.len() <= w.sent() by {
        if k < i {
            assert(v.at(k) + v.segments[k].1.len() <= v.at(i));
        }
        if i < k {
            assert(v.at(i) + v.segments[i].1.len() <= v.at(k));
        }
    }
    if w.sent() < w.size {
        assert(i + 1 < v.segments.len());
        assert(v.at(i + 1) + v.segments[i + 1].1.len() <= v.size);
        lemma_window_order(v.base(), v.segments[i + 1].0, w.unsent);
        assert(w.segments[i + 1].0 == w.unsent);
    }
}

/// Filling up the last segment, which has not been handed out, leaves a
/// consistent state.
pub proof fn lemma_topped_up(v: SendBufferView, bytes: Seq<u8>)
    requires
        v.valid(),
        0 < bytes.len() <= v.room(),
        v.size + bytes.len() <= v.limit,
    ensures
        v.topped_up(bytes).valid(),
{
    let w = v.topped_up(bytes);
    let last = v.segments.len() - 1;
    assert(v.at(last) + v.segments[last].1.len() <= v.size);
    lemma_offset_bounds(v.base(), v.segments[last].0);
    lemma_offset_bounds(v.base(), v.unsent);
    lemma_window_order(v.base(), v.segments[last].0, v.unsent);
    assert(v.sent() <= v.at(last));
    assert(v.at(last) + v.segments[last].1.len() == v.next_at(last));
    lemma_advance_in_window(v.base(), v.enqueue, bytes.len() as int);
    assert(w.base() == v.base());
    assert forall|k: int| 0 <= k < w.segments.len() implies w.at(k) == v.at(k) by {}
    assert forall|k: int| 0 <= k < w.segments.len() implies 0 < (#[trigger] w.segments[k]).1.len()
        <= w.mss && w.at(k) + w.segments[k].1.len() <= w.size by {
        assert(v.at(k) + v.segments[k].1.len() <= v.size);
    }
    assert forall|k: int, j: int| 0 <= k < j < w.segments.len() implies (#[trigger] w.at(k))
        + w.segments[k].1.len() <= (#[trigger] w.at(j)) by {
        assert(v.at(k) + v.segments[k].1.len() <= v.at(j));
    }
    assert forall|k: int|
        0 <= k < w.segments.len() && w.sent() <= (#[trigger] w.at(k)) implies w.at(k)
        + w.segments[k].1.len() == w.next_at(k) by {
        assert(v.at(k) + v.segments[k].1.len() == v.next_at(k));
    }
    assert forall|k: int| 0 <= k < w.segments.len() && (#[trigger] w.at(k))
        < w.sent() implies w.at(k) + w.segments[k].1.len() <= w.sent() by {
        assert(v.at(k) + v.segments[k].1.len() <= v.sent());
    }
    // the last segment was waiting to be handed out, so `unsent` starts one
    assert(v.sent() < v.size);
    let k = choose|k: int| 0 <= k < v.segments.len() && (#[trigger] v.segments[k]).0 == v.unsent;
    assert(w.segments[k].0 == w.unsent);
}

/// Appending a new segment of between one and `mss` bytes within the
/// limit leaves a consistent state.
pub proof fn lemma_appended(v: SendBufferView, bytes: Seq<u8>)
    requires
        v.valid(),
        0 < bytes.len() <= v.mss,
        v.size + bytes.len() <= v.limit,
    ensures
        v.appended(bytes).valid(),
{
    let w = v.appended(bytes);
    let n = v.segments.len() as int;
    lemma_offset_bounds(v.base(), v.base());
    lemma_offset_bounds(v.base(), v.unsent);
    lemma_advance_in_window(v.base(), v.enqueue, bytes.len() as int);
    assert(w.base() == v.base());
    assert(w.at(n) == v.size);
    assert forall|k: int| 0 <= k < n implies w.at(k) == v.at(k) && w.segments[k]
        == v.segments[k] by {}
    assert forall|k: int| 0 <= k < w.segments.len() implies 0 < (#[trigger] w.segments[k]).1.len()
        <= w.mss && w.at(k) + w.segments[k].1.len() <= w.size by {
        if k < n {
            assert(v.at(k) + v.segments[k].1.len() <= v.size);
        }
    }
    assert forall|k: int, j: int| 0 <= k < j < w.segments.len() implies (#[trigger] w.at(k))
        + w.segments[k].1.len() <= (#[trigger] w.at(j)) by {
        if j < n {
            assert(v.at(k) + v.segments[k].1.len() <= v.at(j));
        } else {
            assert(v.at(k) + v.segments[k].1.len() <= v.size);
        }
    }
    assert forall|k: int|
        0 <= k < w.segments.len() && w.sent() <= (#[trigger] w.at(k)) implies w.at(k)
        + w.segments[k].1.len() == w.next_at(k) by {
        if k < n {
            assert(v.at(k) + v.segments[k].1.len() == v.next_at(k));
        }
    }
    assert forall|k: int| 0 <= k < w.segments.len() && (#[trigger] w.at(k))
        < w.sent() implies w.at(k) + w.segments[k].1.len() <= w.sent() by {
        if k < n {
            assert(v.at(k) + v.segments[k].1.len() <= v.sent());
        }
    }
    if v.sent() < v.size {
        let k = choose|k: int|
            0 <= k < v.segments.len() && (#[trigger] v.segments[k]).0 == v.unsent;
        assert(w.segments[k].0 == w.unsent);
    } else {
        lemma_window_order(v.base(), v.unsent, v.enqueue);
        assert(w.segments[n].0 == w.unsent);
    }
}

/// Seen from the base, the segments that an accepted acknowledgement of
/// `[start, end)` names are those that start at or after the floor and
/// before a bound, which lies at or before `unsent`.
pub proof fn lemma_ack_bounds(v: SendBufferView, start: Seq32, end: Seq32) -> (bound: int)
    requires
        v.valid(),
        v.accepts(start, end),
    ensures
        bound <= v.sent(),
        forall|k: int|
            0 <= k < v.segments.len() ==> (in_range(start, end, (#[trigger] v.segments[k]).0)
                <==> v.ack_floor(start) <= v.at(k) < bound),
{
    let base = v.base();
    let s = start.offset_from(base);
    let u = v.sent();
    let a = v.unsent.offset_from(start);
    let e = end.offset_from(start);
    lemma_offset_bounds(start, start);
    lemma_offset_bounds(start, end);
    lemma_offset_bounds(start, v.unsent);
    lemma_offset_bounds(v.unsent, start);
    lemma_offset_bounds(v.unsent, end);
    lemma_offset_bounds(base, start);
    lemma_offset_bounds(base, v.unsent);
    lemma_offset_rebase(start, v.unsent, start);
    lemma_offset_rebase(start, end, v.unsent);
    lemma_offset_rebase(start, v.unsent, end);
    lemma_offset_rebase(base, start, v.unsent);
    assert(0 < e <= a <= HALF);
    let bound = if s <= u {
        s + e
    } else {
        e + s - SPACE
    };
    assert forall|k: int| 0 <= k < v.segments.len() implies (in_range(
        start,
        end,
        (#[trigger] v.segments[k]).0,
    ) <==> v.ack_floor(start) <= v.at(k) < bound) by {
        assert(v.at(k) + v.segments[k].1.len() <= v.size);
        lemma_offset_bounds(base, v.segments[k].0);
        lemma_offset_rebase(base, start, v.segments[k].0);
    }
    bound
}

/// The segments that an acknowledgement names stand next to each other:
/// where `lo` is the first segment at or after the floor, those from `lo`
/// up to `hi` are named and the one at `hi` is not, no other is named, and
/// all that are named were handed out.
pub proof fn lemma_ack_run(
    v: SendBufferView,
    start: Seq32,
    end: Seq32,
    bound: int,
    lo: int,
    hi: int,
)
    requires
        v.valid(),
        0 <= lo <= hi <= v.segments.len(),
        bound <= v.sent(),
        forall|k: int|
            0 <= k < v.segments.len() ==> (in_range(start, end, (#[trigger] v.segments[k]).0)
                <==> v.ack_floor(start) <= v.at(k) < bound),
        forall|k: int|
            0 <= k < v.segments.len() ==> (k < lo <==> (#[trigger] v.at(k)) < v.ack_floor(start)),
        forall|k: int| lo <= k < hi ==> in_range(start, end, (#[trigger] v.segments[k]).0),
        hi < v.segments.len() ==> !in_range(start, end, v.segments[hi].0),
    ensures
        forall|k: int|
            0 <= k < v.segments.len() ==> (in_range(start, end, (#[trigger] v.segments[k]).0)
                <==> lo <= k < hi),
        forall|k: int| lo <= k < hi ==> (#[trigger] v.at(k)) < v.sent(),
{
    assert forall|k: int| 0 <= k < v.segments.len() implies (in_range(
        start,
        end,
        (#[trigger] v.segments[k]).0,
    ) <==> lo <= k < hi) by {
        if k > hi {
            assert(v.at(hi) + v.segments[hi].1.len() <= v.at(k));
        }
    }
    assert forall|k: int| lo <= k < hi implies (#[trigger] v.at(k)) < v.sent() by {
        assert(in_range(start, end, v.segments[k].0));
    }
}

/// A filter that drops the run `lo .. hi` of a sequence and nothing else
/// leaves what stands before and after the run.
pub proof fn lemma_filter_run<A>(s: Seq<A>, pred: spec_fn(A) -> bool, lo: int, hi: int)
    requires
        0 <= lo <= hi <= s.len(),
        forall|k: int| 0 <= k < s.len() ==> (pred(#[trigger] s[k]) <==> !(lo <= k < hi)),
    ensures
        s.filter(pred) == s.subrange(0, lo) + s.subrange(hi, s.len() as int),
    decreases s.len(),
{
    reveal(Seq::filter);
    if s.len() == 0 {
        assert(s.filter(pred) =~= s.subrange(0, lo) + s.subrange(hi, s.len() as int));
    } else {
        let t = s.drop_last();
        let n = s.len() as int;
        assert forall|k: int| 0 <= k < t.len() implies t[k] == s[k] by {}
        if hi == n {
            let lo2 = if lo == n {
                n - 1
            } else {
                lo
            };
            lemma_filter_run(t, pred, lo2, n - 1);
            if lo == n {
                assert(pred(s[n - 1]));
                assert(s.filter(pred) =~= s.subrange(0, lo) + s.subrange(hi, n));
            } else {
                assert(!pred(s[n - 1]));
                assert(s.filter(pred) =~= s.subrange(0, lo) + s.subrange(hi, n));
            }
        } else {
            lemma_filter_run(t, pred, lo, hi);
            assert(pred(s[n - 1]));
            assert(s.filter(pred) =~= s.subrange(0, lo) + s.subrange(hi, n));
        }
    }
}

/// An accepted acknowledgement that names just the segments `lo .. hi`
/// drops just those.
pub proof fn lemma_acked_is_dropped(v: SendBufferView, start: Seq32, end: Seq32, lo: int, hi: int)
    requires
        v.accepts(start, end),
        v.segments.len() > 0,
        0 <= lo <= hi <= v.segments.len(),
        forall|k: int|
            0 <= k < v.segments.len() ==> (in_range(start, end, (#[trigger] v.segments[k]).0)
                <==> lo <= k < hi),
    ensures
        v.acked(start, end) == v.dropped(lo, hi),
{
    let pred = |s: (Seq32, Seq<u8>)| !in_range(start, end, s.0);
    lemma_filter_run(v.segments, pred, lo, hi);
}

/// How a state with the segments `lo .. hi` dropped is measured: from the
/// start of the first segment left, so that every offset is less by the
/// offset of that segment.
pub proof fn lemma_dropped_offsets(v: SendBufferView, lo: int, hi: int) -> (shift: int)
    requires
        v.valid(),
        0 <= lo <= hi <= v.segments.len(),
        lo > 0 || hi < v.segments.len(),
        forall|k: int| lo <= k < hi ==> (#[trigger] v.at(k)) < v.sent(),
    ensures
        0 <= shift <= v.sent(),
        v.dropped(lo, hi).segments.len() == v.segments.len() - (hi - lo),
        v.dropped(lo, hi).size == v.size - shift,
        v.dropped(lo, hi).sent() == v.sent() - shift,
        v.dropped(lo, hi).enqueue.offset_from(v.dropped(lo, hi).base()) == v.size - shift,
        forall|k: int|
            0 <= k < lo ==> (#[trigger] v.dropped(lo, hi).segments[k]) == v.segments[k]
                && v.dropped(lo, hi).at(k) == v.at(k) - shift,
        forall|k: int|
            lo <= k < v.segments.len() - (hi - lo) ==> (#[trigger] v.dropped(lo, hi).segments[k])
                == v.segments[k + (hi - lo)] && v.dropped(lo, hi).at(k) == v.at(k + (hi - lo))
                - shift,
{
    let w = v.dropped(lo, hi);
    let n = v.segments.len() as int;
    let gone = hi - lo;
    let base = v.base();
    let first = if lo > 0 {
        0
    } else {
        hi
    };
    let shift = v.at(first);
    lemma_offset_bounds(base, base);
    lemma_offset_bounds(base, v.unsent);
    lemma_offset_bounds(base, v.segments[first].0);
    assert(w.segments[0] == v.segments[first]);
    assert(v.at(first) + v.segments[first].1.len() <= v.size);
    assert(shift <= v.sent()) by {
        if lo == 0 && hi > 0 {
            assert(v.at(hi - 1) < v.sent());
            assert(v.at(hi - 1) + v.segments[hi - 1].1.len() <= v.sent());
            if v.sent() < v.size {
                let k = choose|k: int| 0 <= k < n && (#[trigger] v.segments[k]).0 == v.unsent;
                assert(v.at(k) == v.sent());
                if k > hi {
                    assert(v.at(hi) + v.segments[hi].1.len() <= v.at(k));
                }
                if k < hi {
                    assert(v.at(k) < v.sent());
                }
            }
        }
    }
    lemma_offset_rebase(base, w.base(), v.enqueue);
    lemma_offset_rebase(base, w.base(), v.unsent);
    assert forall|k: int| 0 <= k < lo implies (#[trigger] w.segments[k]) == v.segments[k] && w.at(k)
        == v.at(k) - shift by {
        if first < k {
            assert(v.at(first) + v.segments[first].1.len() <= v.at(k));
        }
        lemma_offset_rebase(base, w.base(), v.segments[k].0);
    }
    assert forall|k: int| lo <= k < n - gone implies (#[trigger] w.segments[k]) == v.segments[k
        + gone] && w.at(k) == v.at(k + gone) - shift by {
        if first < k + gone {
            assert(v.at(first) + v.segments[first].1.len() <= v.at(k + gone));
        }
        lemma_offset_rebase(base, w.base(), v.segments[k + gone].0);
    }
    shift
}

/// Dropping a run of segments that were all handed out leaves a consistent
/// state.
#[verifier::spinoff_prover]
pub proof fn lemma_dropped_valid(v: SendBufferView, lo: int, hi: int)
    requires
        v.valid(),
        0 <= lo <= hi <= v.segments.len(),
        forall|k: int| lo <= k < hi ==> (#[trigger] v.at(k)) < v.sent(),
    ensures
        v.dropped(lo, hi).valid(),
        v.dropped(lo, hi).segments.len() > 0 ==> 0 <= v.dropped(lo, hi).segments[0].0.offset_from(
            v.base(),
        ) <= v.size,
{
    let w = v.dropped(lo, hi);
    let n = v.segments.len() as int;
    let gone = hi - lo;
    if lo == 0 && hi == n {
        // nothing is left, so nothing was waiting to be handed out
        lemma_offset_bounds(v.enqueue, v.enqueue);
        lemma_offset_bounds(v.base(), v.unsent);
        if v.sent() < v.size {
            let k = choose|k: int| 0 <= k < n && (#[trigger] v.segments[k]).0 == v.unsent;
            assert(v.at(k) == v.sent());
        }
        lemma_window_order(v.base(), v.unsent, v.enqueue);
        assert(w.segments.len() == 0);
    } else {
        let shift = lemma_dropped_offsets(v, lo, hi);
        lemma_offset_bounds(v.base(), w.segments[0].0);
        assert(w.segments[0].0.offset_from(v.base()) <= v.size) by {
            let first = if lo > 0 {
                0
            } else {
                hi
            };
            assert(w.segments[0] == v.segments[first]);
            assert(v.at(first) + v.segments[first].1.len() <= v.size);
        }
        assert forall|k: int| 0 <= k < w.segments.len() implies 0 < (
        #[trigger] w.segments[k]).1.len() <= w.mss && w.at(k) + w.segments[k].1.len()
            <= w.size by {
            let o = if k < lo {
                k
            } else {
                k + gone
            };
            assert(v.at(o) + v.segments[o].1.len() <= v.size);
        }
        assert forall|k: int, j: int| 0 <= k < j < w.segments.len() implies (#[trigger] w.at(k))
            + w.segments[k].1.len() <= (#[trigger] w.at(j)) by {
            let ok = if k < lo {
                k
            } else {
                k + gone
            };
            let oj = if j < lo {
                j
            } else {
                j + gone
            };
            assert(w.segments[k] == v.segments[ok]);
            assert(w.segments[j] == v.segments[oj]);
            assert(v.at(ok) + v.segments[ok].1.len() <= v.at(oj));
        }
        assert forall|k: int|
            0 <= k < w.segments.len() && w.sent() <= (#[trigger] w.at(k)) implies w.at(k)
            + w.segments[k].1.len() == w.next_at(k) by {
            let o = if k < lo {
                k
            } else {
                k + gone
            };
            assert(w.segments[k] == v.segments[o]);
            assert(v.sent() <= v.at(o));
            assert(v.at(o) + v.segments[o].1.len() == v.next_at(o));
            if o + 1 < n {
                assert(v.at(o) + v.segments[o].1.len() <= v.at(o + 1));
                assert(!(lo <= o + 1 < hi));
                assert(w.segments[k + 1] == v.segments[o + 1]);
            }
        }
        assert forall|k: int| 0 <= k < w.segments.len() && (#[trigger] w.at(k))
            < w.sent() implies w.at(k) + w.segments[k].1.len() <= w.sent() by {
            let o = if k < lo {
                k
            } else {
                k + gone
            };
            assert(w.segments[k] == v.segments[o]);
            assert(v.at(o) + v.segments[o].1.len() <= v.sent());
        }
        if w.sent() < w.size {
            let k = choose|k: int| 0 <= k < n && (#[trigger] v.segments[k]).0 == v.unsent;
            assert(v.at(k) == v.sent());
            let o = if k < lo {
                k
            } else {
                k - gone
            };
            assert(w.segments[o] == v.segments[k]);
            assert(w.segments[o].0 == w.unsent);
        }
    }
}

/// Whatever a filter keeps comes from the sequence it was given.
pub proof fn lemma_filter_source<A>(s: Seq<A>, pred: spec_fn(A) -> bool, i: int) -> (j: int)
    requires
        0 <= i < s.filter(pred).len(),
    ensures
        0 <= j < s.len(),
        s[j] == s.filter(pred)[i],
        pred(s[j]),
    decreases s.len(),
{
    reveal(Seq::filter);
    let t = s.drop_last();
    if pred(s.last()) && i == t.filter(pred).len() {
        s.len() - 1
    } else {
        lemma_filter_source(t, pred, i)
    }
}

/// A filter keeps the first element where it passes.
pub proof fn lemma_filter_keeps_first<A>(s: Seq<A>, pred: spec_fn(A) -> bool)
    requires
        s.len() > 0,
        pred(s[0]),
    ensures
        s.filter(pred).len() > 0,
        s.filter(pred)[0] == s[0],
    decreases s.len(),
{
    reveal(Seq::filter);
    if s.len() > 1 {
        let t = s.drop_last();
        assert(t[0] == s[0]);
        lemma_filter_keeps_first(t, pred);
    } else {
        assert(s.drop_last().filter(pred) =~= Seq::<A>::empty());
    }
}

/// An acknowledgement gives capacity back only as far as the front of the
/// queue moves: where the earliest segment is not among those named, it
/// stays the earliest one and the bytes counted stay as they were. The
/// segments named are gone all the same.
pub proof fn lemma_ack_frees_front_only(v: SendBufferView, start: Seq32, end: Seq32)
    requires
        v.valid(),
        v.accepts(start, end),
        v.segments.len() > 0,
    ensures
        forall|i: int|
            0 <= i < v.acked(start, end).segments.len() ==> !in_range(
                start,
                end,
                (#[trigger] v.acked(start, end).segments[i]).0,
            ),
        !in_range(start, end, v.segments[0].0) ==> v.acked(start, end).segments.len() > 0
            && v.acked(start, end).segments[0] == v.segments[0] && v.acked(start, end).size
            == v.size,
        v.acked(start, end).size <= v.size,
{
    let pred = |s: (Seq32, Seq<u8>)| !in_range(start, end, s.0);
    let kept = v.segments.filter(pred);
    assert forall|i: int| 0 <= i < kept.len() implies !in_range(
        start,
        end,
        (#[trigger] kept[i]).0,
    ) by {
        let j = lemma_filter_source(v.segments, pred, i);
    }
    if !in_range(start, end, v.segments[0].0) {
        lemma_filter_keeps_first(v.segments, pred);
        lemma_offset_bounds(v.segments[0].0, v.segments[0].0);
    }
    if kept.len() > 0 {
        let j = lemma_filter_source(v.segments, pred, 0);
        lemma_offset_bounds(v.segments[0].0, kept[0].0);
        assert(v.at(j) + v.segments[j].1.len() <= v.size);
    }
}

/// All the bytes that the segments hold, in order.
pub open spec fn bytes_of(segments: Seq<(Seq32, Seq<u8>)>) -> Seq<u8>
    decreases segments.len(),
{
    if segments.len() == 0 {
        Seq::empty()
    } else {
        bytes_of(segments.drop_last()) + segments.last().1
    }
}

/// Cutting data into new segments appends its bytes, in order, to those
/// that the segments held, and moves the append position on by as many.
pub proof fn lemma_cut_keeps_bytes(v: SendBufferView, data: Seq<u8>)
    requires
        0 < v.mss,
    ensures
        bytes_of(v.cut(data).segments) == bytes_of(v.segments) + data,
        v.cut(data).enqueue == v.enqueue.advanced(data.len() as int),
        v.cut(data).size == v.size + data.len(),
        v.cut(data).unsent == v.unsent,
        v.cut(data).limit == v.limit,
        v.cut(data).mss == v.mss,
    decreases data.len(),
{
    if data.len() == 0 {
        assert(bytes_of(v.segments) + data =~= bytes_of(v.segments));
        lemma_advanced_offset(v.enqueue, v.enqueue, 0);
    } else {
        let n = if v.mss < data.len() {
            v.mss as int
        } else {
            data.len() as int
        };
        let head = data.subrange(0, n);
        let tail = data.subrange(n, data.len() as int);
        let w = v.appended(head);
        assert(w.segments.drop_last() == v.segments);
        lemma_cut_keeps_bytes(w, tail);
        lemma_advanced_sum(v.enqueue, n, tail.len() as int);
        assert(bytes_of(v.segments) + head + tail =~= bytes_of(v.segments) + data);
    }
}

/// Pushing data appends its bytes, in order, to those that the segments
/// held: segments change how the bytes are grouped, never the bytes.
pub proof fn lemma_push_keeps_bytes(v: SendBufferView, data: Seq<u8>)
    requires
        v.valid(),
    ensures
        bytes_of(v.pushed(data).segments) == bytes_of(v.segments) + data,
        v.pushed(data).enqueue == v.enqueue.advanced(data.len() as int),
        v.pushed(data).size == v.size + data.len(),
        v.pushed(data).unsent == v.unsent,
{
    let n = if v.room() < data.len() {
        v.room()
    } else {
        data.len() as int
    };
    if n > 0 {
        let head = data.subrange(0, n);
        let tail = data.subrange(n, data.len() as int);
        let w = v.topped_up(head);
        assert(w.segments.drop_last() == v.segments.drop_last());
        lemma_cut_keeps_bytes(w, tail);
        lemma_advanced_sum(v.enqueue, n, tail.len() as int);
        assert(bytes_of(v.segments.drop_last()) + (v.segments.last().1 + head) + tail
            =~= bytes_of(v.segments) + data);
    } else {
        lemma_cut_keeps_bytes(v, data);
    }
}

/// What is pushed never takes the bytes counted beyond the limit, and no
/// segment ever holds more than `mss` bytes.
pub proof fn lemma_bounds_hold(v: SendBufferView, i: int)
    requires
        v.valid(),
        0 <= i < v.segments.len(),
    ensures
        v.size <= v.limit,
        0 < v.segments[i].1.len() <= v.mss,
{
}

} // verus!
