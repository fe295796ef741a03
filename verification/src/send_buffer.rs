//! The send buffer: outgoing bytes are cut into segments of at most `mss`
//! bytes, handed out once for sending, kept for resending, and dropped when
//! they are acknowledged.

use crate::range_model::in_range;
use crate::send_model::{
    lemma_ack_bounds, lemma_ack_run, lemma_acked_is_dropped, lemma_appended, lemma_dropped_valid,
    lemma_popped, lemma_starts_differ, lemma_topped_up, SendBufferView, SBUF_MAX_LIMIT,
};
use crate::seq32::{lemma_offset_bounds, lemma_window_order, Seq32, HALF};
use crate::store::{
    bytes_as_slice, bytes_contents, bytes_mut_as_slice, bytes_mut_contents, bytes_mut_from_slice,
    bytes_mut_put_slice, deque_index_mut,
};
use bytes::{Bytes, BytesMut};
use std::collections::VecDeque;
use vstd::prelude::*;
use vstd::slice::slice_subrange;

verus! {

/// An outgoing byte stream cut into segments. Bytes are appended at the
/// back, handed out segment by segment, and dropped when acknowledged.
pub struct SendBuffer {
    queue: VecDeque<(Seq32, BytesMut)>,
    enqueue: Seq32,
    unsent: Seq32,
    size: usize,
    limit: usize,
    mss: usize,
}

/// The start position and bytes of each queued segment.
pub open spec fn segments_of(queue: Seq<(Seq32, BytesMut)>) -> Seq<(Seq32, Seq<u8>)> {
    Seq::new(queue.len(), |i: int| (queue[i].0, bytes_mut_contents(queue[i].1)))
}

impl View for SendBuffer {
    type V = SendBufferView;

    closed spec fn view(&self) -> SendBufferView {
        SendBufferView {
            segments: segments_of(self.queue@),
            enqueue: self.enqueue,
            unsent: self.unsent,
            size: self.size as nat,
            limit: self.limit as nat,
            mss: self.mss as nat,
        }
    }
}

impl SendBuffer {
    /// The buffer is in a consistent state.
    pub open spec fn wf(&self) -> bool {
        self@.valid()
    }

    /// An empty buffer that takes up to `limit` bytes and cuts them into
    /// segments of at most `mss` bytes. All positions start at 0.
    pub fn new(limit: usize, mss: usize) -> (r: SendBuffer)
        requires
            0 < mss,
            limit <= SBUF_MAX_LIMIT,
        ensures
            r.wf(),
            r@ == (SendBufferView {
                segments: Seq::empty(),
                enqueue: Seq32(0),
                unsent: Seq32(0),
                size: 0,
                limit: limit as nat,
                mss: mss as nat,
            }),
    {
        let r = SendBuffer {
            queue: VecDeque::new(),
            enqueue: Seq32::from(0),
            unsent: Seq32::from(0),
            size: 0,
            limit: limit,
            mss: mss,
        };
        proof {
            lemma_offset_bounds(Seq32(0), Seq32(0));
            assert(r@.segments =~= Seq::empty());
        }
        r
    }

    /// The number of bytes that can still be pushed.
    pub fn writable_size(&self) -> (r: usize)
        requires
            self.wf(),
        ensures
            r == self@.limit - self@.size,
    {
        self.limit - self.size
    }

    /// Counts the segments that start at or before `pos`. They are the
    /// first ones of the queue wherever `pos` lies less than 2^31 ahead of
    /// the base.
    fn rank(&self, pos: Seq32) -> (r: usize)
        requires
            self.wf(),
        ensures
            r <= self@.segments.len(),
            pos.offset_from(self@.base()) < HALF ==> forall|i: int|
                0 <= i < self@.segments.len() ==> (i < r <==> (#[trigger] self@.at(i))
                    <= pos.offset_from(self@.base())),
    {
        let ghost v = self@;
        let ghost base = v.base();
        let mut lo: usize = 0;
        let mut hi: usize = self.queue.len();
        while lo < hi
            invariant
                lo <= hi <= v.segments.len(),
                v == self@,
                v.valid(),
                base == v.base(),
                pos.offset_from(base) < HALF ==> forall|i: int|
                    0 <= i < lo ==> (#[trigger] v.at(i)) <= pos.offset_from(base),
                pos.offset_from(base) < HALF ==> forall|i: int|
                    hi <= i < v.segments.len() ==> (#[trigger] v.at(i)) > pos.offset_from(base),
            decreases hi - lo,
        {
            let mid: usize = lo + (hi - lo) / 2;
            let key = self.queue[mid].0;
            proof {
                assert(v.segments[mid as int].0 == key);
                assert(v.at(mid as int) + v.segments[mid as int].1.len() <= v.size);
                lemma_offset_bounds(base, key);
                if pos.offset_from(base) < HALF {
                    lemma_window_order(base, key, pos);
                    assert forall|i: int| 0 <= i < mid implies (#[trigger] v.at(i)) < v.at(
                        mid as int,
                    ) by {
                        assert(v.at(i) + v.segments[i].1.len() <= v.at(mid as int));
                    }
                    assert forall|i: int| mid < i < v.segments.len() implies (#[trigger] v.at(i))
                        > v.at(mid as int) by {
                        assert(v.at(mid as int) + v.segments[mid as int].1.len() <= v.at(i));
                    }
                }
            }
            if key <= pos {
                lo = mid + 1;
            } else {
                hi = mid;
            }
        }
        lo
    }

    /// The index of the segment that starts exactly at `pos`.
    fn find(&self, pos: Seq32) -> (r: Option<usize>)
        requires
            self.wf(),
        ensures
            match r {
                Some(i) => self@.starts_at(i as int, pos),
                None => !self@.has(pos),
            },
    {
        let rank = self.rank(pos);
        let ghost v = self@;
        proof {
            assert forall|i: int| #[trigger] v.starts_at(i, pos) implies rank > 0 && i == rank
                - 1 by {
                assert(v.at(i) + v.segments[i].1.len() <= v.size);
                lemma_offset_bounds(v.base(), pos);
                assert(v.at(i) == pos.offset_from(v.base()));
                if i < rank - 1 {
                    assert(v.at(i) + v.segments[i].1.len() <= v.at(rank - 1));
                }
            }
        }
        if rank > 0 && self.queue[rank - 1].0 == pos {
            assert(v.starts_at(rank - 1, pos));
            Some(rank - 1)
        } else {
            None
        }
    }

    /// The index of the first segment that starts at or after the floor of
    /// an acknowledgement from `start` on: none before it can be named.
    fn first_from(&self, start: Seq32) -> (r: usize)
        requires
            self.wf(),
            self@.segments.len() > 0,
        ensures
            r <= self@.segments.len(),
            forall|k: int|
                0 <= k < self@.segments.len() ==> (k < r <==> (#[trigger] self@.at(k))
                    < self@.ack_floor(start)),
    {
        let base = self.queue[0].0;
        let ghost v = self@;
        proof {
            assert(v.segments[0].0 == base);
            lemma_offset_bounds(base, start);
            lemma_offset_bounds(base, self.unsent);
            assert forall|k: int| 0 <= k < v.segments.len() implies 0 <= #[trigger] v.at(k) by {
                lemma_offset_bounds(base, v.segments[k].0);
            }
        }
        if start.distance_from(base) <= self.unsent.distance_from(base) {
            let rank = self.rank(start);
            if rank > 0 && self.queue[rank - 1].0 == start {
                proof {
                    assert(v.segments[rank - 1].0 == start);
                    assert forall|k: int| 0 <= k < rank - 1 implies (#[trigger] v.at(k)) < v.at(
                        rank - 1,
                    ) by {
                        assert(v.at(k) + v.segments[k].1.len() <= v.at(rank - 1));
                    }
                }
                rank - 1
            } else {
                proof {
                    assert forall|k: int| 0 <= k < rank implies (#[trigger] v.at(k))
                        < start.offset_from(base) by {
                        assert(v.at(k) + v.segments[k].1.len() <= v.size);
                        lemma_window_order(base, v.segments[k].0, start);
                        if k < rank - 1 {
                            assert(v.at(k) + v.segments[k].1.len() <= v.at(rank - 1));
                        } else {
                            assert(v.segments[rank - 1].0 == self.queue@[rank - 1].0);
                        }
                    }
                }
                rank
            }
        } else {
            0
        }
    }

    /// The bytes of the segment that starts exactly at `pos`, for sending
    /// again. There is none where that segment was acknowledged or no
    /// segment ever started there.
    pub fn get(&self, pos: Seq32) -> (r: Option<&[u8]>)
        requires
            self.wf(),
        ensures
            match r {
                Some(bytes) => self@.has(pos) && bytes@ == self@.segments[self@.index_of(pos)].1
                    && bytes@.len() <= self@.mss,
                None => !self@.has(pos),
            },
    {
        match self.find(pos) {
            Some(i) => {
                proof {
                    lemma_starts_differ(self@, i as int, self@.index_of(pos));
                }
                Some(bytes_mut_as_slice(&self.queue[i].1))
            },
            None => None,
        }
    }

    /// Hands out the first segment that has not been handed out yet, with
    /// its start position, and moves `unsent` past it. Each segment is
    /// handed out once this way.
    pub fn pop_unsent(&mut self) -> (r: Option<(Seq32, &[u8])>)
        requires
            old(self).wf(),
        ensures
            final(self).wf(),
            match r {
                Some(segment) => {
                    &&& old(self)@.unsent != old(self)@.enqueue
                    &&& segment.0 == old(self)@.unsent
                    &&& old(self)@.has(segment.0)
                    &&& segment.1@ == old(self)@.segments[old(self)@.index_of(segment.0)].1
                    &&& segment.1@.len() <= old(self)@.mss
                    &&& final(self)@ == old(self)@.popped(old(self)@.index_of(segment.0))
                },
                None => old(self)@.unsent == old(self)@.enqueue && final(self)@ == old(self)@,
            },
    {
        proof {
            lemma_window_order(self@.base(), self.unsent, self.enqueue);
        }
        if self.unsent >= self.enqueue {
            return None;
        }
        let found = self.find(self.unsent);
        proof {
            let k = choose|k: int|
                0 <= k < self@.segments.len() && (#[trigger] self@.segments[k]).0 == self@.unsent;
            assert(self@.starts_at(k, self.unsent));
        }
        let i = found.unwrap();
        let pos = self.unsent;
        let len = self.queue[i].1.len();
        proof {
            lemma_starts_differ(self@, i as int, self@.index_of(pos));
            lemma_popped(self@, i as int);
        }
        self.unsent = self.unsent + len as u32;
        Some((pos, bytes_mut_as_slice(&self.queue[i].1)))
    }

    /// Appends `data`, unless that would take the buffer beyond its limit.
    /// The last segment is filled up first where it is short and has not
    /// been handed out; the rest goes into new segments.
    pub fn push_back(&mut self, data: &Bytes) -> (r: bool)
        requires
            old(self).wf(),
        ensures
            final(self).wf(),
            r == (old(self)@.size + bytes_contents(*data).len() <= old(self)@.limit),
            final(self)@.size <= final(self)@.limit,
            final(self)@ == if r {
                old(self)@.pushed(bytes_contents(*data))
            } else {
                old(self)@
            },
    {
        let len = data.len();
        if len > self.limit - self.size {
            return false;
        }
        let src = bytes_as_slice(data);
        let mut offset: usize = 0;
        let n = self.queue.len();
        if n > 0 {
            let pos = self.queue[n - 1].0;
            let last_len = self.queue[n - 1].1.len();
            proof {
                assert(self@.segments.last() == (pos, bytes_mut_contents(self.queue@[n - 1].1)));
                assert(self@.at(n - 1) + self@.segments[n - 1].1.len() <= self@.size);
                lemma_offset_bounds(self@.base(), pos);
                lemma_offset_bounds(self.unsent, pos);
            }
            if pos >= self.unsent && self.mss > last_len {
                let room = self.mss - last_len;
                let copy_len = if room < len {
                    room
                } else {
                    len
                };
                if copy_len > 0 {
                    let part = slice_subrange(src, 0, copy_len);
                    proof {
                        lemma_topped_up(self@, part@);
                    }
                    let last = deque_index_mut(&mut self.queue, n - 1);
                    bytes_mut_put_slice(&mut last.1, part);
                    offset = copy_len;
                    self.enqueue = self.enqueue + copy_len as u32;
                    self.size = self.size + copy_len;
                    assert(self@.segments =~= old(self)@.topped_up(part@).segments);
                    assert(self@ == old(self)@.topped_up(part@));
                }
            }
        }
        assert(src@.subrange(0, len as int) == src@);
        while offset < len
            invariant
                self.wf(),
                offset <= len == src@.len(),
                src@ == bytes_contents(*data),
                self.size + (len - offset) <= self.limit,
                self@.cut(src@.subrange(offset as int, len as int)) == old(self)@.pushed(src@),
            decreases len - offset,
        {
            let copy_len = if self.mss < len - offset {
                self.mss
            } else {
                len - offset
            };
            let part = slice_subrange(src, offset, offset + copy_len);
            proof {
                let rest = src@.subrange(offset as int, len as int);
                assert(rest.subrange(0, copy_len as int) == part@);
                assert(rest.subrange(copy_len as int, rest.len() as int) == src@.subrange(
                    offset + copy_len,
                    len as int,
                ));
                lemma_appended(self@, part@);
            }
            let ghost before = self@;
            self.queue.push_back((self.enqueue, bytes_mut_from_slice(part)));
            offset = offset + copy_len;
            self.enqueue = self.enqueue + copy_len as u32;
            self.size = self.size + copy_len;
            assert(self@.segments =~= before.appended(part@).segments);
            assert(self@ == before.appended(part@));
        }
        true
    }

    /// Takes the acknowledgement of `[start, end)`, which has to be a
    /// non-empty range before `unsent`: drops the segments that start in
    /// it and tells how many they were. Capacity comes back only as far as
    /// the front of the queue moves.
    pub fn ack(&mut self, start: Seq32, end: Seq32) -> (acked: usize)
        requires
            old(self).wf(),
        ensures
            final(self).wf(),
            final(self)@ == old(self)@.acked(start, end),
            acked == old(self)@.segments.len() - final(self)@.segments.len(),
    {
        proof {
            lemma_offset_bounds(self.unsent, start);
        }
        if end <= start || start >= self.unsent || end > self.unsent {
            return 0;
        }
        let n = self.queue.len();
        if n == 0 {
            return 0;
        }
        let ghost v = self@;
        let ghost bound = lemma_ack_bounds(v, start, end);
        let orig_start = self.queue[0].0;
        let first = self.first_from(start);
        let span = end.distance_from(start);
        let mut acked: usize = 0;
        while first < self.queue.len() && self.queue[first].0.distance_from(start) < span
            invariant
                first + acked <= n == v.segments.len(),
                self.queue@ == old(self).queue@.subrange(0, first as int) + old(
                    self,
                ).queue@.subrange(first + acked, n as int),
                v == old(self)@,
                self.enqueue == old(self).enqueue,
                self.unsent == old(self).unsent,
                self.size == old(self).size,
                self.limit == old(self).limit,
                self.mss == old(self).mss,
                forall|k: int|
                    first <= k < first + acked ==> in_range(
                        start,
                        end,
                        (#[trigger] v.segments[k]).0,
                    ),
                span == end.offset_from(start),
            decreases self.queue@.len() - first,
        {
            assert(self.queue@[first as int] == old(self).queue@[first + acked]);
            assert(v.segments[first + acked].0 == old(self).queue@[first + acked].0);
            self.queue.remove(first);
            acked = acked + 1;
            assert(self.queue@ == old(self).queue@.subrange(0, first as int) + old(
                self,
            ).queue@.subrange(first + acked, n as int));
        }
        proof {
            if first + acked < n {
                assert(self.queue@[first as int] == old(self).queue@[first + acked]);
                assert(v.segments[first + acked].0 == old(self).queue@[first + acked].0);
            }
            lemma_ack_run(v, start, end, bound, first as int, first + acked);
            lemma_acked_is_dropped(v, start, end, first as int, first + acked);
            lemma_dropped_valid(v, first as int, first + acked);
            assert(segments_of(self.queue@) =~= v.segments.subrange(0, first as int)
                + v.segments.subrange(first + acked, n as int));
            assert(orig_start == v.base());
        }
        if self.queue.len() > 0 {
            self.size = self.size - self.queue[0].0.distance_from(orig_start) as usize;
        } else {
            self.size = 0;
        }
        acked
    }
}

} // verus!
