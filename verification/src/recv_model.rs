//! What a receive buffer stands for, and the laws of writing to it and
//! reading from it.

use crate::range_model::{
    canonical, coverage, covered, endpoints_kept, in_range, lemma_in_range_offsets,
    lemma_ordered_rebase, lemma_ranges_apart, ordered_from, span,
};
use crate::seq32::{
    lemma_advanced_inverse, lemma_advanced_offset, lemma_advanced_sum, lemma_offset_bounds,
    lemma_offset_rebase, lemma_window_order, Seq32, HALF, SPACE,
};
use vstd::prelude::*;

verus! {

/// Storage is allocated in blocks of 2^17 bytes.
pub const RBUF_BLOCK_BIT: u32 = 17;

/// The size of a storage block, 128 KiB.
pub const RBUF_BLOCK_SIZE: u32 = 0x2_0000;

/// Selects a position's offset within its block.
pub const RBUF_BLOCK_MASK: u32 = 0x1_ffff;

/// The largest capacity a buffer can be made with: the window ahead of the
/// read cursor has to stay below 2^31 bytes for positions to compare.
pub const RBUF_MAX_CAPACITY: u32 = 0x7ffe_0000;

/// What a receive buffer stands for: the read cursor, the capacity in
/// blocks, the number of blocks allocated, and the bytes received and not
/// yet consumed, each under its position.
pub struct RecvBufferView {
    pub start_pos: Seq32,
    pub max_blocks: nat,
    pub blocks: nat,
    pub received: Map<Seq32, u8>,
}

impl RecvBufferView {
    /// The offset of the read cursor within its block, the first one
    /// allocated.
    pub open spec fn offset(self) -> int {
        (self.start_pos.0 % RBUF_BLOCK_SIZE) as int
    }

    /// The address of position `p`, counted from the start of the first
    /// block.
    pub open spec fn address(self, p: Seq32) -> int {
        self.offset() + p.offset_from(self.start_pos)
    }

    /// How far ahead of the read cursor data may lie: the capacity less
    /// the part of the cursor's block that lies behind the cursor.
    pub open spec fn window(self) -> int {
        RBUF_BLOCK_SIZE * self.max_blocks - self.offset()
    }

    /// The state is consistent: the capacity is one that a buffer can be
    /// made with, no more blocks are allocated than it allows, and all
    /// that is received lies within them.
    pub open spec fn valid(self) -> bool {
        &&& self.max_blocks * RBUF_BLOCK_SIZE <= RBUF_MAX_CAPACITY
        &&& self.blocks <= self.max_blocks
        &&& forall|p: Seq32|
            self.received.dom().contains(p) ==> 0 <= #[trigger] p.offset_from(self.start_pos)
                && self.address(p) < self.blocks * RBUF_BLOCK_SIZE
    }

    /// The `n` positions from the read cursor on have all been received.
    pub open spec fn holds(self, n: int) -> bool {
        forall|k: int|
            0 <= k < n ==> self.received.dom().contains(#[trigger] self.start_pos.advanced(k))
    }

    /// The first `n` bytes from the read cursor on, in stream order.
    pub open spec fn front(self, n: int) -> Seq<u8> {
        Seq::new(n as nat, |k: int| self.received[self.start_pos.advanced(k)])
    }

    /// Whether a write of `data` at `pos` is taken, and if not, why: the
    /// data is longer than the window; or it starts or ends beyond the
    /// window; or every position of it has been received already, which
    /// holds of empty data too.
    pub open spec fn write_outcome(self, pos: Seq32, data: Seq<u8>) -> Result<(), &'static str> {
        if data.len() > self.window() {
            Err("size-limit-exceed")
        } else if pos.offset_from(self.start_pos) > self.window() || pos.advanced(
            data.len() as int,
        ).offset_from(self.start_pos) > self.window() {
            Err("out-of-range")
        } else if forall|k: int|
            0 <= k < data.len() ==> self.received.dom().contains(#[trigger] pos.advanced(k)) {
            Err("duplicated-data")
        } else {
            Ok(())
        }
    }

    /// The number of blocks that hold all addresses below `end`.
    pub open spec fn blocks_up_to(end: int) -> int {
        (end + RBUF_BLOCK_SIZE - 1) / (RBUF_BLOCK_SIZE as int)
    }

    /// The state after `data` has been written at `pos`: its positions
    /// hold the new bytes, all others what they held, and blocks are
    /// allocated as far as the data reaches.
    pub open spec fn written(self, pos: Seq32, data: Seq<u8>) -> RecvBufferView {
        let needed = Self::blocks_up_to(self.address(pos) + data.len());
        RecvBufferView {
            blocks: if needed > self.blocks {
                needed as nat
            } else {
                self.blocks
            },
            received: Map::new(
                |p: Seq32| self.received.dom().contains(p) || p.offset_from(pos) < data.len(),
                |p: Seq32|
                    if p.offset_from(pos) < data.len() {
                        data[p.offset_from(pos)]
                    } else {
                        self.received[p]
                    },
            ),
            ..self
        }
    }

    /// The state after `len` bytes have been consumed: the cursor has
    /// moved on by `len`, the positions it passed are gone, and so are the
    /// blocks it left behind.
    pub open spec fn consumed(self, len: int) -> RecvBufferView {
        RecvBufferView {
            start_pos: self.start_pos.advanced(len),
            blocks: (self.blocks - (self.offset() + len) / (RBUF_BLOCK_SIZE as int)) as nat,
            received: self.received.remove_keys(
                Set::new(|p: Seq32| p.offset_from(self.start_pos) < len),
            ),
            ..self
        }
    }
}

/// Where a position lies in its block once it has moved on by `n`.
pub proof fn lemma_block_offset(p: Seq32, n: int)
    requires
        0 <= n,
    ensures
        p.advanced(n).0 % RBUF_BLOCK_SIZE == (p.0 % RBUF_BLOCK_SIZE + n) % (
        RBUF_BLOCK_SIZE as int),
{
}

/// What `consume` leaves: with the first range of `before` cut down by
/// `len` positions, or taken out where nothing is left of it, the ranges
/// `after` are ordered from the new cursor, cover what was covered but
/// for the positions passed, and end where ranges ended before.
pub proof fn lemma_consumed(
    start: Seq32,
    len: int,
    before: Seq<(Seq32, Seq32)>,
    after: Seq<(Seq32, Seq32)>,
)
    requires
        ordered_from(before, start),
        before.len() > 0,
        before[0].0 == start,
        0 < len <= before[0].1.offset_from(start),
        ordered_from(after, start),
        canonical(after),
        len == before[0].1.offset_from(start) ==> after == before.remove(0),
        len < before[0].1.offset_from(start) ==> coverage(after) == coverage(
            before.remove(0),
        ).union(span(start.advanced(len), before[0].1)) && endpoints_kept(
            before.remove(0),
            start.advanced(len),
            before[0].1,
            after,
        ),
    ensures
        ordered_from(after, start.advanced(len)),
        forall|p: Seq32|
            covered(after, p) <==> covered(before, p) && !(p.offset_from(start) < len),
        forall|p: Seq32|
            covered(after, p) ==> p.offset_from(start.advanced(len)) == p.offset_from(start) - len,
        forall|i: int|
            0 <= i < after.len() ==> exists|j: int|
                0 <= j < before.len() && (#[trigger] before[j]).1 == (#[trigger] after[i]).1,
{
    let next = start.advanced(len);
    let end = before[0].1;
    let rest = before.remove(0);
    lemma_offset_bounds(start, start);
    lemma_advanced_inverse(start, start, len);
    assert(before[0].0.offset_from(start) < before[0].1.offset_from(start) < HALF);
    assert forall|j: int| 0 <= j < rest.len() implies (#[trigger] rest[j]) == before[j + 1]
        && rest[j].0.offset_from(start) > end.offset_from(start) by {
        assert(before[0].1.offset_from(start) < before[j + 1].0.offset_from(start));
    }
    // every range kept or made starts at or after the new cursor
    assert forall|i: int| 0 <= i < after.len() implies (#[trigger] after[i]).0.offset_from(start)
        >= len && exists|j: int|
        0 <= j < before.len() && (#[trigger] before[j]).1 == after[i].1 by {
        if len == end.offset_from(start) {
            assert(after[i] == rest[i]);
            assert(before[i + 1].1 == after[i].1);
        } else {
            if after[i].0 != next {
                let j = choose|j: int| 0 <= j < rest.len() && (#[trigger] rest[j]).0 == after[i].0;
                assert(rest[j] == before[j + 1]);
            }
            if after[i].1 != end {
                let j = choose|j: int| 0 <= j < rest.len() && (#[trigger] rest[j]).1 == after[i].1;
                assert(rest[j] == before[j + 1]);
                assert(before[j + 1].1 == after[i].1);
            } else {
                assert(before[0].1 == after[i].1);
            }
        }
    }
    if after.len() > 0 {
        assert(after[0].0.offset_from(start) >= len);
        lemma_ordered_rebase(after, start, next);
    }
    assert forall|p: Seq32| covered(after, p) <==> covered(before, p) && !(p.offset_from(start)
        < len) by {
        lemma_offset_bounds(start, p);
        lemma_in_range_offsets(start, start, end, p);
        if covered(rest, p) {
            let j = choose|j: int|
                0 <= j < rest.len() && in_range(rest[j].0, rest[j].1, p);
            assert(rest[j] == before[j + 1]);
            lemma_ranges_apart(before, start, 0, j + 1, p);
            assert(covered(before, p));
        }
        if covered(before, p) {
            let j = choose|j: int|
                0 <= j < before.len() && in_range(before[j].0, before[j].1, p);
            lemma_ranges_apart(before, start, 0, j, p);
            if j > 0 {
                assert(rest[j - 1] == before[j]);
                assert(covered(rest, p));
            }
        }
        if len < end.offset_from(start) {
            lemma_window_order(start, end, next);
            lemma_in_range_offsets(start, next, end, p);
            assert(coverage(after).contains(p) == (coverage(rest).contains(p) || span(
                next,
                end,
            ).contains(p)));
        }
    }
    assert forall|p: Seq32| covered(after, p) implies p.offset_from(next) == p.offset_from(start)
        - len by {
        lemma_offset_rebase(start, next, p);
    }
}

/// The range of `len` positions from `pos` on holds `p` just where `p`
/// lies less than `len` ahead of `pos`.
pub proof fn lemma_span_steps(pos: Seq32, len: int, p: Seq32)
    requires
        0 <= len < HALF,
    ensures
        span(pos, pos.advanced(len)).contains(p) <==> p.offset_from(pos) < len,
        0 <= p.offset_from(pos) < len ==> p == pos.advanced(p.offset_from(pos)),
{
    lemma_advanced_inverse(pos, pos, len);
    lemma_advanced_inverse(pos, p, len);
    lemma_offset_bounds(pos, p);
    lemma_offset_bounds(pos, pos.advanced(len));
}

/// The ranges cover the `len` positions from `pos` on just where they
/// cover each of them, counted by steps from `pos`.
pub proof fn lemma_span_covered(ranges: Seq<(Seq32, Seq32)>, pos: Seq32, len: int)
    requires
        0 <= len < HALF,
    ensures
        span(pos, pos.advanced(len)).subset_of(coverage(ranges)) <==> forall|k: int|
            0 <= k < len ==> covered(ranges, #[trigger] pos.advanced(k)),
{
    if span(pos, pos.advanced(len)).subset_of(coverage(ranges)) {
        assert forall|k: int| 0 <= k < len implies covered(ranges, #[trigger] pos.advanced(k)) by {
            lemma_advanced_inverse(pos, pos, k);
            lemma_span_steps(pos, len, pos.advanced(k));
            assert(span(pos, pos.advanced(len)).contains(pos.advanced(k)));
        }
    }
    if forall|k: int| 0 <= k < len ==> covered(ranges, #[trigger] pos.advanced(k)) {
        assert forall|p: Seq32| span(pos, pos.advanced(len)).contains(p) implies coverage(
            ranges,
        ).contains(p) by {
            lemma_span_steps(pos, len, p);
            lemma_offset_bounds(pos, p);
            assert(covered(ranges, pos.advanced(p.offset_from(pos))));
        }
    }
}

/// A write puts each of its bytes at its position.
pub proof fn lemma_written_bytes(v: RecvBufferView, pos: Seq32, data: Seq<u8>, k: int)
    requires
        0 <= k < data.len() < SPACE,
    ensures
        v.written(pos, data).received.dom().contains(pos.advanced(k)),
        v.written(pos, data).received[pos.advanced(k)] == data[k],
{
    lemma_advanced_inverse(pos, pos, k);
}

/// Bytes written at the read cursor are what is read from there.
pub proof fn lemma_write_then_read(v: RecvBufferView, data: Seq<u8>)
    requires
        data.len() < SPACE,
    ensures
        v.written(v.start_pos, data).holds(data.len() as int),
        v.written(v.start_pos, data).front(data.len() as int) == data,
{
    let w = v.written(v.start_pos, data);
    assert forall|k: int| 0 <= k < data.len() implies w.received.dom().contains(
        #[trigger] w.start_pos.advanced(k),
    ) && w.received[w.start_pos.advanced(k)] == data[k] by {
        lemma_written_bytes(v, v.start_pos, data, k);
    }
    assert(w.front(data.len() as int) =~= data);
}

/// Writes that share no position may come in either order: each is taken
/// or turned down as it would be without the other, and both orders leave
/// the same bytes.
pub proof fn lemma_writes_commute(
    v: RecvBufferView,
    first: (Seq32, Seq<u8>),
    second: (Seq32, Seq<u8>),
)
    requires
        v.valid(),
        forall|p: Seq32|
            !(p.offset_from(first.0) < first.1.len() && p.offset_from(second.0) < second.1.len()),
    ensures
        v.written(second.0, second.1).write_outcome(first.0, first.1) == v.write_outcome(
            first.0,
            first.1,
        ),
        v.written(first.0, first.1).write_outcome(second.0, second.1) == v.write_outcome(
            second.0,
            second.1,
        ),
        v.written(first.0, first.1).written(second.0, second.1) == v.written(
            second.0,
            second.1,
        ).written(first.0, first.1),
{
    assert forall|k: int| 0 <= k < first.1.len() <= v.window() implies !((
    #[trigger] first.0.advanced(k)).offset_from(second.0) < second.1.len()) by {
        lemma_advanced_inverse(first.0, first.0, k);
    }
    assert forall|k: int| 0 <= k < second.1.len() <= v.window() implies !((
    #[trigger] second.0.advanced(k)).offset_from(first.0) < first.1.len()) by {
        lemma_advanced_inverse(second.0, second.0, k);
    }
    assert(v.written(first.0, first.1).written(second.0, second.1).received =~= v.written(
        second.0,
        second.1,
    ).written(first.0, first.1).received);
}

/// Data written in two pieces, one after the other, is data written whole.
pub proof fn lemma_write_in_pieces(v: RecvBufferView, pos: Seq32, head: Seq<u8>, tail: Seq<u8>)
    requires
        pos.offset_from(v.start_pos) + head.len() + tail.len() < SPACE,
    ensures
        v.written(pos, head + tail) == v.written(pos, head).written(
            pos.advanced(head.len() as int),
            tail,
        ),
{
    let next = pos.advanced(head.len() as int);
    let whole = v.written(pos, head + tail);
    let pieces = v.written(pos, head).written(next, tail);
    lemma_offset_bounds(v.start_pos, pos);
    assert forall|p: Seq32|
        (p.offset_from(pos) < head.len() ==> !(p.offset_from(next) < tail.len()) && (head
            + tail)[p.offset_from(pos)] == head[p.offset_from(pos)]) && (head.len()
            <= p.offset_from(pos) < head.len() + tail.len() ==> p.offset_from(next)
            == p.offset_from(pos) - head.len() && (head + tail)[p.offset_from(pos)]
            == tail[p.offset_from(next)]) && (p.offset_from(next) < tail.len() ==> head.len()
            <= p.offset_from(pos) < head.len() + tail.len()) && 0 <= p.offset_from(pos) by {
        lemma_offset_bounds(pos, p);
        lemma_offset_bounds(next, p);
        lemma_advanced_inverse(pos, pos, head.len() as int);
        lemma_offset_rebase(pos, next, p);
    }
    lemma_advanced_offset(v.start_pos, pos, head.len() as int);
    assert(v.address(next) == v.address(pos) + head.len());
    assert(whole.received =~= pieces.received);
}

/// The state after pieces of `data` have been written one after the
/// other: piece `(from, to)` holds the bytes `from .. to` of `data` and
/// goes `from` positions after `origin`.
pub open spec fn written_pieces(
    v: RecvBufferView,
    origin: Seq32,
    data: Seq<u8>,
    pieces: Seq<(int, int)>,
) -> RecvBufferView
    decreases pieces.len(),
{
    if pieces.len() == 0 {
        v
    } else {
        written_pieces(v, origin, data, pieces.drop_last()).written(
            origin.advanced(pieces.last().0),
            data.subrange(pieces.last().0, pieces.last().1),
        )
    }
}

/// Some piece holds the byte at offset `k`.
pub open spec fn brings(pieces: Seq<(int, int)>, k: int) -> bool {
    exists|i: int| 0 <= i < pieces.len() && (#[trigger] pieces[i]).0 <= k < pieces[i].1
}

/// Pieces of one run of bytes put the run together again, in whatever
/// order they come and whether they overlap or not: each byte that some
/// piece brings is received at its place.
pub proof fn lemma_pieces_reassemble(
    v: RecvBufferView,
    origin: Seq32,
    data: Seq<u8>,
    pieces: Seq<(int, int)>,
    k: int,
)
    requires
        data.len() < SPACE,
        forall|i: int|
            0 <= i < pieces.len() ==> 0 <= (#[trigger] pieces[i]).0 <= pieces[i].1 <= data.len(),
        brings(pieces, k),
    ensures
        written_pieces(v, origin, data, pieces).received.dom().contains(origin.advanced(k)),
        written_pieces(v, origin, data, pieces).received[origin.advanced(k)] == data[k],
    decreases pieces.len(),
{
    let (from, to) = pieces.last();
    let before = written_pieces(v, origin, data, pieces.drop_last());
    let p = origin.advanced(k);
    let at = origin.advanced(from);
    lemma_advanced_inverse(origin, origin, k);
    lemma_advanced_inverse(origin, origin, from);
    lemma_offset_rebase(origin, at, p);
    if from <= k < to {
        assert(data.subrange(from, to)[k - from] == data[k]);
    } else {
        let i = choose|i: int| 0 <= i < pieces.len() && (#[trigger] pieces[i]).0 <= k < pieces[i].1;
        assert(pieces.drop_last()[i] == pieces[i]);
        lemma_pieces_reassemble(v, origin, data, pieces.drop_last(), k);
    }
}

/// Once pieces that cover a whole run of bytes have been written from the
/// read cursor on, the run can be read there, byte for byte.
pub proof fn lemma_pieces_then_read(v: RecvBufferView, data: Seq<u8>, pieces: Seq<(int, int)>)
    requires
        data.len() < SPACE,
        forall|i: int|
            0 <= i < pieces.len() ==> 0 <= (#[trigger] pieces[i]).0 <= pieces[i].1 <= data.len(),
        forall|k: int| 0 <= k < data.len() ==> #[trigger] brings(pieces, k),
    ensures
        written_pieces(v, v.start_pos, data, pieces).start_pos == v.start_pos,
        written_pieces(v, v.start_pos, data, pieces).holds(data.len() as int),
        written_pieces(v, v.start_pos, data, pieces).front(data.len() as int) == data,
{
    let w = written_pieces(v, v.start_pos, data, pieces);
    lemma_pieces_keep_cursor(v, v.start_pos, data, pieces);
    assert forall|k: int| 0 <= k < data.len() implies w.received.dom().contains(
        #[trigger] w.start_pos.advanced(k),
    ) && w.received[w.start_pos.advanced(k)] == data[k] by {
        lemma_pieces_reassemble(v, v.start_pos, data, pieces, k);
    }
    assert(w.front(data.len() as int) =~= data);
}

/// Writing moves neither the read cursor nor the capacity.
pub proof fn lemma_pieces_keep_cursor(
    v: RecvBufferView,
    origin: Seq32,
    data: Seq<u8>,
    pieces: Seq<(int, int)>,
)
    ensures
        written_pieces(v, origin, data, pieces).start_pos == v.start_pos,
        written_pieces(v, origin, data, pieces).max_blocks == v.max_blocks,
    decreases pieces.len(),
{
    if pieces.len() > 0 {
        lemma_pieces_keep_cursor(v, origin, data, pieces.drop_last());
    }
}

/// A write that brings only bytes that are there already would change
/// nothing if it were taken.
pub proof fn lemma_same_bytes_change_nothing(v: RecvBufferView, pos: Seq32, data: Seq<u8>)
    requires
        v.valid(),
        forall|k: int|
            0 <= k < data.len() ==> v.received.dom().contains(#[trigger] pos.advanced(k))
                && v.received[pos.advanced(k)] == data[k],
    ensures
        data.len() > 0 ==> v.written(pos, data) == v,
{
    if data.len() > 0 {
        lemma_advanced_inverse(pos, pos, 0);
        lemma_offset_bounds(v.start_pos, pos);
        assert(v.received.dom().contains(pos.advanced(0)));
        let room = HALF - pos.offset_from(v.start_pos);
        if data.len() > room {
            // the data would reach a position that lies beyond every window
            lemma_advanced_offset(v.start_pos, pos, room);
            assert(v.received.dom().contains(pos.advanced(room)));
        }
        let last = data.len() - 1;
        lemma_advanced_offset(v.start_pos, pos, last);
        assert(v.received.dom().contains(pos.advanced(last)));
        assert(v.address(pos) + data.len() <= v.blocks * RBUF_BLOCK_SIZE);
        assert forall|p: Seq32| (#[trigger] p.offset_from(pos)) < data.len() implies v.received.dom(
        ).contains(p) && v.received[p] == data[p.offset_from(pos)] by {
            lemma_offset_bounds(pos, p);
            lemma_advanced_inverse(pos, p, 0);
            assert(v.received.dom().contains(pos.advanced(p.offset_from(pos))));
        }
        assert(v.written(pos, data).received =~= v.received);
    }
}

/// Consuming `m` of `n` readable bytes leaves the rest readable, in the
/// same order.
pub proof fn lemma_consume_then_read(v: RecvBufferView, m: int, n: int)
    requires
        0 <= m <= n < SPACE,
        v.holds(n),
    ensures
        v.consumed(m).holds(n - m),
        v.consumed(m).front(n - m) == v.front(n).subrange(m, n),
{
    let w = v.consumed(m);
    assert forall|k: int| 0 <= k < n - m implies w.received.dom().contains(
        #[trigger] w.start_pos.advanced(k),
    ) && w.received[w.start_pos.advanced(k)] == v.received[v.start_pos.advanced(m + k)] by {
        lemma_advanced_sum(v.start_pos, m, k);
        lemma_advanced_inverse(v.start_pos, v.start_pos, m + k);
        assert(v.received.dom().contains(v.start_pos.advanced(m + k)));
    }
    assert(w.front(n - m) =~= v.front(n).subrange(m, n));
}

/// Once a write has been taken, another one for the same positions is
/// turned down as a duplicate, whatever bytes it brings, and the bytes of
/// the first one stay.
pub proof fn lemma_rewrite_rejected(v: RecvBufferView, pos: Seq32, data: Seq<u8>, other: Seq<u8>)
    requires
        v.valid(),
        v.write_outcome(pos, data) is Ok,
        other.len() == data.len(),
    ensures
        v.written(pos, data).write_outcome(pos, other) == Err::<(), &'static str>(
            "duplicated-data",
        ),
        forall|k: int|
            0 <= k < data.len() ==> v.written(pos, data).received[#[trigger] pos.advanced(k)]
                == data[k],
{
    let w = v.written(pos, data);
    assert forall|k: int| 0 <= k < data.len() implies w.received.dom().contains(
        #[trigger] pos.advanced(k),
    ) && w.received[pos.advanced(k)] == data[k] by {
        lemma_written_bytes(v, pos, data, k);
    }
}

} // verus!
