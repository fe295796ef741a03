//! The receive buffer: bytes arrive in any order, each with its sequence
//! position, and leave in stream order from the read cursor on.

use crate::range_model::{
    coverage, covered, endpoints_kept, fits, in_range, lemma_ranges_apart,
    lemma_remove_keeps_order, ordered_from, span,
};
use crate::range_set::RangeSet;
use crate::recv_model::{
    lemma_block_offset, lemma_consumed, lemma_span_covered, lemma_span_steps, RecvBufferView,
    RBUF_BLOCK_BIT, RBUF_BLOCK_MASK, RBUF_BLOCK_SIZE, RBUF_MAX_CAPACITY,
};
use crate::seq32::{
    lemma_advance_in_window, lemma_advanced_inverse, lemma_advanced_sum, lemma_offset_bounds,
    lemma_offset_rebase, lemma_window_order, Seq32, HALF,
};
use crate::store::{
    bytes_as_slice, bytes_contents, bytes_mut_as_mut_slice, bytes_mut_as_slice,
    bytes_mut_contents, copy_from_slice, deque_index_mut,
};
use bytes::{Bytes, BytesMut};
use std::collections::VecDeque;
use vstd::prelude::*;
use vstd::slice::slice_subrange;

verus! {

/// The block that holds address `addr`.
fn block_index(addr: u32) -> (r: u32)
    ensures
        r == addr / RBUF_BLOCK_SIZE,
{
    assert(addr >> 17u32 == addr / 0x2_0000u32) by (bit_vector);
    addr >> RBUF_BLOCK_BIT
}

/// The offset of address `addr` within its block.
fn block_offset(addr: u32) -> (r: u32)
    ensures
        r == addr % RBUF_BLOCK_SIZE,
{
    assert(addr & 0x1_ffffu32 == addr % 0x2_0000u32) by (bit_vector);
    addr & RBUF_BLOCK_MASK
}

/// Every block holds exactly one block's worth of bytes.
pub open spec fn full_blocks(blocks: Seq<BytesMut>) -> bool {
    forall|k: int|
        0 <= k < blocks.len() ==> bytes_mut_contents(#[trigger] blocks[k]).len()
            == RBUF_BLOCK_SIZE
}

/// The byte at address `addr`, counted from the start of the first block.
pub open spec fn byte_at(blocks: Seq<BytesMut>, addr: int) -> u8 {
    bytes_mut_contents(blocks[addr / (RBUF_BLOCK_SIZE as int)])[addr % (RBUF_BLOCK_SIZE as int)]
}

/// Appends zero-filled blocks until there are at least `required`.
fn grow(blocks: &mut VecDeque<BytesMut>, required: usize)
    requires
        full_blocks(old(blocks)@),
    ensures
        full_blocks(final(blocks)@),
        final(blocks)@.len() == if required > old(blocks)@.len() {
            required as nat
        } else {
            old(blocks)@.len()
        },
        final(blocks)@.subrange(0, old(blocks)@.len() as int) == old(blocks)@,
{
    while blocks.len() < required
        invariant
            full_blocks(blocks@),
            old(blocks)@.len() <= blocks@.len(),
            blocks@.len() <= required || blocks@.len() == old(blocks)@.len(),
            blocks@.subrange(0, old(blocks)@.len() as int) == old(blocks)@,
        decreases required - blocks@.len(),
    {
        let ghost before = blocks@;
        blocks.push_back(BytesMut::zeroed(RBUF_BLOCK_SIZE as usize));
        assert(blocks@.subrange(0, old(blocks)@.len() as int) == before.subrange(
            0,
            old(blocks)@.len() as int,
        ));
        assert forall|k: int| 0 <= k < blocks@.len() implies bytes_mut_contents(
            #[trigger] blocks@[k],
        ).len() == RBUF_BLOCK_SIZE by {
            if k < before.len() {
                assert(blocks@[k] == before[k]);
            }
        }
    }
}

/// Copies `src` into the blocks from address `addr` on, across block
/// boundaries where it has to.
fn store(blocks: &mut VecDeque<BytesMut>, addr: u32, src: &[u8])
    requires
        full_blocks(old(blocks)@),
        addr + src@.len() <= old(blocks)@.len() * RBUF_BLOCK_SIZE,
        addr + src@.len() <= u32::MAX,
    ensures
        full_blocks(final(blocks)@),
        final(blocks)@.len() == old(blocks)@.len(),
        forall|a: int|
            0 <= a < old(blocks)@.len() * RBUF_BLOCK_SIZE ==> #[trigger] byte_at(final(blocks)@, a)
                == if addr <= a < addr + src@.len() {
                src@[a - addr]
            } else {
                byte_at(old(blocks)@, a)
            },
{
    let mut remain: usize = src.len();
    let mut cur: u32 = addr;
    let mut data_offset: usize = 0;
    while remain > 0
        invariant
            full_blocks(blocks@),
            blocks@.len() == old(blocks)@.len(),
            remain + data_offset == src@.len(),
            cur == addr + data_offset,
            addr + src@.len() <= old(blocks)@.len() * RBUF_BLOCK_SIZE,
            addr + src@.len() <= u32::MAX,
            forall|a: int|
                0 <= a < old(blocks)@.len() * RBUF_BLOCK_SIZE ==> #[trigger] byte_at(blocks@, a)
                    == if addr <= a < addr + data_offset {
                    src@[a - addr]
                } else {
                    byte_at(old(blocks)@, a)
                },
        decreases remain,
    {
        let blk_id = block_index(cur) as usize;
        let blk_offset = block_offset(cur) as usize;
        let room = RBUF_BLOCK_SIZE as usize - blk_offset;
        let copy_len = if remain < room {
            remain
        } else {
            room
        };
        let ghost before = blocks@;
        let part = slice_subrange(src, data_offset, data_offset + copy_len);
        let block = deque_index_mut(blocks, blk_id);
        let bytes = bytes_mut_as_mut_slice(block);
        let (_, rest) = bytes.split_at_mut(blk_offset);
        let (dst, _) = rest.split_at_mut(copy_len);
        copy_from_slice(dst, part);
        proof {
            let was = bytes_mut_contents(before[blk_id as int]);
            let now = bytes_mut_contents(blocks@[blk_id as int]);
            assert(now == was.subrange(0, blk_offset as int) + (part@ + was.subrange(
                blk_offset as int,
                was.len() as int,
            ).subrange(copy_len as int, was.len() - blk_offset)));
            assert(now.len() == RBUF_BLOCK_SIZE);
            assert forall|k: int| 0 <= k < blocks@.len() implies bytes_mut_contents(
                #[trigger] blocks@[k],
            ).len() == RBUF_BLOCK_SIZE by {
                if k != blk_id {
                    assert(blocks@[k] == before[k]);
                }
            }
            assert forall|a: int|
                0 <= a < old(blocks)@.len() * RBUF_BLOCK_SIZE implies #[trigger] byte_at(
                blocks@,
                a,
            ) == if addr <= a < addr + data_offset + copy_len {
                src@[a - addr]
            } else {
                byte_at(old(blocks)@, a)
            } by {
                let b = a / (RBUF_BLOCK_SIZE as int);
                let o = a % (RBUF_BLOCK_SIZE as int);
                if b != blk_id {
                    assert(blocks@[b] == before[b]);
                    assert(byte_at(blocks@, a) == byte_at(before, a));
                } else if o < blk_offset {
                    assert(now[o] == was[o]);
                    assert(byte_at(blocks@, a) == byte_at(before, a));
                } else if o < blk_offset + copy_len {
                    assert(now[o] == part@[o - blk_offset]);
                    assert(a - addr == data_offset + (o - blk_offset));
                } else {
                    assert(now[o] == was[o]);
                    assert(byte_at(blocks@, a) == byte_at(before, a));
                }
            }
        }
        data_offset = data_offset + copy_len;
        remain = remain - copy_len;
        cur = cur + copy_len as u32;
    }
}

/// A reassembly buffer for incoming bytes. It takes writes at any position
/// within its window and hands out, in order, the bytes that follow the
/// read cursor without a gap.
pub struct RecvBuffer {
    start_pos: Seq32,
    max_blocks: u32,
    range_set: RangeSet,
    blocks: VecDeque<BytesMut>,
}

impl View for RecvBuffer {
    type V = RecvBufferView;

    closed spec fn view(&self) -> RecvBufferView {
        RecvBufferView {
            start_pos: self.start_pos,
            max_blocks: self.max_blocks as nat,
            blocks: self.blocks@.len(),
            received: Map::new(
                |p: Seq32| covered(self.range_set@, p),
                |p: Seq32|
                    byte_at(
                        self.blocks@,
                        (self.start_pos.0 % RBUF_BLOCK_SIZE) + p.offset_from(self.start_pos),
                    ),
            ),
        }
    }
}

impl RecvBuffer {
    /// The buffer is consistent: the ranges received lie ahead of the read
    /// cursor in order, the blocks are whole, no more than the capacity
    /// allows, and reach as far as the last range.
    pub closed spec fn wf(&self) -> bool {
        &&& self.range_set.wf()
        &&& self.max_blocks * RBUF_BLOCK_SIZE <= RBUF_MAX_CAPACITY
        &&& self.max_blocks == 0 ==> self@.offset() == 0
        &&& self.blocks@.len() <= self.max_blocks
        &&& full_blocks(self.blocks@)
        &&& ordered_from(self.range_set@, self.start_pos)
        &&& forall|i: int|
            0 <= i < self.range_set@.len() ==> self@.address((#[trigger] self.range_set@[i]).1)
                <= self.blocks@.len() * RBUF_BLOCK_SIZE
    }

    /// A received position lies within the window and within the blocks.
    proof fn lemma_stored(&self, p: Seq32)
        requires
            self.wf(),
            covered(self.range_set@, p),
        ensures
            0 <= p.offset_from(self.start_pos) < self@.window(),
            self@.offset() <= self@.address(p) < self.blocks@.len() * RBUF_BLOCK_SIZE,
    {
        let i = choose|i: int|
            0 <= i < self.range_set@.len() && in_range(
                self.range_set@[i].0,
                self.range_set@[i].1,
                p,
            );
        lemma_ranges_apart(self.range_set@, self.start_pos, i, i, p);
        lemma_offset_bounds(self.start_pos, p);
        assert(self@.address(self.range_set@[i].1) <= self.blocks@.len() * RBUF_BLOCK_SIZE);
        assert(self.blocks@.len() * RBUF_BLOCK_SIZE <= self.max_blocks * RBUF_BLOCK_SIZE)
            by (nonlinear_arith)
            requires
                self.blocks@.len() <= self.max_blocks,
        ;
    }

    /// A consistent buffer stands for a consistent state.
    pub proof fn lemma_view_valid(&self)
        requires
            self.wf(),
        ensures
            self@.valid(),
    {
        assert forall|p: Seq32| self@.received.dom().contains(p) implies 0
            <= #[trigger] p.offset_from(self.start_pos) && self@.address(p) < self@.blocks
            * RBUF_BLOCK_SIZE by {
            self.lemma_stored(p);
        }
    }

    /// What the first range says of the bytes at the read cursor: if it
    /// starts there, the bytes up to its end are received and the one at
    /// its end is not; if not, the byte at the cursor is not.
    proof fn lemma_head(&self)
        requires
            self.wf(),
        ensures
            self.range_set@.len() > 0 && self.range_set@[0].0 == self.start_pos ==> {
                let n = self.range_set@[0].1.offset_from(self.start_pos);
                &&& 0 < n <= self@.window()
                &&& self@.offset() + n <= self.blocks@.len() * RBUF_BLOCK_SIZE
                &&& self@.holds(n)
                &&& !self@.received.dom().contains(self.start_pos.advanced(n))
            },
            !(self.range_set@.len() > 0 && self.range_set@[0].0 == self.start_pos)
                ==> !self@.received.dom().contains(self.start_pos),
            self.start_pos.advanced(0) == self.start_pos,
    {
        let ranges = self.range_set@;
        let start = self.start_pos;
        lemma_offset_bounds(start, start);
        lemma_advanced_inverse(start, start, 0);
        if ranges.len() > 0 && ranges[0].0 == start {
            let end = ranges[0].1;
            let n = end.offset_from(start);
            assert(ranges[0].0.offset_from(start) < ranges[0].1.offset_from(start) < HALF);
            assert(self@.address(ranges[0].1) <= self.blocks@.len() * RBUF_BLOCK_SIZE);
            assert(self.blocks@.len() * RBUF_BLOCK_SIZE <= self.max_blocks * RBUF_BLOCK_SIZE)
                by (nonlinear_arith)
                requires
                    self.blocks@.len() <= self.max_blocks,
            ;
            assert forall|k: int| 0 <= k < n implies self@.received.dom().contains(
                #[trigger] start.advanced(k),
            ) by {
                lemma_advanced_inverse(start, start, k);
                assert(in_range(ranges[0].0, ranges[0].1, start.advanced(k)));
            }
            lemma_advanced_inverse(start, end, 0);
            if covered(ranges, end) {
                let i = choose|i: int|
                    0 <= i < ranges.len() && in_range(
                        ranges[i].0,
                        ranges[i].1,
                        end,
                    );
                lemma_ranges_apart(ranges, start, 0, i, end);
            }
        } else {
            if covered(ranges, start) {
                let i = choose|i: int|
                    0 <= i < ranges.len() && in_range(
                        ranges[i].0,
                        ranges[i].1,
                        start,
                    );
                lemma_ranges_apart(ranges, start, 0, i, start);
                lemma_offset_bounds(start, ranges[i].0);
                lemma_offset_bounds(start, ranges[0].0);
                assert(ranges[0].0.offset_from(start) < ranges[0].1.offset_from(start));
                if 0 < i {
                    assert(ranges[0].1.offset_from(start) < ranges[i].0.offset_from(start));
                }
            }
        }
    }

    /// An empty buffer for `size` bytes, rounded up to whole blocks, with
    /// the read cursor at position 0. No block is allocated yet.
    pub fn with_capacity(size: u32) -> (r: RecvBuffer)
        requires
            size <= RBUF_MAX_CAPACITY,
        ensures
            r.wf(),
            r@.start_pos == Seq32(0),
            r@.max_blocks == (size + RBUF_BLOCK_SIZE - 1) / (RBUF_BLOCK_SIZE as int),
            r@.blocks == 0,
            r@.received == Map::<Seq32, u8>::empty(),
    {
        let rest = block_offset(size);
        let r = RecvBuffer {
            start_pos: Seq32::from(0),
            max_blocks: size / RBUF_BLOCK_SIZE + if rest != 0 {
                1
            } else {
                0
            },
            range_set: RangeSet::new(),
            blocks: VecDeque::new(),
        };
        assert(r@.received =~= Map::<Seq32, u8>::empty());
        r
    }

    /// The number of bytes that can be read: those received from the read
    /// cursor on without a gap.
    pub fn readable_size(&self) -> (r: usize)
        requires
            self.wf(),
        ensures
            self@.holds(r as int),
            !self@.received.dom().contains(self@.start_pos.advanced(r as int)),
            r <= self@.window(),
    {
        proof {
            self.lemma_head();
        }
        let mut ranges = self.range_set.iter();
        match ranges.next() {
            Some(first) => {
                if *first.0 == self.start_pos {
                    first.1.distance_from(*first.0) as usize
                } else {
                    0
                }
            },
            None => { 0 },
        }
    }

    /// The readable bytes that lie in the read cursor's block, as far as
    /// there are any.
    pub fn peek(&self) -> (r: Option<&[u8]>)
        requires
            self.wf(),
        ensures
            match r {
                Some(bytes) => {
                    &&& 0 < bytes@.len() <= RBUF_BLOCK_SIZE - self@.start_pos.0 % RBUF_BLOCK_SIZE
                    &&& self@.holds(bytes@.len() as int)
                    &&& bytes@.len() == RBUF_BLOCK_SIZE - self@.start_pos.0 % RBUF_BLOCK_SIZE
                        || !self@.received.dom().contains(
                        self@.start_pos.advanced(bytes@.len() as int),
                    )
                    &&& bytes@ == self@.front(bytes@.len() as int)
                },
                None => !self@.received.dom().contains(self@.start_pos),
            },
    {
        let readable = self.readable_size();
        if readable > 0 {
            let blk_offset = block_offset(self.start_pos.0) as usize;
            let room = RBUF_BLOCK_SIZE as usize - blk_offset;
            let peek_size = if readable < room {
                readable
            } else {
                room
            };
            proof {
                self.lemma_head();
                assert(self@.received.dom().contains(self.start_pos.advanced(0)));
                self.lemma_stored(self.start_pos);
            }
            let bytes = slice_subrange(
                bytes_mut_as_slice(&self.blocks[0]),
                blk_offset,
                blk_offset + peek_size,
            );
            proof {
                assert forall|k: int| 0 <= k < bytes@.len() implies bytes@[k]
                    == self@.received[self@.start_pos.advanced(k)] by {
                    let p = self.start_pos.advanced(k);
                    assert(self@.received.dom().contains(p));
                    lemma_advanced_inverse(self.start_pos, self.start_pos, k);
                    assert(self@.address(p) == blk_offset + k);
                }
                assert(bytes@ =~= self@.front(bytes@.len() as int));
            }
            Some(bytes)
        } else {
            proof {
                self.lemma_head();
            }
            None
        }
    }

    /// Moves the read cursor on by `len` bytes that the blocks hold, and
    /// drops each block that the cursor leaves.
    fn advance(&mut self, len: usize)
        requires
            len < HALF,
            old(self)@.offset() + len <= old(self).blocks@.len() * RBUF_BLOCK_SIZE,
        ensures
            final(self).start_pos == old(self).start_pos.advanced(len as int),
            final(self)@.offset() == (old(self)@.offset() + len) % (RBUF_BLOCK_SIZE as int),
            final(self).blocks@ == old(self).blocks@.subrange(
                (old(self)@.offset() + len) / (RBUF_BLOCK_SIZE as int),
                old(self).blocks@.len() as int,
            ),
            final(self).max_blocks == old(self).max_blocks,
            final(self).range_set == old(self).range_set,
    {
        let ghost start = self.start_pos;
        let ghost offset = self@.offset();
        let ghost blocks = self.blocks@;
        let mut remain: usize = len;
        proof {
            lemma_advanced_inverse(start, start, 0);
            assert(self.blocks@ == blocks.subrange(0, blocks.len() as int));
        }
        while remain > 0
            invariant
                0 <= remain <= len,
                offset == start.0 % RBUF_BLOCK_SIZE,
                offset + len <= blocks.len() * RBUF_BLOCK_SIZE,
                len < HALF,
                self.start_pos == start.advanced(len - remain),
                self@.offset() == (offset + len - remain) % (RBUF_BLOCK_SIZE as int),
                (offset + len - remain) / (RBUF_BLOCK_SIZE as int) <= blocks.len(),
                self.blocks@ == blocks.subrange(
                    (offset + len - remain) / (RBUF_BLOCK_SIZE as int),
                    blocks.len() as int,
                ),
                self.max_blocks == old(self).max_blocks,
                self.range_set == old(self).range_set,
            decreases remain,
        {
            let block_size = (RBUF_BLOCK_SIZE - block_offset(self.start_pos.0)) as usize;
            let ghost done = len - remain;
            if remain >= block_size {
                proof {
                    lemma_advanced_sum(start, done, block_size as int);
                    lemma_block_offset(start, done + block_size);
                }
                self.start_pos = self.start_pos + block_size as u32;
                remain = remain - block_size;
                self.blocks.pop_front();
                assert(self.blocks@ == blocks.subrange(
                    (offset + len - remain) / (RBUF_BLOCK_SIZE as int),
                    blocks.len() as int,
                ));
            } else {
                proof {
                    lemma_advanced_sum(start, done, remain as int);
                    lemma_block_offset(start, done + remain);
                }
                self.start_pos = self.start_pos + remain as u32;
                remain = 0;
            }
        }
    }

    /// The bytes that `after` holds are those of `before` less the `len`
    /// positions consumed, given what `consume` did to ranges and blocks.
    proof fn lemma_consume_view(before: &RecvBuffer, after: &RecvBuffer, len: int)
        requires
            before.wf(),
            0 < len < HALF,
            after.start_pos == before.start_pos.advanced(len),
            after.max_blocks == before.max_blocks,
            after@.offset() == (before@.offset() + len) % (RBUF_BLOCK_SIZE as int),
            before@.offset() + len <= before.blocks@.len() * RBUF_BLOCK_SIZE,
            after.blocks@ == before.blocks@.subrange(
                (before@.offset() + len) / (RBUF_BLOCK_SIZE as int),
                before.blocks@.len() as int,
            ),
            after.range_set.wf(),
            ordered_from(after.range_set@, after.start_pos),
            forall|p: Seq32|
                covered(after.range_set@, p) <==> covered(before.range_set@, p) && !(
                p.offset_from(before.start_pos) < len),
            forall|p: Seq32|
                covered(after.range_set@, p) ==> p.offset_from(after.start_pos) == p.offset_from(
                    before.start_pos,
                ) - len,
            forall|i: int|
                0 <= i < after.range_set@.len() ==> exists|j: int|
                    0 <= j < before.range_set@.len() && (#[trigger] before.range_set@[j]).1 == (
                    #[trigger] after.range_set@[i]).1,
        ensures
            after.wf(),
            after@ == before@.consumed(len),
    {
        let dropped = (before@.offset() + len) / (RBUF_BLOCK_SIZE as int);
        let size = RBUF_BLOCK_SIZE as int;
        assert(after@.offset() == before@.offset() + len - dropped * size);
        assert forall|k: int| 0 <= k < after.blocks@.len() implies bytes_mut_contents(
            #[trigger] after.blocks@[k],
        ).len() == RBUF_BLOCK_SIZE by {
            assert(after.blocks@[k] == before.blocks@[k + dropped]);
        }
        assert forall|i: int| 0 <= i < after.range_set@.len() implies after@.address(
            (#[trigger] after.range_set@[i]).1,
        ) <= after.blocks@.len() * RBUF_BLOCK_SIZE by {
            let end = after.range_set@[i].1;
            let j = choose|j: int|
                0 <= j < before.range_set@.len() && (#[trigger] before.range_set@[j]).1 == end;
            assert(before@.address(before.range_set@[j].1) <= before.blocks@.len()
                * RBUF_BLOCK_SIZE);
            assert(after.range_set@[i].0.offset_from(after.start_pos)
                < after.range_set@[i].1.offset_from(after.start_pos));
            lemma_offset_bounds(after.start_pos, after.range_set@[i].0);
            lemma_offset_rebase(before.start_pos, after.start_pos, end);
            lemma_advanced_inverse(before.start_pos, before.start_pos, len);
            lemma_offset_bounds(before.start_pos, end);
        }
        assert forall|p: Seq32| covered(after.range_set@, p) implies byte_at(
            after.blocks@,
            after@.address(p),
        ) == byte_at(before.blocks@, before@.address(p)) by {
            before.lemma_stored(p);
            let a = before@.address(p);
            assert(after@.address(p) == a - dropped * size);
            assert((a - dropped * size) / size == a / size - dropped);
            assert((a - dropped * size) % size == a % size);
            assert(after.blocks@[a / size - dropped] == before.blocks@[a / size]);
        }
        assert(after@.received =~= before@.consumed(len).received);
    }

    /// Takes the first `len` bytes of the first range, which starts at the
    /// read cursor, out of the buffer.
    fn retire(&mut self, len: usize)
        requires
            old(self).wf(),
            old(self).range_set@.len() > 0,
            old(self).range_set@[0].0 == old(self).start_pos,
            0 < len <= old(self).range_set@[0].1.offset_from(old(self).start_pos),
        ensures
            final(self).wf(),
            final(self)@ == old(self)@.consumed(len as int),
    {
        let ghost start = self.start_pos;
        let ghost blocks = self.blocks@;
        let ghost before = self.range_set@;
        let mut ranges = self.range_set.iter();
        let first = ranges.next().unwrap();
        let (orig_pos, orig_end) = (*first.0, *first.1);
        proof {
            assert(before[0].0.offset_from(start) < before[0].1.offset_from(start) < HALF);
            assert(self@.address(before[0].1) <= blocks.len() * RBUF_BLOCK_SIZE);
        }
        self.advance(len);
        let removed = self.range_set.remove(&orig_pos);
        proof {
            let i = choose|i: int|
                0 <= i < before.len() && before[i] == (orig_pos, removed.unwrap())
                    && self.range_set@ == before.remove(i);
            lemma_offset_bounds(start, start);
            if i > 0 {
                assert(before[0].1.offset_from(start) < before[i].0.offset_from(start));
            }
            lemma_remove_keeps_order(before, start, 0);
            lemma_advanced_inverse(start, start, len as int);
            lemma_window_order(start, self.start_pos, orig_end);
        }
        let ghost rest = self.range_set@;
        if self.start_pos != orig_end {
            assert(fits(rest, start, self.start_pos, orig_end));
            self.range_set.insert(self.start_pos, orig_end);
        }
        proof {
            lemma_consumed(start, len as int, before, self.range_set@);
            Self::lemma_consume_view(old(self), self, len as int);
        }
    }

    /// Takes `len` bytes off the front: moves the read cursor on and frees
    /// the blocks that it leaves behind. Asking for more than can be read
    /// changes nothing.
    pub fn consume(&mut self, len: usize) -> (r: Result<(), &'static str>)
        requires
            old(self).wf(),
        ensures
            final(self).wf(),
            r == if old(self)@.holds(len as int) {
                Ok::<(), &'static str>(())
            } else {
                Err::<(), &'static str>("no-enough-data")
            },
            final(self)@ == if r is Ok {
                old(self)@.consumed(len as int)
            } else {
                old(self)@
            },
    {
        if len == 0 {
            proof {
                self.lemma_head();
                assert forall|p: Seq32| 0 <= #[trigger] p.offset_from(self.start_pos) by {
                    lemma_offset_bounds(self.start_pos, p);
                }
                assert(self@.consumed(0).received =~= self@.received);
            }
            return Ok(());
        }
        let readable = self.readable_size();
        if readable < len {
            assert(!self@.received.dom().contains(self@.start_pos.advanced(readable as int)));
            return Err("no-enough-data");
        }
        proof {
            self.lemma_head();
            assert(self@.received.dom().contains(self.start_pos.advanced(0)));
            let n = self.range_set@[0].1.offset_from(self.start_pos);
            if n < len {
                assert(self@.received.dom().contains(self.start_pos.advanced(n)));
            }
        }
        self.retire(len);
        Ok(())
    }

    /// The bytes that `after` holds are those of `before` with `data`
    /// written at `pos`, given what `write` did to ranges and blocks:
    /// `grown` are the blocks once enough were allocated, before the copy.
    proof fn lemma_write_view(
        before: &RecvBuffer,
        after: &RecvBuffer,
        grown: Seq<BytesMut>,
        pos: Seq32,
        data: Seq<u8>,
    )
        requires
            before.wf(),
            after.start_pos == before.start_pos,
            after.max_blocks == before.max_blocks,
            0 < data.len(),
            pos.offset_from(before.start_pos) + data.len() <= before@.window(),
            after.range_set.wf(),
            ordered_from(after.range_set@, after.start_pos),
            coverage(after.range_set@) == coverage(before.range_set@).union(
                span(pos, pos.advanced(data.len() as int)),
            ),
            endpoints_kept(
                before.range_set@,
                pos,
                pos.advanced(data.len() as int),
                after.range_set@,
            ),
            full_blocks(after.blocks@),
            before.blocks@.len() <= grown.len() == after.blocks@.len() <= before.max_blocks,
            grown.len() == before@.written(pos, data).blocks,
            grown.subrange(0, before.blocks@.len() as int) == before.blocks@,
            before@.address(pos) + data.len() <= grown.len() * RBUF_BLOCK_SIZE,
            forall|a: int|
                0 <= a < grown.len() * RBUF_BLOCK_SIZE ==> #[trigger] byte_at(after.blocks@, a)
                    == if before@.address(pos) <= a < before@.address(pos) + data.len() {
                    data[a - before@.address(pos)]
                } else {
                    byte_at(grown, a)
                },
        ensures
            after.wf(),
            after@ == before@.written(pos, data),
    {
        let start = before.start_pos;
        let len = data.len() as int;
        let end = pos.advanced(len);
        let addr = before@.address(pos);
        let size = RBUF_BLOCK_SIZE as int;
        lemma_offset_bounds(start, pos);
        lemma_advance_in_window(start, pos, len);
        assert(before.blocks@.len() * RBUF_BLOCK_SIZE <= before.max_blocks * RBUF_BLOCK_SIZE)
            by (nonlinear_arith)
            requires
                before.blocks@.len() <= before.max_blocks,
        ;
        assert forall|i: int| 0 <= i < after.range_set@.len() implies after@.address(
            (#[trigger] after.range_set@[i]).1,
        ) <= after.blocks@.len() * RBUF_BLOCK_SIZE by {
            let e = after.range_set@[i].1;
            if e != end {
                let j = choose|j: int|
                    0 <= j < before.range_set@.len() && (#[trigger] before.range_set@[j]).1 == e;
                assert(before@.address(before.range_set@[j].1) <= before.blocks@.len()
                    * RBUF_BLOCK_SIZE);
                assert(before.blocks@.len() * size <= grown.len() * size) by (nonlinear_arith)
                    requires
                        before.blocks@.len() <= grown.len(),
                        size > 0,
                ;
            }
        }
        assert forall|p: Seq32|
            covered(after.range_set@, p) == (covered(before.range_set@, p) || p.offset_from(pos)
                < len) by {
            lemma_span_steps(pos, len, p);
            assert(coverage(after.range_set@).contains(p) == (coverage(
                before.range_set@,
            ).contains(p) || span(pos, end).contains(p)));
        }
        assert forall|p: Seq32| covered(after.range_set@, p) implies byte_at(
            after.blocks@,
            after@.address(p),
        ) == if p.offset_from(pos) < len {
            data[p.offset_from(pos)]
        } else {
            byte_at(before.blocks@, before@.address(p))
        } by {
            lemma_offset_bounds(pos, p);
            lemma_offset_bounds(start, p);
            lemma_offset_rebase(start, pos, p);
            if p.offset_from(pos) < len {
                assert(after@.address(p) == addr + p.offset_from(pos));
            } else {
                before.lemma_stored(p);
                let a = before@.address(p);
                assert(a < before.blocks@.len() * size);
                assert(a / size < before.blocks@.len());
                assert(grown[a / size] == grown.subrange(0, before.blocks@.len() as int)[a / size]);
                assert(byte_at(grown, a) == byte_at(before.blocks@, a));
                assert(before.blocks@.len() * size <= grown.len() * size) by (nonlinear_arith)
                    requires
                        before.blocks@.len() <= grown.len(),
                        size > 0,
                ;
            }
        }
        assert(after@.received =~= before@.written(pos, data).received);
    }

    /// Takes in `data` at position `pos`. The write has to lie within the
    /// window ahead of the read cursor and to bring at least one byte that
    /// was not there; where it overlaps bytes received before, the new
    /// bytes replace them. A write that is turned down changes nothing.
    pub fn write(&mut self, pos: Seq32, data: &Bytes) -> (r: Result<(), &'static str>)
        requires
            old(self).wf(),
        ensures
            final(self).wf(),
            r == old(self)@.write_outcome(pos, bytes_contents(*data)),
            final(self)@ == if r is Ok {
                old(self)@.written(pos, bytes_contents(*data))
            } else {
                old(self)@
            },
    {
        let len = data.len();
        let offset = block_offset(self.start_pos.0);
        let max_size = RBUF_BLOCK_SIZE * self.max_blocks - offset;
        if len > max_size as usize {
            return Err("size-limit-exceed");
        }
        let end = pos + len as u32;
        let pos_offset = pos.distance_from(self.start_pos);
        if pos_offset > max_size || end.distance_from(self.start_pos) > max_size {
            return Err("out-of-range");
        }
        proof {
            lemma_advance_in_window(self.start_pos, pos, len as int);
            assert(fits(self.range_set@, self.start_pos, pos, end));
            lemma_span_covered(self.range_set@, pos, len as int);
        }
        if !self.range_set.insert(pos, end) {
            assert(self@.received =~= old(self)@.received);
            return Err("duplicated-data");
        }
        let addr = offset + pos_offset;
        let end_addr = addr + len as u32;
        let required_blocks = block_index(end_addr) + if block_offset(end_addr) == 0 {
            0
        } else {
            1
        };
        grow(&mut self.blocks, required_blocks as usize);
        let ghost grown = self.blocks@;
        store(&mut self.blocks, addr, bytes_as_slice(data));
        proof {
            assert(end_addr <= required_blocks * RBUF_BLOCK_SIZE);
            assert(grown.len() * RBUF_BLOCK_SIZE >= required_blocks * RBUF_BLOCK_SIZE)
                by (nonlinear_arith)
                requires
                    grown.len() >= required_blocks,
            ;
            Self::lemma_write_view(old(self), self, grown, pos, bytes_contents(*data));
        }
        Ok(())
    }
}

} // verus!
