use bytes::{BufMut, Bytes, BytesMut};
use rand::Rng;
use stream_buffer::recv_buffer::RecvBuffer;
use stream_buffer::seq32::Seq32;

#[test]
fn recv_buffer_basic_test() {
    let mut rbuf = RecvBuffer::with_capacity(13107200);

    assert_eq!(rbuf.write(Seq32::from(10), &Bytes::from("hello world")), Ok(()));
    assert_eq!(rbuf.readable_size(), 0);

    assert_eq!(rbuf.write(Seq32::from(524388), &Bytes::from("test~test~")), Ok(()));
    assert_eq!(rbuf.write(Seq32::from(200), &Bytes::from("test word1")), Ok(()));
    assert_eq!(rbuf.write(Seq32::from(0), &Bytes::from("test word2")), Ok(()));
    assert_eq!(rbuf.readable_size(), 21);

    let s = Bytes::from("test word2hello world");
    for i in 0..20 {
        assert_eq!(rbuf.peek(), Some(&s[i..]));
        assert_eq!(rbuf.consume(1), Ok(()));
    }

    assert_eq!(rbuf.write(Seq32::from(21), &Bytes::from("append new")), Ok(()));
    assert_eq!(rbuf.write(Seq32::from(10), &Bytes::from("error")), Err("out-of-range"));
    assert_eq!(rbuf.write(Seq32::from(21), &Bytes::from("duplicate")), Err("duplicated-data"));
    assert_eq!(rbuf.write(Seq32::from(22), &Bytes::from("duplicate")), Err("duplicated-data"));

    let s = Bytes::from("dappend new");
    for i in 0..11 {
        assert_eq!(rbuf.peek(), Some(&s[i..]));
        assert_eq!(rbuf.consume(1), Ok(()));
    }

    assert_eq!(rbuf.consume(1), Err("no-enough-data"));
}

#[test]
fn recv_buffer_5gb_read_write_test() {
    let mut rng = rand::thread_rng();
    let mut random_buf0 = BytesMut::with_capacity(10000);
    let mut random_buf1 = BytesMut::with_capacity(10000);
    for _ in 0..2500 {
        random_buf0.put_u32(rng.gen::<u32>());
        random_buf1.put_u32(rng.gen::<u32>());
    }

    let data = [random_buf0.freeze(), random_buf1.freeze()];
    let mut rbuf = RecvBuffer::with_capacity(13107200);
    let mut test_bytes = 0;
    let mut pos = Seq32::from(0);
    let mut round = 0;
    while test_bytes < 5368709120u64 {
        assert_eq!(rbuf.write(pos, &data[round]), Ok(()));
        assert_eq!(rbuf.readable_size(), data[round].len());

        let mut cmp_offset = 0;
        while rbuf.readable_size() > 0 {
            let left = rbuf.peek().unwrap();
            let len = left.len();
            assert_eq!(left, &data[round][cmp_offset..cmp_offset + len]);
            assert_eq!(rbuf.consume(len), Ok(()));
            cmp_offset += len;
        }

        pos += data[round].len() as u32;
        test_bytes += data[round].len() as u64;
        round ^= 1;
    }
}

#[test]
fn recv_gap_then_fill() {
    let mut rbuf = RecvBuffer::with_capacity(13107200);
    assert_eq!(rbuf.write(Seq32::from(0), &Bytes::from("test word2")), Ok(()));
    assert_eq!(rbuf.readable_size(), 10);
    assert_eq!(rbuf.write(Seq32::from(200), &Bytes::from("test word1")), Ok(()));
    assert_eq!(rbuf.readable_size(), 10);
    assert_eq!(rbuf.write(Seq32::from(10), &Bytes::from("hello world")), Ok(()));
    assert_eq!(rbuf.readable_size(), 21);
    let mut out = Vec::new();
    for _ in 0..21 {
        out.push(rbuf.peek().unwrap()[0]);
        assert_eq!(rbuf.consume(1), Ok(()));
    }
    assert_eq!(&out[..], &b"test word2hello world"[..]);
    assert_eq!(rbuf.readable_size(), 0);
    assert_eq!(rbuf.peek(), None);
}

#[test]
fn recv_empty_buffer_reads_nothing() {
    let mut rbuf = RecvBuffer::with_capacity(1000);
    assert_eq!(rbuf.readable_size(), 0);
    assert_eq!(rbuf.peek(), None);
    assert_eq!(rbuf.consume(0), Ok(()));
    assert_eq!(rbuf.consume(1), Err("no-enough-data"));
}

#[test]
fn recv_capacity_rounds_up_to_blocks() {
    // 1 byte of capacity is one block of 131072 bytes
    let mut rbuf = RecvBuffer::with_capacity(1);
    let block = vec![7u8; 131072];
    assert_eq!(rbuf.write(Seq32::from(0), &Bytes::from(block.clone())), Ok(()));
    assert_eq!(rbuf.readable_size(), 131072);
    let mut more = RecvBuffer::with_capacity(131073);
    let two = vec![9u8; 262144];
    assert_eq!(more.write(Seq32::from(0), &Bytes::from(two)), Ok(()));
    assert_eq!(more.readable_size(), 262144);
    let mut exact = RecvBuffer::with_capacity(131072);
    let over = vec![1u8; 131073];
    assert_eq!(exact.write(Seq32::from(0), &Bytes::from(over)), Err("size-limit-exceed"));
}

#[test]
fn recv_zero_capacity_takes_nothing() {
    let mut rbuf = RecvBuffer::with_capacity(0);
    assert_eq!(rbuf.write(Seq32::from(0), &Bytes::from("a")), Err("size-limit-exceed"));
    assert_eq!(rbuf.write(Seq32::from(1), &Bytes::new()), Err("out-of-range"));
    assert_eq!(rbuf.write(Seq32::from(0), &Bytes::new()), Err("duplicated-data"));
    assert_eq!(rbuf.readable_size(), 0);
}

#[test]
fn recv_size_limit_exceeded() {
    let mut rbuf = RecvBuffer::with_capacity(131072);
    let big = vec![0u8; 131073];
    assert_eq!(rbuf.write(Seq32::from(0), &Bytes::from(big)), Err("size-limit-exceed"));
    assert_eq!(rbuf.readable_size(), 0);
}

#[test]
fn recv_out_of_range() {
    let mut rbuf = RecvBuffer::with_capacity(131072);
    // starts beyond the window
    assert_eq!(rbuf.write(Seq32::from(131073), &Bytes::from("a")), Err("out-of-range"));
    // ends beyond the window
    assert_eq!(rbuf.write(Seq32::from(131070), &Bytes::from("abc")), Err("out-of-range"));
    // ends exactly at the window's end
    assert_eq!(rbuf.write(Seq32::from(131070), &Bytes::from("ab")), Ok(()));
    // behind the read cursor
    assert_eq!(rbuf.write(Seq32::from(4294967295), &Bytes::from("a")), Err("out-of-range"));
}

#[test]
fn recv_window_shrinks_within_block() {
    let mut rbuf = RecvBuffer::with_capacity(131072);
    assert_eq!(rbuf.write(Seq32::from(0), &Bytes::from("abcd")), Ok(()));
    assert_eq!(rbuf.consume(4), Ok(()));
    // the window is now 131072 - 4 bytes from position 4 on
    assert_eq!(rbuf.write(Seq32::from(131071), &Bytes::from("zz")), Err("out-of-range"));
    assert_eq!(rbuf.write(Seq32::from(131071), &Bytes::from("z")), Ok(()));
    let long = vec![0u8; 131069];
    assert_eq!(rbuf.write(Seq32::from(4), &Bytes::from(long)), Err("size-limit-exceed"));
}

#[test]
fn recv_duplicate_keeps_first_bytes() {
    let mut rbuf = RecvBuffer::with_capacity(131072);
    assert_eq!(rbuf.write(Seq32::from(0), &Bytes::from("first")), Ok(()));
    assert_eq!(rbuf.write(Seq32::from(0), &Bytes::from("other")), Err("duplicated-data"));
    assert_eq!(rbuf.write(Seq32::from(1), &Bytes::from("xyz")), Err("duplicated-data"));
    assert_eq!(rbuf.write(Seq32::from(3), &Bytes::new()), Err("duplicated-data"));
    assert_eq!(rbuf.peek(), Some(&b"first"[..]));
}

#[test]
fn recv_partial_overlap_takes_new_bytes() {
    let mut rbuf = RecvBuffer::with_capacity(131072);
    assert_eq!(rbuf.write(Seq32::from(0), &Bytes::from("abcdef")), Ok(()));
    assert_eq!(rbuf.write(Seq32::from(4), &Bytes::from("XYZW")), Ok(()));
    assert_eq!(rbuf.readable_size(), 8);
    assert_eq!(rbuf.peek(), Some(&b"abcdXYZW"[..]));
}

#[test]
fn recv_touching_writes_join() {
    let mut rbuf = RecvBuffer::with_capacity(131072);
    assert_eq!(rbuf.write(Seq32::from(5), &Bytes::from("world")), Ok(()));
    assert_eq!(rbuf.readable_size(), 0);
    assert_eq!(rbuf.write(Seq32::from(0), &Bytes::from("hello")), Ok(()));
    assert_eq!(rbuf.readable_size(), 10);
    assert_eq!(rbuf.peek(), Some(&b"helloworld"[..]));
}

#[test]
fn recv_round_trip_any_order() {
    let text = b"the quick brown fox jumps over the lazy dog";
    let cuts = [(30usize, 43usize), (0, 4), (10, 30), (4, 10)];
    let mut rbuf = RecvBuffer::with_capacity(131072);
    for (from, to) in cuts.iter() {
        let part = Bytes::copy_from_slice(&text[*from..*to]);
        assert_eq!(rbuf.write(Seq32::from(*from as u32), &part), Ok(()));
    }
    assert_eq!(rbuf.readable_size(), text.len());
    let mut out = Vec::new();
    while let Some(bytes) = rbuf.peek() {
        let n = if bytes.len() < 7 { bytes.len() } else { 7 };
        out.extend_from_slice(&bytes[..n]);
        assert_eq!(rbuf.consume(n), Ok(()));
    }
    assert_eq!(&out[..], &text[..]);
}

#[test]
fn recv_write_across_blocks() {
    let mut rbuf = RecvBuffer::with_capacity(393216);
    let mut data = Vec::new();
    for i in 0..200000u32 {
        data.push((i % 251) as u8);
    }
    assert_eq!(rbuf.write(Seq32::from(100000), &Bytes::from(data.clone())), Ok(()));
    let head = vec![3u8; 100000];
    assert_eq!(rbuf.write(Seq32::from(0), &Bytes::from(head.clone())), Ok(()));
    assert_eq!(rbuf.readable_size(), 300000);
    // peek stops at the end of the first block
    let first = rbuf.peek().unwrap();
    assert_eq!(first.len(), 131072);
    assert_eq!(&first[..100000], &head[..]);
    assert_eq!(&first[100000..], &data[..31072]);
    assert_eq!(rbuf.consume(131072), Ok(()));
    let second = rbuf.peek().unwrap();
    assert_eq!(second.len(), 131072);
    assert_eq!(second, &data[31072..162144]);
    assert_eq!(rbuf.consume(131073), Ok(()));
    let third = rbuf.peek().unwrap();
    assert_eq!(third, &data[162145..]);
    assert_eq!(rbuf.consume(third_len(&data)), Ok(()));
    assert_eq!(rbuf.readable_size(), 0);
}

fn third_len(data: &[u8]) -> usize {
    data.len() - 162145
}

#[test]
fn recv_consume_too_much_changes_nothing() {
    let mut rbuf = RecvBuffer::with_capacity(131072);
    assert_eq!(rbuf.write(Seq32::from(0), &Bytes::from("abc")), Ok(()));
    assert_eq!(rbuf.consume(4), Err("no-enough-data"));
    assert_eq!(rbuf.readable_size(), 3);
    assert_eq!(rbuf.peek(), Some(&b"abc"[..]));
    assert_eq!(rbuf.consume(3), Ok(()));
    assert_eq!(rbuf.readable_size(), 0);
}

#[test]
fn recv_wraps_around_sequence_space() {
    let mut rbuf = RecvBuffer::with_capacity(262144);
    let chunk = Bytes::from(vec![5u8; 65536]);
    let mut pos = Seq32::from(0);
    // walk the cursor up to the end of the sequence space
    for _ in 0..65535 {
        assert_eq!(rbuf.write(pos, &chunk), Ok(()));
        assert_eq!(rbuf.consume(65536), Ok(()));
        pos += 65536u32;
    }
    assert_eq!(pos, Seq32::from(4294901760));
    let tail = Bytes::from(vec![6u8; 65536]);
    let head = Bytes::from("wrapped");
    assert_eq!(rbuf.write(Seq32::from(0), &head), Ok(()));
    assert_eq!(rbuf.readable_size(), 0);
    assert_eq!(rbuf.write(pos, &tail), Ok(()));
    assert_eq!(rbuf.readable_size(), 65536 + 7);
    assert_eq!(rbuf.consume(65536), Ok(()));
    assert_eq!(rbuf.peek(), Some(&b"wrapped"[..]));
}
