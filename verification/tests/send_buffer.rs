use bytes::{BufMut, Bytes, BytesMut};
use rand::Rng;
use stream_buffer::send_buffer::SendBuffer;
use stream_buffer::seq32::Seq32;

#[test]
fn send_buffer_basic_test() {
    let mut sbuf = SendBuffer::new(102, 10);
    assert_eq!(sbuf.push_back(&Bytes::from("12345678")), true);
    assert_eq!(sbuf.push_back(&Bytes::from("123456")), true);
    assert_eq!(sbuf.pop_unsent(), Some((Seq32::from(0), &Bytes::from("1234567812") as &[u8])));
    assert_eq!(sbuf.writable_size(), 88);
    assert_eq!(sbuf.ack(Seq32::from(0), Seq32::from(10)), 1);
    assert_eq!(sbuf.writable_size(), 98);
    assert_eq!(sbuf.ack(Seq32::from(0), Seq32::from(10)), 0);
    assert_eq!(sbuf.ack(Seq32::from(10), Seq32::from(14)), 0);
    assert_eq!(sbuf.pop_unsent(), Some((Seq32::from(10), &Bytes::from("3456") as &[u8])));
    assert_eq!(sbuf.pop_unsent(), None);
    assert_eq!(sbuf.get(Seq32::from(10)), Some(&Bytes::from("3456") as &[u8]));
    assert_eq!(sbuf.ack(Seq32::from(10), Seq32::from(14)), 1);
    assert_eq!(sbuf.writable_size(), 102);
    while sbuf.writable_size() > 0 {
        assert_eq!(sbuf.push_back(&Bytes::from("12")), true);
    }
    assert_eq!(sbuf.push_back(&Bytes::from("1")), false);
    for i in 0..10 {
        assert_eq!(
            sbuf.pop_unsent(),
            Some((Seq32::from(14 + 10 * i), &Bytes::from("1212121212") as &[u8]))
        );
    }
    assert_eq!(sbuf.writable_size(), 0);
    assert_eq!(sbuf.ack(Seq32::from(14), Seq32::from(114)), 10);
    assert_eq!(sbuf.writable_size(), 100);
}

#[test]
fn send_buffer_5gb_read_write_test() {
    let mut rng = rand::thread_rng();
    let mut random_buf0 = BytesMut::with_capacity(10000);
    let mut random_buf1 = BytesMut::with_capacity(10000);
    for _ in 0..2500 {
        random_buf0.put_u32(rng.gen::<u32>());
        random_buf1.put_u32(rng.gen::<u32>());
    }

    let data = [random_buf0.freeze(), random_buf1.freeze()];
    let limit = 10485760;
    let mut sbuf = SendBuffer::new(limit, 1400);
    let mut test_bytes = 0;
    let mut pos = Seq32::from(0);
    let mut slot = 0;
    while test_bytes < 5368709120u64 {
        assert_eq!(sbuf.push_back(&data[slot]), true);
        assert_eq!(sbuf.writable_size(), limit - (slot + 1) * data[0].len());

        let mut cmp_offset = 0;
        while let Some(segment) = sbuf.pop_unsent() {
            let len = segment.1.len();
            assert_eq!(segment.0, pos);
            assert_eq!(segment.1, &data[slot][cmp_offset..cmp_offset + len]);
            pos += len as u32;
            cmp_offset += len;
        }

        test_bytes += data[slot].len() as u64;
        slot ^= 1;
        // cleanup send buffer every 2 rounds
        if slot == 0 {
            sbuf.ack(pos - 2 * data[0].len() as u32, pos);
        }
    }
}

#[test]
fn send_merge_then_ack() {
    let mut sbuf = SendBuffer::new(102, 10);
    assert_eq!(sbuf.push_back(&Bytes::from("12345678")), true);
    assert_eq!(sbuf.push_back(&Bytes::from("123456")), true);
    assert_eq!(sbuf.writable_size(), 88);
    assert_eq!(sbuf.pop_unsent(), Some((Seq32::from(0), &b"1234567812"[..])));
    assert_eq!(sbuf.ack(Seq32::from(0), Seq32::from(10)), 1);
    assert_eq!(sbuf.writable_size(), 98);
}

#[test]
fn send_new_buffer_is_empty() {
    let mut sbuf = SendBuffer::new(50, 7);
    assert_eq!(sbuf.writable_size(), 50);
    assert_eq!(sbuf.pop_unsent(), None);
    assert_eq!(sbuf.get(Seq32::from(0)), None);
    assert_eq!(sbuf.ack(Seq32::from(0), Seq32::from(1)), 0);
}

#[test]
fn send_push_cuts_into_segments() {
    let mut sbuf = SendBuffer::new(100, 4);
    assert_eq!(sbuf.push_back(&Bytes::from("abcdefghij")), true);
    assert_eq!(sbuf.writable_size(), 90);
    assert_eq!(sbuf.get(Seq32::from(0)), Some(&b"abcd"[..]));
    assert_eq!(sbuf.get(Seq32::from(4)), Some(&b"efgh"[..]));
    assert_eq!(sbuf.get(Seq32::from(8)), Some(&b"ij"[..]));
    assert_eq!(sbuf.get(Seq32::from(2)), None);
    assert_eq!(sbuf.get(Seq32::from(10)), None);
    // the short last segment is filled up first
    assert_eq!(sbuf.push_back(&Bytes::from("KLMNO")), true);
    assert_eq!(sbuf.get(Seq32::from(8)), Some(&b"ijKL"[..]));
    assert_eq!(sbuf.get(Seq32::from(12)), Some(&b"MNO"[..]));
    assert_eq!(sbuf.writable_size(), 85);
}

#[test]
fn send_no_top_up_after_hand_out() {
    let mut sbuf = SendBuffer::new(100, 10);
    assert_eq!(sbuf.push_back(&Bytes::from("abc")), true);
    assert_eq!(sbuf.pop_unsent(), Some((Seq32::from(0), &b"abc"[..])));
    assert_eq!(sbuf.push_back(&Bytes::from("def")), true);
    assert_eq!(sbuf.get(Seq32::from(0)), Some(&b"abc"[..]));
    assert_eq!(sbuf.pop_unsent(), Some((Seq32::from(3), &b"def"[..])));
    assert_eq!(sbuf.pop_unsent(), None);
}

#[test]
fn send_push_respects_limit() {
    let mut sbuf = SendBuffer::new(5, 2);
    assert_eq!(sbuf.push_back(&Bytes::from("abcdef")), false);
    assert_eq!(sbuf.writable_size(), 5);
    assert_eq!(sbuf.pop_unsent(), None);
    assert_eq!(sbuf.push_back(&Bytes::from("abcde")), true);
    assert_eq!(sbuf.writable_size(), 0);
    assert_eq!(sbuf.push_back(&Bytes::from("f")), false);
    assert_eq!(sbuf.push_back(&Bytes::new()), true);
    assert_eq!(sbuf.writable_size(), 0);
}

#[test]
fn send_segments_never_exceed_mss() {
    let mut sbuf = SendBuffer::new(1000, 3);
    assert_eq!(sbuf.push_back(&Bytes::from("a")), true);
    assert_eq!(sbuf.push_back(&Bytes::from("bcdefgh")), true);
    assert_eq!(sbuf.push_back(&Bytes::from("ij")), true);
    let mut all = Vec::new();
    let mut pos = 0u32;
    while let Some((at, bytes)) = sbuf.pop_unsent() {
        assert!(bytes.len() <= 3);
        assert_eq!(at, Seq32::from(pos));
        pos += bytes.len() as u32;
        all.extend_from_slice(bytes);
    }
    assert_eq!(&all[..], &b"abcdefghij"[..]);
    assert_eq!(sbuf.get(Seq32::from(9)).map(|b| b.len()), Some(1));
}

#[test]
fn send_ack_rejects_bad_ranges() {
    let mut sbuf = SendBuffer::new(100, 4);
    assert_eq!(sbuf.push_back(&Bytes::from("abcdefgh")), true);
    assert_eq!(sbuf.pop_unsent(), Some((Seq32::from(0), &b"abcd"[..])));
    // empty and reversed ranges
    assert_eq!(sbuf.ack(Seq32::from(0), Seq32::from(0)), 0);
    assert_eq!(sbuf.ack(Seq32::from(4), Seq32::from(0)), 0);
    // beyond what was handed out
    assert_eq!(sbuf.ack(Seq32::from(0), Seq32::from(5)), 0);
    assert_eq!(sbuf.ack(Seq32::from(4), Seq32::from(8)), 0);
    assert_eq!(sbuf.writable_size(), 92);
    assert_eq!(sbuf.get(Seq32::from(0)), Some(&b"abcd"[..]));
    assert_eq!(sbuf.ack(Seq32::from(0), Seq32::from(4)), 1);
    assert_eq!(sbuf.get(Seq32::from(0)), None);
    assert_eq!(sbuf.writable_size(), 96);
}

#[test]
fn send_ack_frees_only_the_front() {
    let mut sbuf = SendBuffer::new(100, 4);
    assert_eq!(sbuf.push_back(&Bytes::from("abcdefghijkl")), true);
    for _ in 0..3 {
        assert!(sbuf.pop_unsent().is_some());
    }
    assert_eq!(sbuf.writable_size(), 88);
    // the middle segment goes, the capacity stays
    assert_eq!(sbuf.ack(Seq32::from(4), Seq32::from(8)), 1);
    assert_eq!(sbuf.get(Seq32::from(4)), None);
    assert_eq!(sbuf.writable_size(), 88);
    // the front goes: the capacity of both comes back
    assert_eq!(sbuf.ack(Seq32::from(0), Seq32::from(4)), 1);
    assert_eq!(sbuf.writable_size(), 96);
    assert_eq!(sbuf.get(Seq32::from(8)), Some(&b"ijkl"[..]));
    assert_eq!(sbuf.ack(Seq32::from(8), Seq32::from(12)), 1);
    assert_eq!(sbuf.writable_size(), 100);
}

#[test]
fn send_ack_counts_by_segment_start() {
    let mut sbuf = SendBuffer::new(100, 4);
    assert_eq!(sbuf.push_back(&Bytes::from("abcdefghijkl")), true);
    for _ in 0..3 {
        assert!(sbuf.pop_unsent().is_some());
    }
    // a range that starts inside the first segment names the other two
    assert_eq!(sbuf.ack(Seq32::from(1), Seq32::from(12)), 2);
    assert_eq!(sbuf.get(Seq32::from(0)), Some(&b"abcd"[..]));
    assert_eq!(sbuf.writable_size(), 88);
    assert_eq!(sbuf.ack(Seq32::from(0), Seq32::from(1)), 1);
    assert_eq!(sbuf.writable_size(), 100);
}

#[test]
fn send_ack_from_before_the_front() {
    let mut sbuf = SendBuffer::new(100, 4);
    assert_eq!(sbuf.push_back(&Bytes::from("abcdefgh")), true);
    assert!(sbuf.pop_unsent().is_some());
    assert!(sbuf.pop_unsent().is_some());
    assert_eq!(sbuf.ack(Seq32::from(0), Seq32::from(4)), 1);
    // a late acknowledgement that starts before the front
    assert_eq!(sbuf.ack(Seq32::from(4294967290), Seq32::from(8)), 1);
    assert_eq!(sbuf.writable_size(), 100);
    assert_eq!(sbuf.get(Seq32::from(4)), None);
}

#[test]
fn send_positions_wrap_around() {
    let mut sbuf = SendBuffer::new(1 << 20, 1 << 16);
    let chunk = Bytes::from(vec![1u8; 1 << 16]);
    let mut pos = Seq32::from(0);
    for _ in 0..65535 {
        assert_eq!(sbuf.push_back(&chunk), true);
        let (at, bytes) = sbuf.pop_unsent().unwrap();
        assert_eq!(at, pos);
        assert_eq!(bytes.len(), 1 << 16);
        pos += 65536u32;
        assert_eq!(sbuf.ack(at, pos), 1);
    }
    assert_eq!(pos, Seq32::from(4294901760));
    assert_eq!(sbuf.push_back(&chunk), true);
    assert_eq!(sbuf.push_back(&Bytes::from("over")), true);
    assert_eq!(sbuf.pop_unsent().map(|s| s.0), Some(Seq32::from(4294901760)));
    assert_eq!(sbuf.pop_unsent(), Some((Seq32::from(0), &b"over"[..])));
    assert_eq!(sbuf.ack(Seq32::from(4294901760), Seq32::from(4)), 2);
    assert_eq!(sbuf.writable_size(), 1 << 20);
}
