use mlog::{AppendError, Cursor, FlushBarrier, HeaderStatus, Log, NoFlush, ReadError};

struct Snapshots {
    seen: Vec<Vec<u8>>,
}

impl FlushBarrier for Snapshots {
    fn cache_flush(&mut self, region: &[u8]) {
        self.seen.push(region.to_vec());
    }
}

fn read_payload<B: FlushBarrier>(log: &Log<'_, B>, at: &Cursor) -> Option<(Vec<u8>, Cursor)> {
    match log.read_at(at) {
        Ok(Some((entry, next))) => Some((entry.to_vec(), next)),
        Ok(None) => None,
        Err(e) => panic!("read failed: {:?}", e),
    }
}

#[test]
fn appended_entries_come_back_in_order() {
    let mut mem: Vec<u8> = vec![0u8; 20 + 100];
    let mut log = Log::init(&mut mem, 0xabcd_0000_0000, NoFlush::new());
    let entries: Vec<&[u8]> = vec![b"first", b"", b"the third entry", b"4"];
    for e in entries.iter() {
        assert_eq!(log.append(e), Ok(()));
    }
    let mut at: Cursor = log.cursor_from_start();
    assert_eq!(at, Cursor::new(0xabcd_0000_0000, 0));
    for e in entries.iter() {
        let (payload, next) = read_payload(&log, &at).expect("an entry");
        assert_eq!(&payload[..], *e);
        assert_eq!(next.epoch, at.epoch);
        assert_eq!(next.index as usize, at.index as usize + e.len() + 2);
        at = next;
    }
    assert_eq!(at, log.cursor_from_end());
    assert!(read_payload(&log, &at).is_none());
}

#[test]
fn frame_is_length_plus_one_then_payload() {
    let mut mem: Vec<u8> = vec![0xeeu8; 20 + 16];
    {
        let mut log = Log::init(&mut mem, 1 << 32, NoFlush::new());
        assert_eq!(log.append(b"hey"), Ok(()));
        assert_eq!(log.header().head, 5);
        assert_eq!(log.header().head_check, 0xfffa);
        assert_eq!(log.header().epoch, 1 << 32);
    }
    assert_eq!(&mem[20..25], &[4u8, 0, b'h', b'e', b'y']);
    assert_eq!(&mem[25..], &[0xeeu8; 11]);
    assert_eq!(&mem[16..20], &[5u8, 0, 0xfa, 0xff]);
}

#[test]
fn long_payload_has_a_two_byte_prefix() {
    let mut mem: Vec<u8> = vec![0u8; 20 + 1000];
    let payload: Vec<u8> = vec![7u8; 300];
    {
        let mut log = Log::init(&mut mem, 1, NoFlush::new());
        assert_eq!(log.append(&payload), Ok(()));
        assert_eq!(log.header().head, 302);
        let (back, next) = read_payload(&log, &log.cursor_from_start()).expect("an entry");
        assert_eq!(back, payload);
        assert_eq!(next.index, 302);
    }
    // 301 = 0x012d
    assert_eq!(&mem[20..22], &[0x2du8, 0x01]);
}

#[test]
fn head_check_is_the_complement_of_head_after_each_append() {
    let mut mem: Vec<u8> = vec![0u8; 20 + 64];
    let mut log = Log::init(&mut mem, 1, NoFlush::new());
    let mut i: usize = 0;
    while i < 40 {
        let payload: Vec<u8> = vec![i as u8; i % 7];
        assert_eq!(log.append(&payload), Ok(()));
        let h = log.header();
        assert_eq!(h.head_check, !h.head);
        assert!((h.head as usize) < log.capacity());
        i += 1;
    }
}

#[test]
fn cursor_from_end_waits_for_the_next_append() {
    let mut mem: Vec<u8> = vec![0u8; 20 + 64];
    let mut log = Log::init(&mut mem, 5 << 32, NoFlush::new());
    assert_eq!(log.append(b"old"), Ok(()));
    let end: Cursor = log.cursor_from_end();
    assert_eq!(end, Cursor::new(5 << 32, 5));
    assert!(read_payload(&log, &end).is_none());
    assert!(read_payload(&log, &end).is_none());
    assert_eq!(log.append(b"new one"), Ok(()));
    let (payload, next) = read_payload(&log, &end).expect("an entry");
    assert_eq!(&payload[..], b"new one");
    assert_eq!(next, log.cursor_from_end());
    assert_eq!(next, Cursor::new(5 << 32, 14));
    assert!(read_payload(&log, &next).is_none());
}

#[test]
fn entry_larger_than_the_data_area_is_refused_and_nothing_changes() {
    let mut mem: Vec<u8> = vec![0x11u8; 20 + 10];
    let after_init: Vec<u8>;
    {
        let _ = Log::init(&mut mem, 5 << 32, NoFlush::new());
    }
    after_init = mem.clone();
    {
        let mut log = Log::init(&mut mem, 6 << 32, Snapshots { seen: Vec::new() });
        assert_eq!(log.append(&[1u8; 9]), Err(AppendError::Capacity));
        assert_eq!(log.append(&[1u8; 500]), Err(AppendError::Capacity));
        assert_eq!(log.barrier().seen.len(), 0);
        assert_eq!(log.header().head, 0);
        assert_eq!(log.header().epoch, 5 << 32);
    }
    assert_eq!(mem, after_init);
}

#[test]
fn entry_that_fills_the_data_area_wraps_onto_the_same_head() {
    let mut mem: Vec<u8> = vec![0u8; 20 + 10];
    let mut log = Log::init(&mut mem, 5 << 32, NoFlush::new());
    assert_eq!(log.append(b"ab"), Ok(()));
    assert_eq!(log.header().head, 4);
    let before: Cursor = log.cursor_from_end();
    assert_eq!(log.append(&[9u8; 8]), Ok(()));
    let h = log.header();
    assert_eq!(h.head, 4);
    assert_eq!(h.head_check, !4u16);
    assert_eq!(h.epoch, (5 << 32) + 1);
    assert_eq!(log.read_at(&before).err(), Some(ReadError::StaleCursor));
    assert_eq!(log.cursor_from_start(), Cursor::new((5 << 32) + 1, 4));
    let region = log.release();
    assert_eq!(&region[20..], &[9u8, 9, 9, 9, 9, 0, 9, 9, 9, 9]);
}

#[test]
fn frame_runs_on_from_the_start_of_the_ring() {
    let mut mem: Vec<u8> = vec![0u8; 20 + 10];
    let mut log = Log::init(&mut mem, 5 << 32, NoFlush::new());
    assert_eq!(log.append(b"abcdef"), Ok(()));
    assert_eq!(log.header().head, 8);
    assert_eq!(log.append(b"wxyz"), Ok(()));
    let h = log.header();
    assert_eq!(h.head, 4);
    assert_eq!(h.epoch, (5 << 32) + 1);
    assert_eq!(h.head_check, !4u16);
    // Read by offset alone, the frame that runs round the end comes back whole.
    match log.read_at(&Cursor::new((5 << 32) + 1, 8)) {
        Ok(Some((entry, next))) => {
            assert_eq!(entry.len(), 4);
            assert_eq!(entry.to_vec(), b"wxyz".to_vec());
            let parts = entry.as_slices();
            assert_eq!(parts.0, &b"wxyz"[..]);
            assert_eq!(parts.1, &b""[..]);
            assert_eq!(entry.byte(0), b'w');
            assert_eq!(entry.byte(3), b'z');
            assert_eq!(next, Cursor::new((5 << 32) + 1, 4));
        }
        _ => panic!("no entry"),
    }
    let region = log.release();
    assert_eq!(&region[20..], &[b'w', b'x', b'y', b'z', b'c', b'd', b'e', b'f', 5, 0]);
}

#[test]
fn prefix_and_payload_may_each_be_split_by_the_end_of_the_ring() {
    let mut mem: Vec<u8> = vec![0u8; 20 + 10];
    let mut log = Log::init(&mut mem, 0, NoFlush::new());
    assert_eq!(log.append(b"abcde"), Ok(()));
    assert_eq!(log.append(b""), Ok(()));
    assert_eq!(log.header().head, 9);
    assert_eq!(log.header().epoch, 0);
    assert_eq!(log.append(b"uvw"), Ok(()));
    assert_eq!(log.header().head, 4);
    assert_eq!(log.header().epoch, 1);
    match log.read_at(&Cursor::new(1, 9)) {
        Ok(Some((entry, next))) => {
            assert_eq!(entry.to_vec(), b"uvw".to_vec());
            assert_eq!(next, Cursor::new(1, 4));
        }
        _ => panic!("no entry"),
    }
    let region = log.release();
    assert_eq!(&region[20..], &[0u8, b'u', b'v', b'w', b'c', b'd', b'e', 1, 0, 4]);
}

#[test]
fn payload_split_by_the_end_of_the_ring_lies_in_two_slices() {
    let mut mem: Vec<u8> = vec![0u8; 20 + 12];
    let mut log = Log::init(&mut mem, 0, NoFlush::new());
    assert_eq!(log.append(b"abcdef"), Ok(()));
    assert_eq!(log.append(b"123456"), Ok(()));
    assert_eq!(log.header().head, 4);
    match log.read_at(&Cursor::new(1, 8)) {
        Ok(Some((entry, next))) => {
            let parts = entry.as_slices();
            assert_eq!(parts.0, &b"12"[..]);
            assert_eq!(parts.1, &b"3456"[..]);
            assert_eq!(entry.len(), 6);
            assert_eq!(entry.byte(1), b'2');
            assert_eq!(entry.byte(2), b'3');
            assert_eq!(entry.to_vec(), b"123456".to_vec());
            assert_eq!(next, Cursor::new(1, 4));
        }
        _ => panic!("no entry"),
    }
}

#[test]
fn wrap_makes_earlier_cursors_stale() {
    let mut mem: Vec<u8> = vec![0u8; 20 + 32];
    let mut log = Log::init(&mut mem, 0x77_0000_0000, NoFlush::new());
    assert_eq!(log.append(b"one"), Ok(()));
    let start: Cursor = log.cursor_from_start();
    let end: Cursor = log.cursor_from_end();
    assert!(read_payload(&log, &start).is_some());
    let mut wraps: u64 = 0;
    let mut last_head: u16 = log.header().head;
    while wraps == 0 {
        assert_eq!(log.append(b"filler.."), Ok(()));
        if log.header().head < last_head {
            wraps += 1;
        }
        last_head = log.header().head;
    }
    assert_eq!(log.header().epoch, 0x77_0000_0001);
    assert_eq!(log.read_at(&start).err(), Some(ReadError::StaleCursor));
    assert_eq!(log.read_at(&end).err(), Some(ReadError::StaleCursor));
    // The offset alone does not redeem the cursor, not even at head.
    let at_head: Cursor = Cursor::new(0x77_0000_0000, log.header().head);
    assert_eq!(log.read_at(&at_head).err(), Some(ReadError::StaleCursor));
}

#[test]
fn start_cursor_is_at_offset_zero_until_the_first_wrap() {
    let mut mem: Vec<u8> = vec![0u8; 20 + 32];
    let mut log = Log::init(&mut mem, 10 << 32, NoFlush::new());
    assert_eq!(log.cursor_from_start(), Cursor::new(10 << 32, 0));
    assert_eq!(log.append(b"one"), Ok(()));
    assert_eq!(log.append(b"two"), Ok(()));
    assert_eq!(log.cursor_from_start(), Cursor::new(10 << 32, 0));
    assert_eq!(log.cursor_from_end(), Cursor::new(10 << 32, 10));
}

#[test]
fn start_cursor_is_at_head_once_the_log_has_wrapped() {
    let mut mem: Vec<u8> = vec![0u8; 20 + 32];
    let mut log = Log::init(&mut mem, 10 << 32, NoFlush::new());
    assert_eq!(log.append(&[1u8; 20]), Ok(()));
    assert_eq!(log.append(&[2u8; 20]), Ok(()));
    assert_eq!(log.header().epoch, (10 << 32) + 1);
    assert_eq!(log.header().head, 12);
    assert_eq!(log.cursor_from_start(), Cursor::new((10 << 32) + 1, 12));
    let since_wrap: Cursor = log.cursor_from_end();
    assert_eq!(log.append(b"after"), Ok(()));
    assert_eq!(log.append(b"wrap"), Ok(()));
    assert_eq!(log.header().head, 25);
    let start: Cursor = log.cursor_from_start();
    assert_eq!(start, Cursor::new((10 << 32) + 1, 25));
    assert_eq!(start, log.cursor_from_end());
    assert!(read_payload(&log, &start).is_none());
    // A cursor kept since the wrap still reads what was written after it.
    let (a, next) = read_payload(&log, &since_wrap).expect("an entry");
    assert_eq!(&a[..], b"after");
    let (b, next) = read_payload(&log, &next).expect("an entry");
    assert_eq!(&b[..], b"wrap");
    assert_eq!(next, log.cursor_from_end());
}

#[test]
fn epoch_steps_round_the_64_bit_range() {
    let mut mem: Vec<u8> = vec![0u8; 20 + 8];
    {
        let _ = Log::init(&mut mem, 0, NoFlush::new());
    }
    // A header that is sound and whose epoch is the largest there is.
    for i in 8..16 {
        mem[i] = 0xff;
    }
    let mut log = Log::init(&mut mem, 0, NoFlush::new());
    assert_eq!(log.found(), HeaderStatus::Valid);
    assert_eq!(log.header().epoch, u64::MAX);
    let old: Cursor = log.cursor_from_end();
    assert_eq!(log.append(&[0u8; 6]), Ok(()));
    assert_eq!(log.header().epoch, 0);
    assert_eq!(log.read_at(&old).err(), Some(ReadError::StaleCursor));
}

#[test]
fn barrier_stands_between_frame_check_and_head() {
    let mut mem: Vec<u8> = vec![0u8; 20 + 32];
    let mut log = Log::init(&mut mem, 3, Snapshots { seen: Vec::new() });
    assert_eq!(log.barrier().seen.len(), 2);
    assert_eq!(log.append(b"data"), Ok(()));
    let seen: &Vec<Vec<u8>> = &log.barrier().seen;
    assert_eq!(seen.len(), 4);
    // First the frame lies in the ring and the header is as it was.
    assert_eq!(&seen[2][20..26], &[5u8, 0, b'd', b'a', b't', b'a']);
    assert_eq!(&seen[2][16..20], &[0u8, 0, 0xff, 0xff]);
    // Then the check is posted and head is as it was.
    assert_eq!(&seen[3][20..26], &[5u8, 0, b'd', b'a', b't', b'a']);
    assert_eq!(&seen[3][16..20], &[0u8, 0, 0xf9, 0xff]);
    assert_eq!(log.header().head, 6);
}

#[test]
fn epoch_moves_on_before_a_wrapping_frame_is_written() {
    let mut mem: Vec<u8> = vec![0u8; 20 + 10];
    let mut log = Log::init(&mut mem, 3 << 32, Snapshots { seen: Vec::new() });
    assert_eq!(log.append(b"abcd"), Ok(()));
    assert_eq!(log.barrier().seen.len(), 4);
    let ring_before: Vec<u8> = log.barrier().seen[3][20..].to_vec();
    assert_eq!(log.append(b"efgh"), Ok(()));
    let seen: &Vec<Vec<u8>> = &log.barrier().seen;
    assert_eq!(seen.len(), 7);
    // The new epoch is in place while the ring is untouched.
    assert_eq!(&seen[4][8..16], &[1u8, 0, 0, 0, 3, 0, 0, 0]);
    assert_eq!(&seen[4][20..], &ring_before[..]);
    assert_eq!(&seen[4][16..20], &[6u8, 0, 0xf9, 0xff]);
    // The frame follows, then the check, and head last.
    assert_eq!(&seen[5][20..], &[b'g', b'h', b'a', b'b', b'c', b'd', 5, 0, b'e', b'f']);
    assert_eq!(&seen[5][16..20], &[6u8, 0, 0xf9, 0xff]);
    assert_eq!(&seen[6][16..20], &[6u8, 0, 0xfd, 0xff]);
    assert_eq!(log.header().head, 2);
    assert_eq!(log.header().head_check, 0xfffd);
    assert_eq!(log.header().epoch, (3 << 32) + 1);
    assert_eq!(log.found(), HeaderStatus::BadMagic);
}

struct Count {
    calls: usize,
    last_len: usize,
}

impl FlushBarrier for Count {
    fn cache_flush(&mut self, region: &[u8]) {
        self.calls += 1;
        self.last_len = region.len();
    }
}

#[test]
fn barrier_is_handed_the_whole_region_at_each_call() {
    let mut mem: Vec<u8> = vec![0u8; 20 + 10];
    let mut log = Log::init(&mut mem, 0, Count { calls: 0, last_len: 0 });
    assert_eq!(log.barrier().calls, 2);
    assert_eq!(log.barrier().last_len, 30);
    assert_eq!(log.append(b"abcd"), Ok(()));
    assert_eq!(log.barrier().calls, 4);
    assert_eq!(log.append(b"efgh"), Ok(()));
    assert_eq!(log.barrier().calls, 7);
    assert_eq!(log.append(&[0u8; 9]), Err(AppendError::Capacity));
    assert_eq!(log.barrier().calls, 7);
    assert_eq!(log.barrier().last_len, 30);
}
