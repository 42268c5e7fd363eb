use mlog::header::inspect;
use mlog::{Cursor, FlushBarrier, HeaderStatus, Log, NoFlush, ReadError};

struct Snapshots {
    seen: Vec<Vec<u8>>,
}

impl FlushBarrier for Snapshots {
    fn cache_flush(&mut self, region: &[u8]) {
        self.seen.push(region.to_vec());
    }
}

const EPOCH: u64 = 21 << 32;

fn two_entries(mem: &mut Vec<u8>, epoch: u64) {
    let mut log = Log::init(mem, epoch, NoFlush::new());
    assert_eq!(log.append(b"alpha"), Ok(()));
    assert_eq!(log.append(b"beta"), Ok(()));
    assert_eq!(log.header().head, 13);
}

#[test]
fn damaged_head_check_is_found_and_mended() {
    let mut mem: Vec<u8> = vec![0u8; 20 + 40];
    two_entries(&mut mem, EPOCH);
    let sound: Vec<u8> = mem.clone();
    mem[18] ^= 0x40;
    assert_eq!(inspect(&mem), HeaderStatus::InFlux);
    let log = Log::init(&mut mem, 22 << 32, Snapshots { seen: Vec::new() });
    assert_eq!(log.found(), HeaderStatus::InFlux);
    assert_eq!(log.barrier().seen.len(), 0);
    let h = log.header();
    assert_eq!(h.epoch, EPOCH);
    assert_eq!(h.head, 13);
    assert_eq!(h.head_check, !13u16);
    let region = log.release();
    assert_eq!(&region[..], &sound[..]);
}

#[test]
fn every_damaged_head_check_is_found() {
    let mut mem: Vec<u8> = vec![0u8; 20 + 40];
    two_entries(&mut mem, EPOCH);
    let good: u16 = !13u16;
    let mut v: u32 = 0;
    while v < 0x1_0000 {
        let check: u16 = v as u16;
        let mut copy: Vec<u8> = mem.clone();
        copy[18] = (check & 0xff) as u8;
        copy[19] = (check >> 8) as u8;
        if check == good {
            assert_eq!(inspect(&copy), HeaderStatus::Valid);
        } else {
            assert_eq!(inspect(&copy), HeaderStatus::InFlux);
        }
        v += 251;
    }
}

#[test]
fn saved_cursor_still_reads_after_a_reset() {
    let mut mem: Vec<u8> = vec![0u8; 20 + 40];
    let saved: Cursor;
    {
        let mut log = Log::init(&mut mem, EPOCH, NoFlush::new());
        assert_eq!(log.append(b"alpha"), Ok(()));
        saved = log.cursor_from_end();
        assert_eq!(log.append(b"beta"), Ok(()));
    }
    let log = Log::init(&mut mem, 1234 << 32, NoFlush::new());
    assert_eq!(log.found(), HeaderStatus::Valid);
    match log.read_at(&saved) {
        Ok(Some((entry, next))) => {
            assert_eq!(entry.to_vec(), b"beta".to_vec());
            assert_eq!(next, log.cursor_from_end());
        }
        _ => panic!("no entry"),
    }
}

#[test]
fn start_cursor_of_a_region_opened_again_is_at_offset_zero() {
    let mut mem: Vec<u8> = vec![0u8; 64];
    {
        let mut log = Log::init(&mut mem, EPOCH, NoFlush::new());
        assert_eq!(log.append(b"ab"), Ok(()));
    }
    let mut log = Log::init(&mut mem, 1234 << 32, NoFlush::new());
    assert_eq!(log.found(), HeaderStatus::Valid);
    assert_eq!(log.header().head, 4);
    assert_eq!(log.cursor_from_start(), Cursor::new(EPOCH, 0));
    assert_eq!(log.append(b"gamma"), Ok(()));
    let start: Cursor = log.cursor_from_start();
    assert_eq!(start, Cursor::new(EPOCH, 0));
    match log.read_at(&start) {
        Ok(Some((entry, next))) => {
            assert_eq!(entry.to_vec(), b"ab".to_vec());
            match log.read_at(&next) {
                Ok(Some((entry, next))) => {
                    assert_eq!(entry.to_vec(), b"gamma".to_vec());
                    assert_eq!(next, log.cursor_from_end());
                }
                _ => panic!("no entry"),
            }
        }
        _ => panic!("no entry"),
    };
}

#[test]
fn start_cursor_of_a_wrapped_region_opened_again_is_at_head() {
    let mut mem: Vec<u8> = vec![0u8; 64];
    {
        let mut log = Log::init(&mut mem, EPOCH, NoFlush::new());
        assert_eq!(log.append(&[0u8; 2]), Ok(()));
        assert_eq!(log.append(&[1u8; 41]), Ok(()));
        assert_eq!(log.append(&[2u8; 2]), Ok(()));
        assert_eq!(log.header().head, 7);
        assert_eq!(log.cursor_from_start(), Cursor::new(EPOCH + 1, 7));
    }
    let log = Log::init(&mut mem, 1234 << 32, NoFlush::new());
    assert_eq!(log.header().epoch, EPOCH + 1);
    assert_eq!(log.cursor_from_start(), Cursor::new(EPOCH + 1, 7));
    assert!(matches!(log.read_at(&log.cursor_from_start()), Ok(None)));
}

#[test]
fn reset_between_check_and_head_falls_back_to_the_old_head() {
    let mut mem: Vec<u8> = vec![0u8; 20 + 40];
    let snapshots: Vec<Vec<u8>> = {
        let mut log = Log::init(&mut mem, EPOCH, Snapshots { seen: Vec::new() });
        assert_eq!(log.append(b"alpha"), Ok(()));
        assert_eq!(log.append(b"beta"), Ok(()));
        log.barrier().seen.clone()
    };
    assert_eq!(snapshots.len(), 6);
    // The last barrier of the second append: check posted, head not moved.
    let mut after_reset: Vec<u8> = snapshots[5].clone();
    assert_eq!(inspect(&after_reset), HeaderStatus::InFlux);
    let log = Log::init(&mut after_reset, 99 << 32, NoFlush::new());
    let h = log.header();
    assert_eq!(h.epoch, EPOCH);
    assert_eq!(h.head, 7);
    assert_eq!(h.head_check, !7u16);
    match log.read_at(&Cursor::new(EPOCH, 0)) {
        Ok(Some((entry, next))) => {
            assert_eq!(entry.to_vec(), b"alpha".to_vec());
            assert_eq!(next, Cursor::new(EPOCH, 7));
            assert!(matches!(log.read_at(&next), Ok(None)));
        }
        _ => panic!("no entry"),
    }
}

#[test]
fn reset_after_the_frame_was_written_keeps_the_old_log() {
    let mut mem: Vec<u8> = vec![0u8; 20 + 40];
    let snapshots: Vec<Vec<u8>> = {
        let mut log = Log::init(&mut mem, EPOCH, Snapshots { seen: Vec::new() });
        assert_eq!(log.append(b"alpha"), Ok(()));
        assert_eq!(log.append(b"beta"), Ok(()));
        log.barrier().seen.clone()
    };
    let mut after_reset: Vec<u8> = snapshots[4].clone();
    assert_eq!(inspect(&after_reset), HeaderStatus::Valid);
    let log = Log::init(&mut after_reset, 99 << 32, NoFlush::new());
    assert_eq!(log.header().head, 7);
    assert_eq!(log.header().epoch, EPOCH);
    assert!(matches!(log.read_at(&Cursor::new(EPOCH, 7)), Ok(None)));
}

#[test]
fn stale_cursor_is_told_apart_from_no_data() {
    let mut mem: Vec<u8> = vec![0u8; 20 + 40];
    two_entries(&mut mem, EPOCH);
    let log = Log::init(&mut mem, 0, NoFlush::new());
    assert!(matches!(log.read_at(&Cursor::new(EPOCH, 13)), Ok(None)));
    assert_eq!(log.read_at(&Cursor::new(EPOCH - 1, 13)).err(), Some(ReadError::StaleCursor));
    assert_eq!(log.read_at(&Cursor::new(EPOCH + 1, 0)).err(), Some(ReadError::StaleCursor));
}

#[test]
fn length_that_runs_past_head_is_corruption() {
    let mut mem: Vec<u8> = vec![0u8; 20 + 40];
    two_entries(&mut mem, EPOCH);
    // The first prefix now announces 13 bytes of payload: one too many.
    mem[20] = 14;
    let log = Log::init(&mut mem, 0, NoFlush::new());
    assert_eq!(log.read_at(&Cursor::new(EPOCH, 0)).err(), Some(ReadError::CorruptFrame));
    // The second frame is as it was.
    match log.read_at(&Cursor::new(EPOCH, 7)) {
        Ok(Some((entry, _))) => assert_eq!(entry.to_vec(), b"beta".to_vec()),
        _ => panic!("no entry"),
    }
}

#[test]
fn length_that_ends_at_head_is_accepted() {
    let mut mem: Vec<u8> = vec![0u8; 20 + 40];
    two_entries(&mut mem, EPOCH);
    // The first prefix now announces 11 bytes of payload: up to head exactly.
    mem[20] = 12;
    let log = Log::init(&mut mem, 0, NoFlush::new());
    match log.read_at(&Cursor::new(EPOCH, 0)) {
        Ok(Some((entry, next))) => {
            assert_eq!(entry.len(), 11);
            assert_eq!(next, Cursor::new(EPOCH, 13));
        }
        _ => panic!("no entry"),
    }
}

#[test]
fn huge_length_is_corruption() {
    let mut mem: Vec<u8> = vec![0u8; 20 + 40];
    two_entries(&mut mem, EPOCH);
    mem[20] = 0xff;
    mem[21] = 0xff;
    let log = Log::init(&mut mem, 0, NoFlush::new());
    assert_eq!(log.read_at(&Cursor::new(EPOCH, 0)).err(), Some(ReadError::CorruptFrame));
}

#[test]
fn zero_prefix_marks_a_place_without_an_entry() {
    let mut mem: Vec<u8> = vec![0u8; 20 + 40];
    two_entries(&mut mem, EPOCH);
    mem[20] = 0;
    mem[21] = 0;
    let log = Log::init(&mut mem, 0, NoFlush::new());
    assert!(matches!(log.read_at(&Cursor::new(EPOCH, 0)), Ok(None)));
}

#[test]
fn cursor_outside_the_data_area_is_corruption() {
    let mut mem: Vec<u8> = vec![0u8; 20 + 40];
    two_entries(&mut mem, EPOCH);
    let log = Log::init(&mut mem, 0, NoFlush::new());
    assert_eq!(log.read_at(&Cursor::new(EPOCH, 40)).err(), Some(ReadError::CorruptFrame));
    assert_eq!(log.read_at(&Cursor::new(EPOCH, 0xffff)).err(), Some(ReadError::CorruptFrame));
}

#[test]
fn cursor_one_byte_short_of_head_is_corruption() {
    let mut mem: Vec<u8> = vec![0u8; 20 + 40];
    two_entries(&mut mem, EPOCH);
    let log = Log::init(&mut mem, 0, NoFlush::new());
    assert_eq!(log.read_at(&Cursor::new(EPOCH, 12)).err(), Some(ReadError::CorruptFrame));
}

#[test]
fn cursor_in_the_middle_of_a_frame_reads_what_the_bytes_say() {
    let mut mem: Vec<u8> = vec![0u8; 20 + 40];
    {
        let mut log = Log::init(&mut mem, EPOCH, NoFlush::new());
        assert_eq!(log.append(&[9u8, 2, 0, 0xaa, 3]), Ok(()));
    }
    let log = Log::init(&mut mem, 0, NoFlush::new());
    // Offset 3 holds the bytes 2, 0: a frame of one payload byte.
    match log.read_at(&Cursor::new(EPOCH, 3)) {
        Ok(Some((entry, next))) => {
            assert_eq!(entry.to_vec(), vec![0xaau8]);
            assert_eq!(next, Cursor::new(EPOCH, 6));
        }
        _ => panic!("no entry"),
    }
}
