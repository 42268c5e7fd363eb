//! The log itself: a handle on a region that appends entries and serves
//! readers.
use vstd::prelude::*;
use crate::layout::{
    load_u16, load_u64, store_u16, store_u32, store_u64, LOG_MAGIC_V1, HEADER_SIZE, MAGIC_AT,
    LENGTH_AT, EPOCH_AT, HEAD_AT, HEAD_CHECK_AT,
};
use crate::header::{
    LogHeader, HeaderStatus, header_of, status_of, region_fits, calls_for_format, capacity_of,
    capacity_for,
    complement, same_data, load_header, inspect, lemma_complement_is_not, with_epoch, with_head,
    with_head_check, lemma_with_epoch,
};
use crate::ring::{ring_store, ring_slices, lemma_ring_get, lemma_ring_put};
use crate::barrier::FlushBarrier;
use crate::cursor::{Cursor, Entry, ReadError, AppendError};
use crate::format::{
    unpublished, prepared, formatted, format_epoch, recovered, fresh_header, init_flushes,
    lemma_recovered,
};
use crate::frame::{
    PREFIX_SIZE, NO_ENTRY, fits, wraps, next_head, next_epoch, prefix_of, prefix_bytes, frame_laid,
    epoch_advanced, frame_placed, appended, after_append, append_flushes, read_outcome, has_wrapped,
    start_cursor, end_cursor, holds_frames, framed_len, frame_start, lemma_appended,
    lemma_append_extends, lemma_read_along,
};

verus! {

broadcast use vstd::slice::group_slice_axioms;

/// A circular log in a region of memory that outlives resets.
///
/// The region belongs to the caller; the log borrows it for as long as the
/// handle lives. At most one handle may work on a region at a time, and the
/// log is not safe to share between a writer and anyone else without a lock
/// around it.
pub struct Log<'a, B: FlushBarrier> {
    region: &'a mut [u8],
    barrier: B,
    found: HeaderStatus,
    tail: Ghost<u16>,
    entries: Ghost<Seq<Seq<u8>>>,
}

impl<'a, B: FlushBarrier> View for Log<'a, B> {
    type V = Seq<u8>;

    /// The bytes of the region as they stand.
    closed spec fn view(&self) -> Seq<u8> {
        self.region@
    }
}

/// The result of a read with the entry seen as its payload.
pub open spec fn outcome_view<'a>(res: Result<Option<(Entry<'a>, Cursor)>, ReadError>) -> Result<
    Option<(Seq<u8>, Cursor)>,
    ReadError,
> {
    match res {
        Ok(Some((entry, next))) => Ok(Some((entry@, next))),
        Ok(None) => Ok(None),
        Err(e) => Err(e),
    }
}

/// Formats `region` as an empty log of epoch `epoch`, magic last.
fn reformat<B: FlushBarrier>(region: &mut [u8], barrier: &mut B, epoch: u64)
    requires
        region_fits(old(region)@),
    ensures
        final(region)@ == formatted(old(region)@, epoch),
        final(barrier).seen() == old(barrier).seen().push(unpublished(old(region)@)).push(
            prepared(old(region)@, epoch),
        ),
{
    let len: u32 = region.len() as u32;
    store_u32(region, MAGIC_AT, 0);
    barrier.cache_flush(region);
    store_u64(region, EPOCH_AT, epoch);
    store_u32(region, LENGTH_AT, len);
    store_u16(region, HEAD_AT, 0);
    store_u16(region, HEAD_CHECK_AT, 0xffff);
    barrier.cache_flush(region);
    store_u32(region, MAGIC_AT, LOG_MAGIC_V1);
}

/// Brings the header of `region` into a state that can be trusted and says
/// what it was like before.
fn settle<B: FlushBarrier>(
    region: &mut [u8],
    barrier: &mut B,
    potential_epoch: u64,
) -> (found: HeaderStatus)
    requires
        region_fits(old(region)@),
    ensures
        found == status_of(old(region)@),
        final(region)@ == recovered(old(region)@, potential_epoch),
        final(barrier).seen() == old(barrier).seen() + init_flushes(
            old(region)@,
            potential_epoch,
        ),
{
    let ghost before = region@;
    let ghost calls = barrier.seen();
    let found: HeaderStatus = inspect(region);
    match found {
        HeaderStatus::Valid => {
            assert(calls =~= calls + init_flushes(before, potential_epoch));
        },
        HeaderStatus::InFlux => {
            let head: u16 = load_u16(region, HEAD_AT);
            proof {
                lemma_complement_is_not(head);
            }
            store_u16(region, HEAD_CHECK_AT, !head);
            assert(calls =~= calls + init_flushes(before, potential_epoch));
        },
        _ => {
            let epoch: u64 = potential_epoch - potential_epoch % 0x1_0000_0000;
            reformat(region, barrier, epoch);
            proof {
                lemma_pushed_twice(calls, unpublished(before), prepared(before, epoch));
            }
        },
    }
    found
}

/// Two states pushed one by one are the two appended at once.
proof fn lemma_pushed_twice(calls: Seq<Seq<u8>>, a: Seq<u8>, b: Seq<u8>)
    ensures
        calls.push(a).push(b) == calls + seq![a, b],
{
    assert(calls.push(a).push(b) =~= calls + seq![a, b]);
}

/// Three states pushed one by one are the three appended at once.
proof fn lemma_pushed_thrice(calls: Seq<Seq<u8>>, a: Seq<u8>, b: Seq<u8>, c: Seq<u8>)
    ensures
        calls.push(a).push(b).push(c) == calls + seq![a, b, c],
{
    assert(calls.push(a).push(b).push(c) =~= calls + seq![a, b, c]);
}

/// Moves the epoch on and waits for the barrier.
fn advance_epoch<B: FlushBarrier>(region: &mut [u8], barrier: &mut B)
    requires
        region_fits(old(region)@),
    ensures
        final(region)@ == with_epoch(old(region)@, next_epoch(header_of(old(region)@).epoch)),
        final(barrier).seen() == old(barrier).seen().push(final(region)@),
{
    let epoch: u64 = load_u64(region, EPOCH_AT);
    let next: u64 = if epoch == u64::MAX {
        0
    } else {
        epoch + 1
    };
    store_u64(region, EPOCH_AT, next);
    barrier.cache_flush(region);
}

/// Writes the frame of `payload` into the ring at `head`.
fn lay_frame(region: &mut [u8], payload: &[u8])
    requires
        region_fits(old(region)@),
        header_of(old(region)@).head < capacity_of(old(region)@.len()),
        fits(old(region)@, payload@),
    ensures
        final(region)@ == frame_laid(old(region)@, payload@),
        final(region)@.len() == old(region)@.len(),
{
    let ghost before = region@;
    let cap: usize = capacity_for(region.len());
    let head: usize = load_u16(region, HEAD_AT) as usize;
    let prefix: u16 = (payload.len() + 1) as u16;
    let pre: [u8; 2] = [(prefix % 0x100) as u8, (prefix / 0x100) as u8];
    assert(pre@ =~= prefix_bytes(prefix_of(payload@)));
    ring_store(region, head, pre.as_slice());
    let start: usize = if head + PREFIX_SIZE >= cap {
        head + PREFIX_SIZE - cap
    } else {
        head + PREFIX_SIZE
    };
    proof {
        lemma_ring_put(before, head as int, pre@);
        lemma_ring_put(region@, start as int, payload@);
    }
    ring_store(region, start, payload);
}

/// Moves `head` to `new_head`: first its check, then, behind a barrier, the
/// offset itself.
fn publish_head<B: FlushBarrier>(region: &mut [u8], barrier: &mut B, new_head: u16)
    requires
        region_fits(old(region)@),
    ensures
        final(region)@ == with_head(
            with_head_check(old(region)@, complement(new_head)),
            new_head,
        ),
        final(barrier).seen() == old(barrier).seen().push(
            with_head_check(old(region)@, complement(new_head)),
        ),
{
    proof {
        lemma_complement_is_not(new_head);
    }
    store_u16(region, HEAD_CHECK_AT, !new_head);
    barrier.cache_flush(region);
    store_u16(region, HEAD_AT, new_head);
}

/// Brings the frame of `payload` into the ring, the epoch moved on first
/// where the frame wraps.
fn place_frame<B: FlushBarrier>(region: &mut [u8], barrier: &mut B, payload: &[u8])
    requires
        region_fits(old(region)@),
        status_of(old(region)@) == HeaderStatus::Valid,
        fits(old(region)@, payload@),
    ensures
        final(region)@ == frame_placed(old(region)@, payload@),
        final(region)@.len() == old(region)@.len(),
        wraps(old(region)@, payload@) ==> final(barrier).seen() == old(barrier).seen().push(
            epoch_advanced(old(region)@, payload@),
        ),
        !wraps(old(region)@, payload@) ==> final(barrier).seen() == old(barrier).seen(),
{
    let ghost before = region@;
    let cap: usize = capacity_for(region.len());
    let head: usize = load_u16(region, HEAD_AT) as usize;
    if head + payload.len() + PREFIX_SIZE >= cap {
        proof {
            lemma_with_epoch(before, next_epoch(header_of(before).epoch));
        }
        advance_epoch(region, barrier);
    }
    lay_frame(region, payload);
}

/// Stores the frame of `payload` step by step, with a barrier between the
/// steps, and returns the new `head`.
fn store_frame<B: FlushBarrier>(
    region: &mut [u8],
    barrier: &mut B,
    payload: &[u8],
) -> (new_head: u16)
    requires
        region_fits(old(region)@),
        status_of(old(region)@) == HeaderStatus::Valid,
        fits(old(region)@, payload@),
    ensures
        final(region)@ == appended(old(region)@, payload@),
        final(barrier).seen() == old(barrier).seen() + append_flushes(old(region)@, payload@),
        new_head == next_head(old(region)@, payload@),
{
    let ghost before = region@;
    let ghost calls = barrier.seen();
    let cap: usize = capacity_for(region.len());
    let head: usize = load_u16(region, HEAD_AT) as usize;
    let end: usize = head + payload.len() + PREFIX_SIZE;
    let new_head: u16 = if end >= cap {
        (end - cap) as u16
    } else {
        end as u16
    };
    assert(new_head == next_head(before, payload@));
    place_frame(region, barrier, payload);
    let ghost placed = region@;
    let ghost posted = with_head_check(placed, complement(new_head));
    barrier.cache_flush(region);
    publish_head(region, barrier, new_head);
    assert(barrier.seen() == calls + append_flushes(before, payload@)) by {
        if wraps(before, payload@) {
            lemma_pushed_thrice(calls, epoch_advanced(before, payload@), placed, posted);
        } else {
            lemma_pushed_twice(calls, placed, posted);
        }
    }
    new_head
}

impl<'a, B: FlushBarrier> Log<'a, B> {
    /// Offset in the data area from which on this handle knows every frame,
    /// having written it in the present epoch: `head` as the handle found it,
    /// or as its last append that wrapped left it.
    pub closed spec fn tail(&self) -> u16 {
        self.tail@
    }

    /// The entries that lie between `tail` and `head`, oldest first.
    pub closed spec fn entries(&self) -> Seq<Seq<u8>> {
        self.entries@
    }

    /// The barrier as the calls made of it have left it.
    pub closed spec fn barrier_state(&self) -> B {
        self.barrier
    }

    /// The states in which the region stood at each call that was ever made
    /// of the barrier, in order.
    pub open spec fn flushed(&self) -> Seq<Seq<u8>> {
        self.barrier_state().seen()
    }

    /// What `init` found in the region.
    pub closed spec fn found_status(&self) -> HeaderStatus {
        self.found
    }

    /// The header can be trusted, and the frames of `entries` fill the ring
    /// from `tail` up to `head`.
    pub open spec fn wf(&self) -> bool {
        &&& region_fits(self@)
        &&& status_of(self@) == HeaderStatus::Valid
        &&& holds_frames(self@, self.tail() as int, self.entries())
        &&& self.tail() + framed_len(self.entries()) == header_of(self@).head
    }

    /// Reading what this handle wrote. A reader that begins at `tail` and has
    /// read `k` entries reads entry `k` of `entries` next and moves on to the
    /// one behind it; behind the last it reads nothing.
    pub proof fn lemma_reads_entries(&self, k: int)
        requires
            self.wf(),
            0 <= k <= self.entries().len(),
        ensures
            k < self.entries().len() ==> read_outcome(
                self@,
                Cursor {
                    epoch: header_of(self@).epoch,
                    index: (self.tail() + frame_start(self.entries(), k)) as u16,
                },
            ) == Ok::<Option<(Seq<u8>, Cursor)>, ReadError>(
                Some(
                    (
                        self.entries()[k],
                        Cursor {
                            epoch: header_of(self@).epoch,
                            index: (self.tail() + frame_start(self.entries(), k + 1)) as u16,
                        },
                    ),
                ),
            ),
            k == self.entries().len() ==> read_outcome(
                self@,
                Cursor {
                    epoch: header_of(self@).epoch,
                    index: (self.tail() + frame_start(self.entries(), k)) as u16,
                },
            ) == Ok::<Option<(Seq<u8>, Cursor)>, ReadError>(None),
            frame_start(self.entries(), 0) == 0,
    {
        lemma_read_along(self@, self.tail() as int, self.entries(), k);
        assert(self.entries().take(0) =~= Seq::<Seq<u8>>::empty());
    }

    /// Opens a log on `backing_storage`, which must hold at least the header
    /// and no more bytes than a 32-bit length can count. No alignment is
    /// asked of it.
    ///
    /// A header that can be trusted is kept, and the log goes on where it
    /// was. One whose `head_check` does not match `head` is mended from
    /// `head`. Any other is replaced by that of an empty log of epoch
    /// `potential_epoch`, written so that `magic` goes down first and up
    /// last, with a barrier on either side of the other fields. The data
    /// area is left as it is in every case.
    ///
    /// `potential_epoch` should be a fresh random number on each call, with
    /// its low 32 bits zero so that the wraps count up from there.
    ///
    /// The handle vouches for the entries it appends itself: its `tail` is
    /// the `head` it starts with.
    pub fn init(backing_storage: &'a mut [u8], potential_epoch: u64, barrier: B) -> (log: Self)
        requires
            region_fits(old(backing_storage)@),
        ensures
            log.wf(),
            log@ == recovered(old(backing_storage)@, potential_epoch),
            log.found_status() == status_of(old(backing_storage)@),
            header_of(log@) == match status_of(old(backing_storage)@) {
                HeaderStatus::Valid => header_of(old(backing_storage)@),
                HeaderStatus::InFlux => (LogHeader {
                    head_check: complement(header_of(old(backing_storage)@).head),
                    ..header_of(old(backing_storage)@)
                }),
                _ => fresh_header(old(backing_storage)@.len(), format_epoch(potential_epoch)),
            },
            calls_for_format(status_of(old(backing_storage)@)) && potential_epoch % 0x1_0000_0000
                == 0 ==> header_of(log@).epoch == potential_epoch,
            same_data(log@, old(backing_storage)@),
            log.tail() == header_of(log@).head,
            log.entries() == Seq::<Seq<u8>>::empty(),
            log.flushed() == barrier.seen() + init_flushes(
                old(backing_storage)@,
                potential_epoch,
            ),
    {
        let ghost before = backing_storage@;
        let mut barrier = barrier;
        let found: HeaderStatus = settle(backing_storage, &mut barrier, potential_epoch);
        proof {
            lemma_recovered(before, potential_epoch);
        }
        let ghost tail = header_of(backing_storage@).head;
        Log {
            region: backing_storage,
            barrier,
            found,
            tail: Ghost(tail),
            entries: Ghost(Seq::empty()),
        }
    }

    /// The header as it stands in the region.
    pub fn header(&self) -> (h: LogHeader)
        requires
            self.wf(),
        ensures
            h == header_of(self@),
    {
        load_header(self.region)
    }

    /// Number of bytes of the data area that the ring uses.
    pub fn capacity(&self) -> (cap: usize)
        ensures
            cap == capacity_of(self@.len()),
    {
        capacity_for(self.region.len())
    }

    /// What `init` found in the region before it went to work.
    pub fn found(&self) -> (status: HeaderStatus)
        ensures
            status == self.found_status(),
    {
        self.found
    }

    /// Ends the log's hold on the region and hands the region back.
    pub fn release(self) -> (region: &'a mut [u8])
        ensures
            region@ == self@,
    {
        self.region
    }

    /// The barrier the log was opened with, as its calls have left it.
    pub fn barrier(&self) -> (barrier: &B)
        ensures
            *barrier == self.barrier_state(),
    {
        &self.barrier
    }

    /// A cursor at the oldest entry still in the log.
    ///
    /// While the region has not wrapped since it was formatted, whichever
    /// handle wrote to it, that is offset zero. Once it has wrapped it is
    /// `head`: the next write lands on the oldest bytes of a full ring, and
    /// nothing is read from there until that write is made. Whether the
    /// region has wrapped is read from the low 32 bits of its epoch.
    pub fn cursor_from_start(&self) -> (c: Cursor)
        requires
            self.wf(),
        ensures
            c == start_cursor(self@),
            c.epoch == header_of(self@).epoch,
            !has_wrapped(self@) ==> c.index == 0,
            has_wrapped(self@) ==> c.index == header_of(self@).head,
    {
        let epoch: u64 = load_u64(self.region, EPOCH_AT);
        let index: u16 = if epoch % 0x1_0000_0000 != 0 {
            load_u16(self.region, HEAD_AT)
        } else {
            0
        };
        Cursor { epoch, index }
    }

    /// A cursor behind the newest entry: nothing can be read from it until
    /// another entry is appended.
    pub fn cursor_from_end(&self) -> (c: Cursor)
        requires
            self.wf(),
        ensures
            c == end_cursor(self@),
    {
        Cursor { epoch: load_u64(self.region, EPOCH_AT), index: load_u16(self.region, HEAD_AT) }
    }

    /// Reads the entry at `cursor` and returns it with the cursor behind it.
    ///
    /// A cursor of another epoch is stale. A cursor at `head`, or at a place
    /// marked as holding no entry, yields nothing. Anything else must be a
    /// frame that ends at or before `head`, or the read reports corruption.
    pub fn read_at(&self, cursor: &Cursor) -> (res: Result<Option<(Entry<'_>, Cursor)>, ReadError>)
        requires
            self.wf(),
        ensures
            outcome_view(res) == read_outcome(self@, *cursor),
    {
        let h: LogHeader = load_header(self.region);
        let cap: usize = capacity_for(self.region.len());
        if cursor.epoch != h.epoch {
            return Err(ReadError::StaleCursor);
        }
        if cursor.index == h.head {
            return Ok(None);
        }
        let index: usize = cursor.index as usize;
        let head: usize = h.head as usize;
        if index >= cap {
            return Err(ReadError::CorruptFrame);
        }
        let span: usize = if head >= index {
            head - index
        } else {
            cap - index + head
        };
        if span < PREFIX_SIZE {
            return Err(ReadError::CorruptFrame);
        }
        let second: usize = if index + 1 == cap {
            0
        } else {
            index + 1
        };
        let lo: u16 = self.region[HEADER_SIZE + index] as u16;
        let hi: u16 = self.region[HEADER_SIZE + second] as u16;
        let prefix: u16 = lo + 0x100 * hi;
        if prefix == NO_ENTRY {
            return Ok(None);
        }
        if prefix as usize + 1 > span {
            return Err(ReadError::CorruptFrame);
        }
        let len: usize = prefix as usize - 1;
        let start: usize = if index + PREFIX_SIZE >= cap {
            index + PREFIX_SIZE - cap
        } else {
            index + PREFIX_SIZE
        };
        let after: usize = if index + prefix as usize + 1 >= cap {
            index + prefix as usize + 1 - cap
        } else {
            index + prefix as usize + 1
        };
        let parts = ring_slices(self.region, start, len);
        proof {
            lemma_ring_get(self@, start as int, len as nat);
        }
        let entry = Entry::from_parts(parts.0, parts.1);
        Ok(Some((entry, Cursor { epoch: cursor.epoch, index: after as u16 })))
    }

    /// Appends `payload` as the newest entry.
    ///
    /// The frame goes into the ring at `head`, running on from the start of
    /// the ring where it meets the end. Only when it lies there and a barrier
    /// has passed does `head_check` and then `head` move past it. An append
    /// that takes `head` to or past the end of the ring begins a new epoch,
    /// and does so before it writes anything else: the entries of the new
    /// epoch begin behind the one that wrapped, and readers of the old epoch
    /// learn from a stale cursor that they have missed some. An entry that is
    /// too large for the data area is refused and nothing is written.
    ///
    /// Each header field is stored byte by byte. That a reset between the
    /// steps leaves a log that can go on is shown for resets that leave each
    /// field whole; it holds only where compiler and machine join the bytes
    /// of a field into one write.
    pub fn append(&mut self, payload: &[u8]) -> (res: Result<(), AppendError>)
        requires
            old(self).wf(),
        ensures
            final(self).wf(),
            final(self).found_status() == old(self).found_status(),
            res is Ok <==> fits(old(self)@, payload@),
            final(self)@ == after_append(old(self)@, payload@),
            final(self)@.len() == old(self)@.len(),
            res is Err ==> {
                &&& res == Err::<(), AppendError>(AppendError::Capacity)
                &&& final(self)@ == old(self)@
                &&& final(self).tail() == old(self).tail()
                &&& final(self).entries() == old(self).entries()
                &&& final(self).flushed() == old(self).flushed()
            },
            res is Ok ==> {
                &&& final(self)@ == appended(old(self)@, payload@)
                &&& header_of(final(self)@).head == next_head(old(self)@, payload@)
                &&& header_of(final(self)@).head_check == complement(header_of(final(self)@).head)
                &&& header_of(final(self)@).epoch == if wraps(old(self)@, payload@) {
                    next_epoch(header_of(old(self)@).epoch)
                } else {
                    header_of(old(self)@).epoch
                }
                &&& final(self).flushed() == old(self).flushed() + append_flushes(
                    old(self)@,
                    payload@,
                )
            },
            res is Ok && wraps(old(self)@, payload@) ==> {
                &&& final(self).tail() == next_head(old(self)@, payload@)
                &&& final(self).entries() == Seq::<Seq<u8>>::empty()
            },
            res is Ok && !wraps(old(self)@, payload@) ==> {
                &&& final(self).tail() == old(self).tail()
                &&& final(self).entries() == old(self).entries().push(payload@)
            },
    {
        let ghost before = self.region@;
        let cap: usize = capacity_for(self.region.len());
        if cap < PREFIX_SIZE || payload.len() > cap - PREFIX_SIZE {
            return Err(AppendError::Capacity);
        }
        let head: usize = load_u16(self.region, HEAD_AT) as usize;
        let wrapping: bool = head + payload.len() + PREFIX_SIZE >= cap;
        let new_head: u16 = store_frame(self.region, &mut self.barrier, payload);
        proof {
            lemma_appended(before, payload@);
        }
        if wrapping {
            self.tail = Ghost(new_head);
            self.entries = Ghost(Seq::empty());
        } else {
            proof {
                lemma_append_extends(before, self.tail@ as int, self.entries@, payload@);
            }
            self.entries = Ghost(self.entries@.push(payload@));
        }
        Ok(())
    }
}

} // verus!
