//! Entries in the ring.
//!
//! An entry is stored as a frame: a 16-bit little-endian prefix that holds
//! the payload length plus one, then the payload. A prefix of zero is no
//! frame at all: it marks a place where no entry has been written.
use vstd::prelude::*;
use crate::layout::HEADER_SIZE;
use crate::header::{
    LogHeader, HeaderStatus, header_of, status_of, region_fits, capacity_of, complement,
    same_data, with_epoch, with_head, with_head_check, lemma_with_epoch, lemma_with_head,
    lemma_with_head_check,
};
use crate::ring::{wrap, ring_distance, ring_get, ring_put, lemma_ring_get, lemma_ring_put};
use crate::cursor::{Cursor, ReadError};

verus! {

/// Number of bytes of the length prefix.
pub const PREFIX_SIZE: usize = 2;

/// The prefix that marks a place without an entry.
pub const NO_ENTRY: u16 = 0;

/// Number of ring bytes the frame of `payload` takes.
pub open spec fn frame_len(payload: Seq<u8>) -> int {
    payload.len() + PREFIX_SIZE
}

/// The prefix that announces `payload`.
pub open spec fn prefix_of(payload: Seq<u8>) -> u16 {
    (payload.len() + 1) as u16
}

/// The two bytes of prefix `p`, low byte first.
pub open spec fn prefix_bytes(p: u16) -> Seq<u8> {
    seq![(p % 0x100) as u8, (p / 0x100) as u8]
}

/// The prefix stored at ring offset `at`.
pub open spec fn prefix_at(r: Seq<u8>, at: int) -> u16 {
    let cap = capacity_of(r.len());
    (r[HEADER_SIZE + at] as int + 0x100 * (r[HEADER_SIZE + wrap(cap, at + 1)] as int)) as u16
}

/// Whether the frame of `payload` can be stored in `r` at all.
pub open spec fn fits(r: Seq<u8>, payload: Seq<u8>) -> bool {
    frame_len(payload) <= capacity_of(r.len())
}

/// Whether storing the frame of `payload` takes `head` to or past the end of
/// the ring.
pub open spec fn wraps(r: Seq<u8>, payload: Seq<u8>) -> bool {
    header_of(r).head + frame_len(payload) >= capacity_of(r.len())
}

/// Where `head` stands once the frame of `payload` is stored.
pub open spec fn next_head(r: Seq<u8>, payload: Seq<u8>) -> u16 {
    wrap(capacity_of(r.len()), header_of(r).head + frame_len(payload)) as u16
}

/// The epoch that follows `epoch`.
pub open spec fn next_epoch(epoch: u64) -> u64 {
    if epoch == u64::MAX {
        0
    } else {
        (epoch + 1) as u64
    }
}

/// Whether byte `i` of the region belongs to the stretch of the ring that the
/// frame of `payload` takes when it is stored at `head`.
pub open spec fn in_frame(r: Seq<u8>, payload: Seq<u8>, i: int) -> bool {
    let cap = capacity_of(r.len());
    &&& HEADER_SIZE <= i < HEADER_SIZE + cap
    &&& ring_distance(cap, header_of(r).head as int, i - HEADER_SIZE) < frame_len(payload)
}

/// First step of an append: where the frame will wrap, the epoch moves on
/// before any byte of the ring is touched.
pub open spec fn epoch_advanced(r: Seq<u8>, payload: Seq<u8>) -> Seq<u8> {
    if wraps(r, payload) {
        with_epoch(r, next_epoch(header_of(r).epoch))
    } else {
        r
    }
}

/// `r` with the frame of `payload` written into the ring at `head`.
pub open spec fn frame_laid(r: Seq<u8>, payload: Seq<u8>) -> Seq<u8> {
    let cap = capacity_of(r.len());
    let head = header_of(r).head as int;
    ring_put(
        ring_put(r, head, prefix_bytes(prefix_of(payload))),
        wrap(cap, head + PREFIX_SIZE),
        payload,
    )
}

/// Second step of an append: the frame lies in the ring at `head`, and the
/// header does not show it yet.
pub open spec fn frame_placed(r: Seq<u8>, payload: Seq<u8>) -> Seq<u8> {
    frame_laid(epoch_advanced(r, payload), payload)
}

/// Third step of an append: `head_check` announces the new `head`.
pub open spec fn check_posted(r: Seq<u8>, payload: Seq<u8>) -> Seq<u8> {
    with_head_check(frame_placed(r, payload), complement(next_head(r, payload)))
}

/// Last step of an append: `head` moves past the frame.
pub open spec fn appended(r: Seq<u8>, payload: Seq<u8>) -> Seq<u8> {
    with_head(check_posted(r, payload), next_head(r, payload))
}

/// The region after a call of `append` with `payload`: an entry that does
/// not fit leaves it as it was.
pub open spec fn after_append(r: Seq<u8>, payload: Seq<u8>) -> Seq<u8> {
    if fits(r, payload) {
        appended(r, payload)
    } else {
        r
    }
}

/// The states of the region at the barriers of an append, in order.
pub open spec fn append_flushes(r: Seq<u8>, payload: Seq<u8>) -> Seq<Seq<u8>> {
    if wraps(r, payload) {
        seq![epoch_advanced(r, payload), frame_placed(r, payload), check_posted(r, payload)]
    } else {
        seq![frame_placed(r, payload), check_posted(r, payload)]
    }
}

/// Whether `head` has wrapped since the region was formatted: the low 32
/// bits of the epoch, zero at that time, have counted a wrap.
pub open spec fn has_wrapped(r: Seq<u8>) -> bool {
    header_of(r).epoch % 0x1_0000_0000 != 0
}

/// The cursor at the oldest entry of `r`: the start of the ring while `head`
/// has not wrapped, and `head` itself once it has, where the next write
/// lands on the oldest bytes the ring holds.
pub open spec fn start_cursor(r: Seq<u8>) -> Cursor {
    Cursor {
        epoch: header_of(r).epoch,
        index: if has_wrapped(r) {
            header_of(r).head
        } else {
            0
        },
    }
}

/// The cursor behind the newest entry of `r`.
pub open spec fn end_cursor(r: Seq<u8>) -> Cursor {
    Cursor { epoch: header_of(r).epoch, index: header_of(r).head }
}

/// What a read at `c` hands out.
///
/// A cursor of another epoch than the log's is stale, wherever it points. A
/// cursor at `head` has caught up and gets nothing. Any other must point into
/// the ring, at least a prefix short of `head` going forward. It gets nothing
/// where the prefix marks a place without an entry, the payload and the
/// cursor behind the frame where the frame ends at or before `head`, and is
/// told of corruption where it does not.
pub open spec fn read_outcome(r: Seq<u8>, c: Cursor) -> Result<
    Option<(Seq<u8>, Cursor)>,
    ReadError,
> {
    let h = header_of(r);
    let cap = capacity_of(r.len());
    let span = ring_distance(cap, c.index as int, h.head as int);
    let p = prefix_at(r, c.index as int);
    if c.epoch != h.epoch {
        Err(ReadError::StaleCursor)
    } else if c.index == h.head {
        Ok(None)
    } else if c.index >= cap || span < PREFIX_SIZE {
        Err(ReadError::CorruptFrame)
    } else if p == NO_ENTRY {
        Ok(None)
    } else if p + 1 > span {
        Err(ReadError::CorruptFrame)
    } else {
        Ok(
            Some(
                (
                    ring_get(r, wrap(cap, c.index + PREFIX_SIZE), (p - 1) as nat),
                    Cursor { epoch: c.epoch, index: wrap(cap, c.index + p + 1) as u16 },
                ),
            ),
        )
    }
}

/// Whether the frame of `payload` lies at ring offset `at` of `r`, short of
/// the end of the ring.
pub open spec fn holds_frame(r: Seq<u8>, at: int, payload: Seq<u8>) -> bool {
    &&& 0 <= at
    &&& at + frame_len(payload) < capacity_of(r.len())
    &&& prefix_at(r, at) == prefix_of(payload)
    &&& ring_get(r, at + PREFIX_SIZE, payload.len()) == payload
}

/// Number of ring bytes the frames of `entries` take together.
pub open spec fn framed_len(entries: Seq<Seq<u8>>) -> int
    decreases entries.len(),
{
    if entries.len() == 0 {
        0
    } else {
        framed_len(entries.drop_last()) + frame_len(entries.last())
    }
}

/// Offset of the frame of entry `k` from the start of the frames of `entries`.
pub open spec fn frame_start(entries: Seq<Seq<u8>>, k: int) -> int {
    framed_len(entries.take(k))
}

/// Whether the frames of `entries` lie back to back in `r` from ring offset
/// `from` onwards.
pub open spec fn holds_frames(r: Seq<u8>, from: int, entries: Seq<Seq<u8>>) -> bool {
    forall|k: int|
        0 <= k < entries.len() ==> holds_frame(
            r,
            from + #[trigger] frame_start(entries, k),
            entries[k],
        )
}

/// Frames take room: each start lies after the one before, and the last
/// frame ends where the frames end.
pub proof fn lemma_frame_starts(entries: Seq<Seq<u8>>, k: int)
    requires
        0 <= k < entries.len(),
    ensures
        0 <= frame_start(entries, k),
        frame_start(entries, k + 1) == frame_start(entries, k) + frame_len(entries[k]),
        frame_start(entries, k + 1) <= framed_len(entries),
        frame_start(entries, entries.len() as int) == framed_len(entries),
    decreases entries.len() - k,
{
    assert(entries.take(k + 1).drop_last() =~= entries.take(k));
    assert(entries.take(k + 1).last() == entries[k]);
    assert(entries.take(entries.len() as int) =~= entries);
    lemma_framed_len_nonnegative(entries.take(k));
    if k + 1 < entries.len() {
        lemma_frame_starts(entries, k + 1);
    }
}

/// No run of frames has a negative length.
pub proof fn lemma_framed_len_nonnegative(entries: Seq<Seq<u8>>)
    ensures
        0 <= framed_len(entries),
    decreases entries.len(),
{
    if entries.len() > 0 {
        lemma_framed_len_nonnegative(entries.drop_last());
    }
}

/// One more entry leaves the starts of the earlier frames where they were.
pub proof fn lemma_frame_starts_push(entries: Seq<Seq<u8>>, payload: Seq<u8>, k: int)
    requires
        0 <= k <= entries.len(),
    ensures
        frame_start(entries.push(payload), k) == frame_start(entries, k),
        framed_len(entries.push(payload)) == framed_len(entries) + frame_len(payload),
{
    assert(entries.push(payload).take(k) =~= entries.take(k));
    assert(entries.push(payload).drop_last() =~= entries);
}

/// The region once the frame of `payload` lies in the ring: the header shows
/// at most a new epoch, the frame can be read back at `head`, and no byte
/// outside the frame has changed.
pub proof fn lemma_frame_placed(r: Seq<u8>, payload: Seq<u8>)
    requires
        region_fits(r),
        status_of(r) == HeaderStatus::Valid,
        fits(r, payload),
    ensures
        header_of(epoch_advanced(r, payload)) == (LogHeader {
            epoch: if wraps(r, payload) {
                next_epoch(header_of(r).epoch)
            } else {
                header_of(r).epoch
            },
            ..header_of(r)
        }),
        same_data(epoch_advanced(r, payload), r),
        header_of(frame_placed(r, payload)) == header_of(epoch_advanced(r, payload)),
        frame_placed(r, payload).len() == r.len(),
        prefix_at(frame_placed(r, payload), header_of(r).head as int) == prefix_of(payload),
        ring_get(
            frame_placed(r, payload),
            wrap(capacity_of(r.len()), header_of(r).head + PREFIX_SIZE),
            payload.len(),
        ) == payload,
        forall|i: int|
            HEADER_SIZE <= i < r.len() && !in_frame(r, payload, i) ==> #[trigger] frame_placed(
                r,
                payload,
            )[i] == r[i],
{
    let cap = capacity_of(r.len());
    let head = header_of(r).head as int;
    let r0 = epoch_advanced(r, payload);
    if wraps(r, payload) {
        lemma_with_epoch(r, next_epoch(header_of(r).epoch));
    }
    let pre = prefix_bytes(prefix_of(payload));
    let r1 = ring_put(r0, head, pre);
    lemma_ring_put(r0, head, pre);
    lemma_ring_get(r1, head, 2);
    let at = wrap(cap, head + PREFIX_SIZE);
    let r2 = ring_put(r1, at, payload);
    lemma_ring_put(r1, at, payload);
    assert(r2 == frame_placed(r, payload));
    assert(ring_get(r1, head, 2)[0] == r1[HEADER_SIZE + head]);
    assert(ring_get(r1, head, 2)[1] == r1[HEADER_SIZE + wrap(cap, head + 1)]);
    assert(r2[HEADER_SIZE + head] == r1[HEADER_SIZE + head]);
    assert(r2[HEADER_SIZE + wrap(cap, head + 1)] == r1[HEADER_SIZE + wrap(cap, head + 1)]);
    assert forall|i: int| 0 <= i < HEADER_SIZE implies r2[i] == r0[i] by {
        assert(r1[i] == r0[i]);
    }
    assert(header_of(r2) == header_of(r0));
    assert forall|i: int| HEADER_SIZE <= i < r.len() && !in_frame(r, payload, i) implies r2[i]
        == r[i] by {
        assert(r1[i] == r0[i]);
        assert(r2[i] == r1[i]);
    }
}

/// The header and the ring once the frame of `payload` is stored: `head`
/// and its check move past the frame, the epoch moves on exactly where the
/// frame wraps, the frame can be read back at the old `head`, and no byte of
/// the data area outside the frame changes.
pub proof fn lemma_appended(r: Seq<u8>, payload: Seq<u8>)
    requires
        region_fits(r),
        status_of(r) == HeaderStatus::Valid,
        fits(r, payload),
    ensures
        header_of(appended(r, payload)) == (LogHeader {
            epoch: if wraps(r, payload) {
                next_epoch(header_of(r).epoch)
            } else {
                header_of(r).epoch
            },
            head: next_head(r, payload),
            head_check: complement(next_head(r, payload)),
            ..header_of(r)
        }),
        status_of(appended(r, payload)) == HeaderStatus::Valid,
        appended(r, payload).len() == r.len(),
        prefix_at(appended(r, payload), header_of(r).head as int) == prefix_of(payload),
        ring_get(
            appended(r, payload),
            wrap(capacity_of(r.len()), header_of(r).head + PREFIX_SIZE),
            payload.len(),
        ) == payload,
        forall|i: int|
            HEADER_SIZE <= i < r.len() && !in_frame(r, payload, i) ==> #[trigger] appended(
                r,
                payload,
            )[i] == r[i],
{
    lemma_frame_placed(r, payload);
    let r2 = frame_placed(r, payload);
    let r3 = check_posted(r, payload);
    lemma_with_head_check(r2, complement(next_head(r, payload)));
    lemma_with_head(r3, next_head(r, payload));
    let r4 = appended(r, payload);
    let cap = capacity_of(r.len());
    let at = wrap(cap, header_of(r).head + PREFIX_SIZE);
    assert(same_data(r4, r2));
    lemma_same_data_same_ring(r2, r4, at, payload.len());
}

/// Regions that agree behind the header hold the same bytes in every
/// stretch of the ring.
pub proof fn lemma_same_data_same_ring(a: Seq<u8>, b: Seq<u8>, at: int, n: nat)
    requires
        HEADER_SIZE <= a.len(),
        same_data(a, b),
        0 <= at < capacity_of(a.len()),
        n <= capacity_of(a.len()),
    ensures
        ring_get(a, at, n) == ring_get(b, at, n),
{
    lemma_ring_get(a, at, n);
    lemma_ring_get(b, at, n);
    assert(ring_get(a, at, n) =~= ring_get(b, at, n));
}

/// A frame stays where it is as long as none of its bytes changes.
pub proof fn lemma_frame_stays(r: Seq<u8>, after: Seq<u8>, at: int, payload: Seq<u8>)
    requires
        HEADER_SIZE <= r.len(),
        after.len() == r.len(),
        holds_frame(r, at, payload),
        forall|i: int|
            HEADER_SIZE + at <= i < HEADER_SIZE + at + frame_len(payload) ==> after[i] == r[i],
    ensures
        holds_frame(after, at, payload),
{
    let from = at + PREFIX_SIZE;
    lemma_ring_get(r, from, payload.len());
    lemma_ring_get(after, from, payload.len());
    assert forall|j: int| 0 <= j < payload.len() implies ring_get(after, from, payload.len())[j]
        == payload[j] by {
        assert(after[HEADER_SIZE + from + j] == r[HEADER_SIZE + from + j]);
        assert(ring_get(r, from, payload.len())[j] == payload[j]);
    }
    assert(ring_get(after, from, payload.len()) =~= payload);
    assert(after[HEADER_SIZE + at] == r[HEADER_SIZE + at]);
    assert(after[HEADER_SIZE + at + 1] == r[HEADER_SIZE + at + 1]);
}

/// An append that does not wrap adds its entry behind the frames that lie
/// before `head` and leaves those as they were.
pub proof fn lemma_append_extends(r: Seq<u8>, from: int, entries: Seq<Seq<u8>>, payload: Seq<u8>)
    requires
        region_fits(r),
        status_of(r) == HeaderStatus::Valid,
        0 <= from,
        holds_frames(r, from, entries),
        from + framed_len(entries) == header_of(r).head,
        fits(r, payload),
        !wraps(r, payload),
    ensures
        holds_frames(appended(r, payload), from, entries.push(payload)),
        from + framed_len(entries.push(payload)) == header_of(appended(r, payload)).head,
        header_of(appended(r, payload)).epoch == header_of(r).epoch,
{
    let after = appended(r, payload);
    let more = entries.push(payload);
    let cap = capacity_of(r.len());
    let head = header_of(r).head as int;
    lemma_appended(r, payload);
    lemma_frame_starts_push(entries, payload, entries.len() as int);
    assert(entries.take(entries.len() as int) =~= entries);
    assert forall|k: int| 0 <= k < more.len() implies holds_frame(
        after,
        from + #[trigger] frame_start(more, k),
        more[k],
    ) by {
        lemma_frame_starts_push(entries, payload, k);
        if k < entries.len() {
            lemma_frame_starts(entries, k);
            let at = from + frame_start(entries, k);
            assert(holds_frame(r, at, entries[k]));
            assert forall|i: int|
                HEADER_SIZE + at <= i < HEADER_SIZE + at + frame_len(entries[k]) implies after[i]
                == r[i] by {
                assert(!in_frame(r, payload, i));
            }
            lemma_frame_stays(r, after, at, entries[k]);
        } else {
            assert(more[k] == payload);
            assert(from + frame_start(more, k) == head);
        }
    }
}

/// Reading along frames. Where the frames of `entries` fill the ring from
/// `from` up to `head`, a read at the start of frame `k` hands out entry `k`
/// and the cursor at the start of the next frame, and a read behind the last
/// frame hands out nothing.
pub proof fn lemma_read_along(r: Seq<u8>, from: int, entries: Seq<Seq<u8>>, k: int)
    requires
        region_fits(r),
        status_of(r) == HeaderStatus::Valid,
        0 <= from,
        holds_frames(r, from, entries),
        from + framed_len(entries) == header_of(r).head,
        0 <= k <= entries.len(),
    ensures
        0 <= from + frame_start(entries, k) <= header_of(r).head,
        k < entries.len() ==> read_outcome(
            r,
            Cursor { epoch: header_of(r).epoch, index: (from + frame_start(entries, k)) as u16 },
        ) == Ok::<Option<(Seq<u8>, Cursor)>, ReadError>(
            Some(
                (
                    entries[k],
                    Cursor {
                        epoch: header_of(r).epoch,
                        index: (from + frame_start(entries, k + 1)) as u16,
                    },
                ),
            ),
        ),
        k == entries.len() ==> read_outcome(
            r,
            Cursor { epoch: header_of(r).epoch, index: (from + frame_start(entries, k)) as u16 },
        ) == Ok::<Option<(Seq<u8>, Cursor)>, ReadError>(None),
{
    assert(entries.take(entries.len() as int) =~= entries);
    lemma_framed_len_nonnegative(entries.take(k));
    if k < entries.len() {
        lemma_frame_starts(entries, k);
        let at = from + frame_start(entries, k);
        assert(holds_frame(r, at, entries[k]));
    }
}

} // verus!
