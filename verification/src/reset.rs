//! What a reset can leave behind.
//!
//! Between two barriers the writes of the log may reach the memory in any
//! order, and a reset may come when only some of them have. This module says
//! which regions such a reset can leave, and what a log that is opened
//! afterwards finds.
//!
//! Formatting is safe against a reset that leaves any mixture of old and new
//! bytes. An append is safe against one that leaves each header field whole,
//! and no further: the log stores a field byte by byte, so the law of the
//! append holds only where compiler and machine join the bytes of `head`, of
//! `head_check` and of `epoch` into one write each.
use vstd::prelude::*;
use crate::layout::{
    get_u16, get_u32, get_u64, lemma_put_u32, LOG_MAGIC_V1, HEADER_SIZE, MAGIC_AT, LENGTH_AT,
    EPOCH_AT, HEAD_AT, HEAD_CHECK_AT,
};
use crate::header::{
    LogHeader, HeaderStatus, header_of, status_of, region_fits, calls_for_format, complement,
    same_data, lemma_with_head, lemma_with_head_check,
};
use crate::format::{
    unpublished, prepared, formatted, format_epoch, recovered, lemma_format_steps,
    lemma_repaired,
};
use crate::frame::{
    fits, wraps, in_frame, next_head, epoch_advanced, frame_placed, check_posted, appended,
    lemma_frame_placed, lemma_appended,
};

verus! {

/// Whether the `n` bytes at `at` of `seen` are all as in `before` or all as
/// in `after`.
pub open spec fn field_kept_or_written(
    before: Seq<u8>,
    after: Seq<u8>,
    seen: Seq<u8>,
    at: int,
    n: int,
) -> bool {
    ||| forall|i: int| at <= i < at + n ==> seen[i] == before[i]
    ||| forall|i: int| at <= i < at + n ==> seen[i] == after[i]
}

/// Whether a reset that comes while the region is on its way from `before`
/// to `after`, with no barrier in between, can leave `seen`.
pub open spec fn exposed(before: Seq<u8>, after: Seq<u8>, seen: Seq<u8>) -> bool {
    &&& seen.len() == before.len()
    &&& seen.len() == after.len()
    &&& field_kept_or_written(before, after, seen, MAGIC_AT as int, 4)
    &&& field_kept_or_written(before, after, seen, LENGTH_AT as int, 4)
    &&& field_kept_or_written(before, after, seen, EPOCH_AT as int, 8)
    &&& field_kept_or_written(before, after, seen, HEAD_AT as int, 2)
    &&& field_kept_or_written(before, after, seen, HEAD_CHECK_AT as int, 2)
    &&& forall|i: int| HEADER_SIZE <= i < seen.len() ==> seen[i] == before[i] || seen[i] == after[i]
}

/// Whether a reset can leave `seen` on the way from `before` to `after` even
/// where no write is whole: each byte is as it was or as it was to become.
pub open spec fn exposed_bytewise(before: Seq<u8>, after: Seq<u8>, seen: Seq<u8>) -> bool {
    &&& seen.len() == before.len()
    &&& seen.len() == after.len()
    &&& forall|i: int| 0 <= i < seen.len() ==> seen[i] == before[i] || seen[i] == after[i]
}

/// After a reset every header field is what it was or what it was to become.
pub proof fn lemma_exposed_header(before: Seq<u8>, after: Seq<u8>, seen: Seq<u8>)
    requires
        HEADER_SIZE <= before.len(),
        exposed(before, after, seen),
    ensures
        header_of(seen).magic == header_of(before).magic || header_of(seen).magic == header_of(
            after,
        ).magic,
        header_of(seen).length == header_of(before).length || header_of(seen).length == header_of(
            after,
        ).length,
        header_of(seen).epoch == header_of(before).epoch || header_of(seen).epoch == header_of(
            after,
        ).epoch,
        header_of(seen).head == header_of(before).head || header_of(seen).head == header_of(
            after,
        ).head,
        header_of(seen).head_check == header_of(before).head_check || header_of(seen).head_check
            == header_of(after).head_check,
{
    lemma_field_value(before, after, seen, MAGIC_AT as int, 4);
    lemma_field_value(before, after, seen, LENGTH_AT as int, 4);
    lemma_field_value(before, after, seen, EPOCH_AT as int, 8);
    lemma_field_value(before, after, seen, HEAD_AT as int, 2);
    lemma_field_value(before, after, seen, HEAD_CHECK_AT as int, 2);
}

/// A field whose bytes are all from one region has the value it has there.
pub proof fn lemma_field_value(before: Seq<u8>, after: Seq<u8>, seen: Seq<u8>, at: int, n: int)
    requires
        0 <= at,
        n == 2 || n == 4 || n == 8,
        at + n <= seen.len(),
        field_kept_or_written(before, after, seen, at, n),
    ensures
        get_u16(seen, at) == get_u16(before, at) || get_u16(seen, at) == get_u16(after, at),
        n >= 4 ==> get_u32(seen, at) == get_u32(before, at) || get_u32(seen, at) == get_u32(
            after,
            at,
        ),
        n >= 8 ==> get_u64(seen, at) == get_u64(before, at) || get_u64(seen, at) == get_u64(
            after,
            at,
        ),
{
    if forall|i: int| at <= i < at + n ==> seen[i] == before[i] {
        lemma_same_bytes_same_value(seen, before, at, n);
    } else {
        lemma_same_bytes_same_value(seen, after, at, n);
    }
}

/// Equal bytes decode to equal values.
pub proof fn lemma_same_bytes_same_value(a: Seq<u8>, b: Seq<u8>, at: int, n: int)
    requires
        0 <= at,
        n == 2 || n == 4 || n == 8,
        forall|i: int| at <= i < at + n ==> a[i] == b[i],
    ensures
        get_u16(a, at) == get_u16(b, at),
        n >= 4 ==> get_u32(a, at) == get_u32(b, at),
        n >= 8 ==> get_u64(a, at) == get_u64(b, at),
{
    assert(a[at] == b[at] && a[at + 1] == b[at + 1]);
    if n >= 4 {
        assert(a[at + 2] == b[at + 2] && a[at + 3] == b[at + 3]);
    }
    if n >= 8 {
        assert(a[at + 4] == b[at + 4] && a[at + 5] == b[at + 5]);
        assert(a[at + 6] == b[at + 6] && a[at + 7] == b[at + 7]);
    }
}

/// A reset while a region is being formatted. Whatever step it cuts short,
/// and even if it cuts a field in two, the region it leaves is either one
/// that the next log to be opened will format again, or the formatted region
/// itself: there is no header that passes for sound with fields half
/// written.
pub proof fn lemma_reset_while_formatting(r: Seq<u8>, epoch: u64, seen: Seq<u8>)
    requires
        region_fits(r),
        calls_for_format(status_of(r)),
        exposed_bytewise(r, unpublished(r), seen) || exposed_bytewise(
            unpublished(r),
            prepared(r, epoch),
            seen,
        ) || exposed_bytewise(prepared(r, epoch), formatted(r, epoch), seen),
    ensures
        calls_for_format(status_of(seen)) || seen == formatted(r, epoch),
        status_of(formatted(r, epoch)) == HeaderStatus::Valid,
        forall|again: u64|
            calls_for_format(status_of(seen)) ==> #[trigger] recovered(seen, again) == formatted(
                seen,
                format_epoch(again),
            ),
{
    let down = unpublished(r);
    let ready = prepared(r, epoch);
    let up = formatted(r, epoch);
    lemma_format_steps(r, epoch);
    lemma_put_u32(r, MAGIC_AT as int, 0);
    lemma_put_u32(ready, MAGIC_AT as int, LOG_MAGIC_V1);
    if exposed_bytewise(r, down, seen) {
        if header_of(seen).magic == LOG_MAGIC_V1 {
            lemma_magic_bytes(seen);
            lemma_magic_bytes_down(down);
            assert forall|i: int| 0 <= i < seen.len() implies seen[i] == r[i] by {
                if i >= 4 {
                    assert(down[i] == r[i]);
                }
            }
            assert(seen =~= r);
        }
    } else if exposed_bytewise(down, ready, seen) {
        if header_of(seen).magic == LOG_MAGIC_V1 {
            lemma_magic_bytes(seen);
            lemma_magic_bytes_down(down);
            lemma_magic_bytes_down(ready);
        }
    } else {
        if header_of(seen).magic == LOG_MAGIC_V1 {
            lemma_magic_bytes(seen);
            lemma_magic_bytes(up);
            lemma_magic_bytes_down(ready);
            assert forall|i: int| 0 <= i < seen.len() implies seen[i] == up[i] by {
                if i >= 4 {
                    assert(ready[i] == up[i]);
                }
            }
            assert(seen =~= up);
        }
    }
}

/// A region whose magic is good has the four bytes of the magic.
proof fn lemma_magic_bytes(r: Seq<u8>)
    requires
        header_of(r).magic == LOG_MAGIC_V1,
    ensures
        r[0] == 0x66,
        r[1] == 0xb7,
        r[2] == 0xaa,
        r[3] == 0x12,
{
}

/// A region whose magic is zero has four zero bytes there.
proof fn lemma_magic_bytes_down(r: Seq<u8>)
    requires
        header_of(r).magic == 0,
    ensures
        r[0] == 0,
        r[1] == 0,
        r[2] == 0,
        r[3] == 0,
{
}

/// Whether a reset during the append of `payload` to `r` can leave `seen`:
/// it cuts short one of the four steps of the append.
pub open spec fn exposed_by_append(r: Seq<u8>, payload: Seq<u8>, seen: Seq<u8>) -> bool {
    ||| exposed(r, epoch_advanced(r, payload), seen)
    ||| exposed(epoch_advanced(r, payload), frame_placed(r, payload), seen)
    ||| exposed(frame_placed(r, payload), check_posted(r, payload), seen)
    ||| exposed(check_posted(r, payload), appended(r, payload), seen)
}

/// A reset during an append that leaves each header field whole. The log
/// that is opened next keeps the header it finds, mending `head_check` from
/// `head` at most, and what it then has is the header from before the
/// append, that header with the epoch moved on, or the header from after the
/// append. No byte of the data area outside the new frame has changed; while
/// the header shows the old epoch of an append that wraps the data area is
/// untouched; and once `head` has moved the whole frame is in place.
///
/// Nothing is said of a reset that leaves a field with some of its bytes
/// written: a `head` cut in two would be taken for the old one. The fields
/// are stored byte by byte, so this holds only where compiler and machine
/// join the bytes of a field into one write.
pub proof fn lemma_reset_while_appending(
    r: Seq<u8>,
    payload: Seq<u8>,
    seen: Seq<u8>,
    potential_epoch: u64,
)
    requires
        region_fits(r),
        status_of(r) == HeaderStatus::Valid,
        fits(r, payload),
        exposed_by_append(r, payload, seen),
    ensures
        !calls_for_format(status_of(seen)),
        same_data(recovered(seen, potential_epoch), seen),
        ({
            let h = header_of(recovered(seen, potential_epoch));
            ||| h == header_of(r)
            ||| h == header_of(epoch_advanced(r, payload))
            ||| h == header_of(appended(r, payload))
        }),
        forall|i: int|
            HEADER_SIZE <= i < r.len() && !in_frame(r, payload, i) ==> #[trigger] seen[i] == r[i],
        wraps(r, payload) && header_of(seen).epoch == header_of(r).epoch ==> same_data(seen, r),
        header_of(recovered(seen, potential_epoch)).head != header_of(r).head ==> same_data(
            seen,
            appended(r, payload),
        ),
{
    let moved = epoch_advanced(r, payload);
    let placed = frame_placed(r, payload);
    let posted = check_posted(r, payload);
    let done = appended(r, payload);
    lemma_frame_placed(r, payload);
    lemma_appended(r, payload);
    lemma_with_head_check(placed, complement(next_head(r, payload)));
    lemma_with_head(posted, next_head(r, payload));
    if exposed(r, moved, seen) {
        lemma_exposed_header(r, moved, seen);
        lemma_settles(seen, potential_epoch);
    } else if exposed(moved, placed, seen) {
        lemma_exposed_header(moved, placed, seen);
        lemma_settles(seen, potential_epoch);
    } else if exposed(placed, posted, seen) {
        lemma_exposed_header(placed, posted, seen);
        lemma_settles(seen, potential_epoch);
    } else {
        lemma_exposed_header(posted, done, seen);
        lemma_settles(seen, potential_epoch);
    }
}

/// A header with good magic, length and head that is opened keeps all but
/// `head_check`, which ends as the complement of `head`.
proof fn lemma_settles(seen: Seq<u8>, potential_epoch: u64)
    requires
        region_fits(seen),
        !calls_for_format(status_of(seen)),
    ensures
        header_of(recovered(seen, potential_epoch)) == (LogHeader {
            head_check: complement(header_of(seen).head),
            ..header_of(seen)
        }),
        same_data(recovered(seen, potential_epoch), seen),
{
    if status_of(seen) == HeaderStatus::InFlux {
        lemma_repaired(seen);
    }
}

} // verus!
