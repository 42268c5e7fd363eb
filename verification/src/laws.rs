//! What holds of every log: what readers get back, when a cursor goes
//! stale, and how a damaged `head` pair shows.
use vstd::prelude::*;
use crate::header::{
    HeaderStatus, header_of, status_of, region_fits, calls_for_format, capacity_of, complement,
    with_head_check, lemma_with_head_check,
};
use crate::cursor::{Cursor, ReadError};
use crate::format::{
    formatted, fresh_header, format_epoch, recovered, repaired, lemma_format_steps,
    lemma_recovered,
};
use crate::frame::{
    fits, wraps, appended, after_append, next_epoch, read_outcome, has_wrapped, start_cursor,
    end_cursor,
    framed_len, frame_start,
    holds_frames, lemma_appended, lemma_append_extends, lemma_framed_len_nonnegative,
    lemma_read_along,
};

verus! {

/// `r` after `append` was called with each of `entries` in turn.
pub open spec fn appended_all(r: Seq<u8>, entries: Seq<Seq<u8>>) -> Seq<u8>
    decreases entries.len(),
{
    if entries.len() == 0 {
        r
    } else {
        after_append(appended_all(r, entries.drop_last()), entries.last())
    }
}

/// How many of the appends of `entries` to `r`, one by one, succeed and
/// wrap.
pub open spec fn wrap_count(r: Seq<u8>, entries: Seq<Seq<u8>>) -> nat
    decreases entries.len(),
{
    if entries.len() == 0 {
        0
    } else if fits(r, entries.last()) && wraps(
        appended_all(r, entries.drop_last()),
        entries.last(),
    ) {
        wrap_count(r, entries.drop_last()) + 1
    } else {
        wrap_count(r, entries.drop_last())
    }
}

/// The cursor of a reader that stood behind the newest entry of `r` before
/// `entries` were appended and has read `k` of them since.
pub open spec fn cursor_after(r: Seq<u8>, entries: Seq<Seq<u8>>, k: int) -> Cursor {
    Cursor {
        epoch: header_of(r).epoch,
        index: (header_of(r).head + frame_start(entries, k)) as u16,
    }
}

/// Round trip. Entries appended without a wrap come back in the order in
/// which they went in: a reader that starts where `head` stood before the
/// first of them reads each in turn, ends at the new `head`, and finds
/// nothing there. Where the entries went into an empty region that had not
/// wrapped, that reader starts at the start cursor.
pub proof fn lemma_round_trip(r: Seq<u8>, entries: Seq<Seq<u8>>, k: int)
    requires
        region_fits(r),
        status_of(r) == HeaderStatus::Valid,
        header_of(r).head + framed_len(entries) < capacity_of(r.len()),
        0 <= k <= entries.len(),
    ensures
        status_of(appended_all(r, entries)) == HeaderStatus::Valid,
        cursor_after(r, entries, 0) == end_cursor(r),
        header_of(r).head == 0 && !has_wrapped(r) ==> cursor_after(r, entries, 0) == start_cursor(
            appended_all(r, entries),
        ),
        cursor_after(r, entries, entries.len() as int) == end_cursor(appended_all(r, entries)),
        k < entries.len() ==> read_outcome(appended_all(r, entries), cursor_after(r, entries, k))
            == Ok::<Option<(Seq<u8>, Cursor)>, ReadError>(
            Some((entries[k], cursor_after(r, entries, k + 1))),
        ),
        k == entries.len() ==> read_outcome(appended_all(r, entries), cursor_after(r, entries, k))
            == Ok::<Option<(Seq<u8>, Cursor)>, ReadError>(None),
{
    lemma_appended_all(r, entries);
    lemma_read_along(appended_all(r, entries), header_of(r).head as int, entries, k);
    assert(entries.take(0) =~= Seq::<Seq<u8>>::empty());
    assert(entries.take(entries.len() as int) =~= entries);
}

/// Appends that do not wrap lay their frames back to back from the old
/// `head` on and leave the epoch alone.
pub proof fn lemma_appended_all(r: Seq<u8>, entries: Seq<Seq<u8>>)
    requires
        region_fits(r),
        status_of(r) == HeaderStatus::Valid,
        header_of(r).head + framed_len(entries) < capacity_of(r.len()),
    ensures
        region_fits(appended_all(r, entries)),
        status_of(appended_all(r, entries)) == HeaderStatus::Valid,
        appended_all(r, entries).len() == r.len(),
        header_of(appended_all(r, entries)).epoch == header_of(r).epoch,
        header_of(appended_all(r, entries)).head == header_of(r).head + framed_len(entries),
        holds_frames(appended_all(r, entries), header_of(r).head as int, entries),
        wrap_count(r, entries) == 0,
    decreases entries.len(),
{
    if entries.len() > 0 {
        let before = entries.drop_last();
        let last = entries.last();
        lemma_framed_len_nonnegative(before);
        lemma_appended_all(r, before);
        let mid = appended_all(r, before);
        lemma_appended(mid, last);
        lemma_append_extends(mid, header_of(r).head as int, before, last);
        assert(before.push(last) =~= entries);
    }
}

/// From the end. A cursor taken at the end of the log reads nothing until an
/// entry is appended; after one append that does not wrap, the same cursor
/// reads that entry and moves to the new end; after one that is refused it
/// still reads nothing.
pub proof fn lemma_cursor_from_end_waits(r: Seq<u8>, payload: Seq<u8>)
    requires
        region_fits(r),
        status_of(r) == HeaderStatus::Valid,
    ensures
        read_outcome(r, end_cursor(r)) == Ok::<Option<(Seq<u8>, Cursor)>, ReadError>(None),
        fits(r, payload) && !wraps(r, payload) ==> read_outcome(
            after_append(r, payload),
            end_cursor(r),
        ) == Ok::<Option<(Seq<u8>, Cursor)>, ReadError>(
            Some((payload, end_cursor(after_append(r, payload)))),
        ),
        !fits(r, payload) ==> read_outcome(after_append(r, payload), end_cursor(r)) == Ok::<
            Option<(Seq<u8>, Cursor)>,
            ReadError,
        >(None),
{
    if fits(r, payload) && !wraps(r, payload) {
        lemma_appended(r, payload);
    }
}

/// Wrap invalidation. An append that wraps leaves every cursor of the epoch
/// before it stale.
pub proof fn lemma_wrap_makes_stale(r: Seq<u8>, payload: Seq<u8>, c: Cursor)
    requires
        region_fits(r),
        status_of(r) == HeaderStatus::Valid,
        fits(r, payload),
        wraps(r, payload),
        c.epoch == header_of(r).epoch,
    ensures
        header_of(appended(r, payload)).epoch == next_epoch(header_of(r).epoch),
        read_outcome(appended(r, payload), c) == Err::<Option<(Seq<u8>, Cursor)>, ReadError>(
            ReadError::StaleCursor,
        ),
{
    lemma_appended(r, payload);
}

/// The epoch that follows is one more, round the 64-bit range.
pub proof fn lemma_next_epoch(sum: int)
    requires
        0 <= sum,
    ensures
        next_epoch((sum % 0x1_0000_0000_0000_0000) as u64) == (sum + 1) % 0x1_0000_0000_0000_0000,
{
}

/// One append moves the epoch on by one where it wraps, round the 64-bit
/// range, and not at all where it does not.
pub proof fn lemma_epoch_step(r: Seq<u8>, payload: Seq<u8>, sum: int)
    requires
        region_fits(r),
        status_of(r) == HeaderStatus::Valid,
        fits(r, payload),
        0 <= sum,
        header_of(r).epoch == sum % 0x1_0000_0000_0000_0000,
    ensures
        region_fits(appended(r, payload)),
        status_of(appended(r, payload)) == HeaderStatus::Valid,
        appended(r, payload).len() == r.len(),
        wraps(r, payload) ==> header_of(appended(r, payload)).epoch == (sum + 1)
            % 0x1_0000_0000_0000_0000,
        !wraps(r, payload) ==> header_of(appended(r, payload)).epoch == sum
            % 0x1_0000_0000_0000_0000,
{
    let before: u64 = header_of(r).epoch;
    let after: u64 = header_of(appended(r, payload)).epoch;
    assert(region_fits(appended(r, payload)) && status_of(appended(r, payload))
        == HeaderStatus::Valid && appended(r, payload).len() == r.len() && (wraps(r, payload)
        ==> after == next_epoch(before)) && (!wraps(r, payload) ==> after == before)) by {
        lemma_appended(r, payload);
    }
    assert(next_epoch(before) == (sum + 1) % 0x1_0000_0000_0000_0000) by {
        lemma_next_epoch(sum);
    }
}

/// Each wrap moves the epoch on by one, round the 64-bit range.
pub proof fn lemma_epoch_counts_wraps(r: Seq<u8>, entries: Seq<Seq<u8>>)
    requires
        region_fits(r),
        status_of(r) == HeaderStatus::Valid,
    ensures
        region_fits(appended_all(r, entries)),
        status_of(appended_all(r, entries)) == HeaderStatus::Valid,
        appended_all(r, entries).len() == r.len(),
        header_of(appended_all(r, entries)).epoch == (header_of(r).epoch + wrap_count(r, entries))
            % 0x1_0000_0000_0000_0000,
    decreases entries.len(),
{
    if entries.len() > 0 {
        let before = entries.drop_last();
        let last = entries.last();
        lemma_epoch_counts_wraps(r, before);
        if fits(r, last) {
            lemma_epoch_step(
                appended_all(r, before),
                last,
                header_of(r).epoch + wrap_count(r, before),
            );
        }
    }
}

/// Wrap invalidation over any number of appends: as soon as one of them has
/// wrapped, a cursor taken before the first is stale.
pub proof fn lemma_wraps_make_stale(r: Seq<u8>, entries: Seq<Seq<u8>>, c: Cursor)
    requires
        region_fits(r),
        status_of(r) == HeaderStatus::Valid,
        0 < wrap_count(r, entries) < 0x1_0000_0000_0000_0000,
        c.epoch == header_of(r).epoch,
    ensures
        read_outcome(appended_all(r, entries), c) == Err::<Option<(Seq<u8>, Cursor)>, ReadError>(
            ReadError::StaleCursor,
        ),
{
    lemma_epoch_counts_wraps(r, entries);
}

/// A region whose recorded length is not its own is formatted anew when a
/// log is opened on it: `head` is zero, and the epoch is the one offered
/// where that has its low 32 bits at zero, and its high 32 bits in any case.
pub proof fn lemma_length_mismatch_formats(r: Seq<u8>, potential_epoch: u64)
    requires
        region_fits(r),
        header_of(r).length != r.len(),
    ensures
        status_of(r) == HeaderStatus::BadMagic || status_of(r) == HeaderStatus::LengthMismatch,
        recovered(r, potential_epoch) == formatted(r, format_epoch(potential_epoch)),
        header_of(recovered(r, potential_epoch)) == fresh_header(
            r.len(),
            format_epoch(potential_epoch),
        ),
        header_of(recovered(r, potential_epoch)).head == 0,
        potential_epoch % 0x1_0000_0000 == 0 ==> header_of(recovered(r, potential_epoch)).epoch
            == potential_epoch,
{
    lemma_format_steps(r, format_epoch(potential_epoch));
}

/// From the start. In a region that had not wrapped since it was formatted
/// and was appended to, the start cursor is at the start of the ring as long
/// as no append has wrapped, and at `head` once one has, for as many wraps
/// as 32 bits count.
pub proof fn lemma_start_cursor(r: Seq<u8>, entries: Seq<Seq<u8>>)
    requires
        region_fits(r),
        status_of(r) == HeaderStatus::Valid,
        !has_wrapped(r),
    ensures
        wrap_count(r, entries) == 0 ==> start_cursor(appended_all(r, entries)).index == 0,
        0 < wrap_count(r, entries) < 0x1_0000_0000 ==> start_cursor(appended_all(r, entries))
            == end_cursor(appended_all(r, entries)),
{
    let after = appended_all(r, entries);
    let base = header_of(r).epoch as int;
    let count = wrap_count(r, entries) as int;
    assert(header_of(after).epoch == (base + count) % 0x1_0000_0000_0000_0000) by {
        lemma_epoch_counts_wraps(r, entries);
    }
    assert(header_of(after).epoch % 0x1_0000_0000 == count % 0x1_0000_0000) by {
        lemma_low_bits(base, count);
    }
}

/// A region that a log has just formatted has not wrapped.
pub proof fn lemma_formatted_has_not_wrapped(r: Seq<u8>, potential_epoch: u64)
    requires
        region_fits(r),
        calls_for_format(status_of(r)),
    ensures
        !has_wrapped(recovered(r, potential_epoch)),
        start_cursor(recovered(r, potential_epoch)) == end_cursor(recovered(r, potential_epoch)),
{
    lemma_recovered(r, potential_epoch);
}

/// The low 32 bits of a sum round the 64-bit range are those of the sum.
proof fn lemma_low_bits(base: int, count: int)
    requires
        0 <= base,
        0 <= count,
        base % 0x1_0000_0000 == 0,
    ensures
        ((base + count) % 0x1_0000_0000_0000_0000) % 0x1_0000_0000 == count % 0x1_0000_0000,
{
}

/// After an append `head_check` is the complement of `head`.
pub proof fn lemma_head_check_follows_head(r: Seq<u8>, payload: Seq<u8>)
    requires
        region_fits(r),
        status_of(r) == HeaderStatus::Valid,
        fits(r, payload),
    ensures
        header_of(appended(r, payload)).head_check == complement(
            header_of(appended(r, payload)).head,
        ),
{
    lemma_appended(r, payload);
}

/// A `head_check` that was damaged while all else is sound shows when the
/// header is judged, and opening a log on the region puts back what was
/// there.
pub proof fn lemma_damaged_check_shows(r: Seq<u8>, damaged: u16, potential_epoch: u64)
    requires
        region_fits(r),
        status_of(r) == HeaderStatus::Valid,
        damaged != header_of(r).head_check,
    ensures
        status_of(with_head_check(r, damaged)) == HeaderStatus::InFlux,
        recovered(with_head_check(r, damaged), potential_epoch) == r,
{
    let bad = with_head_check(r, damaged);
    lemma_with_head_check(r, damaged);
    let mended = repaired(bad);
    lemma_with_head_check(bad, complement(header_of(bad).head));
    assert(mended =~= r);
}

} // verus!
