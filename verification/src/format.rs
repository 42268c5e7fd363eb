//! What becomes of a region when a log is opened on it: a header that can be
//! trusted stays, one whose `head` pair was cut short is mended, and any
//! other is written anew.
//!
//! A region is formatted in three steps with a barrier between them: `magic`
//! is taken down, the other fields are written, and `magic` is put up again.
use vstd::prelude::*;
use crate::layout::LOG_MAGIC_V1;
use crate::header::{
    LogHeader, HeaderStatus, header_of, status_of, region_fits, complement, same_data, with_magic,
    with_length, with_epoch, with_head, with_head_check, lemma_with_magic, lemma_with_length,
    lemma_with_epoch, lemma_with_head, lemma_with_head_check,
};

verus! {

/// First step of formatting: `r` with its magic taken down.
pub open spec fn unpublished(r: Seq<u8>) -> Seq<u8> {
    with_magic(r, 0)
}

/// Second step of formatting: every field but `magic` describes an empty log
/// of epoch `epoch` on a region as long as `r`.
pub open spec fn prepared(r: Seq<u8>, epoch: u64) -> Seq<u8> {
    with_head_check(
        with_head(with_length(with_epoch(unpublished(r), epoch), r.len() as u32), 0),
        0xffff,
    )
}

/// Last step of formatting: the prepared header with its magic put up.
pub open spec fn formatted(r: Seq<u8>, epoch: u64) -> Seq<u8> {
    with_magic(prepared(r, epoch), LOG_MAGIC_V1)
}

/// The epoch a region is formatted with when `potential_epoch` is offered:
/// its high 32 bits. The low 32 bits start at zero and count the wraps.
pub open spec fn format_epoch(potential_epoch: u64) -> u64 {
    (potential_epoch - potential_epoch % 0x1_0000_0000) as u64
}

/// `r` with `head_check` made to match `head` again.
pub open spec fn repaired(r: Seq<u8>) -> Seq<u8> {
    with_head_check(r, complement(header_of(r).head))
}

/// The region a log opened on `r` works with.
pub open spec fn recovered(r: Seq<u8>, potential_epoch: u64) -> Seq<u8> {
    match status_of(r) {
        HeaderStatus::Valid => r,
        HeaderStatus::InFlux => repaired(r),
        _ => formatted(r, format_epoch(potential_epoch)),
    }
}

/// The states of the region at the barriers of formatting, in order.
pub open spec fn format_flushes(r: Seq<u8>, epoch: u64) -> Seq<Seq<u8>> {
    seq![unpublished(r), prepared(r, epoch)]
}

/// The states of the region at the barriers that opening a log on `r` calls.
pub open spec fn init_flushes(r: Seq<u8>, potential_epoch: u64) -> Seq<Seq<u8>> {
    match status_of(r) {
        HeaderStatus::Valid => Seq::empty(),
        HeaderStatus::InFlux => Seq::empty(),
        _ => format_flushes(r, format_epoch(potential_epoch)),
    }
}

/// The header of an empty log of epoch `epoch` on a region of `len` bytes.
pub open spec fn fresh_header(len: nat, epoch: u64) -> LogHeader {
    LogHeader { magic: LOG_MAGIC_V1, length: len as u32, epoch, head: 0, head_check: 0xffff }
}

/// The steps of formatting, field by field.
pub proof fn lemma_format_steps(r: Seq<u8>, epoch: u64)
    requires
        region_fits(r),
    ensures
        header_of(unpublished(r)) == (LogHeader { magic: 0, ..header_of(r) }),
        same_data(unpublished(r), r),
        header_of(prepared(r, epoch)) == (LogHeader { magic: 0, ..fresh_header(r.len(), epoch) }),
        same_data(prepared(r, epoch), r),
        header_of(formatted(r, epoch)) == fresh_header(r.len(), epoch),
        same_data(formatted(r, epoch), r),
        status_of(formatted(r, epoch)) == HeaderStatus::Valid,
{
    let r0 = unpublished(r);
    lemma_with_magic(r, 0);
    let r1 = with_epoch(r0, epoch);
    lemma_with_epoch(r0, epoch);
    let r2 = with_length(r1, r.len() as u32);
    lemma_with_length(r1, r.len() as u32);
    let r3 = with_head(r2, 0);
    lemma_with_head(r2, 0);
    let r4 = with_head_check(r3, 0xffff);
    lemma_with_head_check(r3, 0xffff);
    lemma_with_magic(r4, LOG_MAGIC_V1);
}

/// Mending the `head` pair touches `head_check` alone and leaves a header
/// that can be trusted.
pub proof fn lemma_repaired(r: Seq<u8>)
    requires
        region_fits(r),
        status_of(r) == HeaderStatus::InFlux,
    ensures
        header_of(repaired(r)) == (LogHeader {
            head_check: complement(header_of(r).head),
            ..header_of(r)
        }),
        same_data(repaired(r), r),
        status_of(repaired(r)) == HeaderStatus::Valid,
{
    lemma_with_head_check(r, complement(header_of(r).head));
}

/// Whatever the region held, a log opened on it finds a header it can trust,
/// and the data area as it was: a sound header is kept, one whose `head`
/// pair does not match has `head_check` mended from `head`, and any other
/// gives way to the header of an empty log whose epoch is the one offered
/// with its low 32 bits at zero.
pub proof fn lemma_recovered(r: Seq<u8>, potential_epoch: u64)
    requires
        region_fits(r),
    ensures
        region_fits(recovered(r, potential_epoch)),
        status_of(recovered(r, potential_epoch)) == HeaderStatus::Valid,
        same_data(recovered(r, potential_epoch), r),
        header_of(recovered(r, potential_epoch)) == match status_of(r) {
            HeaderStatus::Valid => header_of(r),
            HeaderStatus::InFlux => (LogHeader {
                head_check: complement(header_of(r).head),
                ..header_of(r)
            }),
            _ => fresh_header(r.len(), format_epoch(potential_epoch)),
        },
{
    lemma_format_steps(r, format_epoch(potential_epoch));
    if status_of(r) == HeaderStatus::InFlux {
        lemma_repaired(r);
    }
}

} // verus!
