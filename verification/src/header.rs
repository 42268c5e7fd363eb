//! The log header: its fields, how they are found in a region, and when a
//! stored header can be trusted.
use vstd::prelude::*;
use crate::layout::{
    get_u16, get_u32, get_u64, put_u16, put_u32, put_u64, load_u16, load_u32, load_u64,
    lemma_put_u16, lemma_put_u32, lemma_put_u64, LOG_MAGIC_V1, HEADER_SIZE, MAGIC_AT, LENGTH_AT,
    EPOCH_AT, HEAD_AT, HEAD_CHECK_AT,
};

verus! {

broadcast use vstd::slice::group_slice_axioms;

/// Largest number of data bytes a log uses: `head` is a 16-bit offset.
pub const MAX_CAPACITY: usize = 0xffff;

/// The decoded header of a region.
#[derive(Clone, Copy, Debug, PartialEq, Eq, Structural)]
pub struct LogHeader {
    /// `LOG_MAGIC_V1` once the region is formatted.
    pub magic: u32,
    /// Length in bytes of the region the header was written for.
    pub length: u32,
    /// Generation of the ring; steps by one each time `head` wraps.
    pub epoch: u64,
    /// Offset in the data area at which the next entry will be written.
    pub head: u16,
    /// Bitwise complement of `head`.
    pub head_check: u16,
}

/// What a look at a stored header finds.
#[derive(Clone, Copy, Debug, PartialEq, Eq, Structural)]
pub enum HeaderStatus {
    /// Magic, length and head are good and `head_check` matches `head`.
    Valid,
    /// Magic, length and head are good but `head_check` does not match
    /// `head`: an update of the pair was cut short.
    InFlux,
    /// `magic` is not `LOG_MAGIC_V1`.
    BadMagic,
    /// `length` is not the length of the region.
    LengthMismatch,
    /// `head` lies outside the data area.
    HeadOutOfRange,
}

/// Bitwise complement of a 16-bit value, written arithmetically.
pub open spec fn complement(v: u16) -> u16 {
    (0xffff - v) as u16
}

/// `complement` is the bitwise `!`.
pub proof fn lemma_complement_is_not(v: u16)
    ensures
        complement(v) == !v,
        complement(complement(v)) == v,
{
    assert(!v == 0xffffu16 - v) by (bit_vector);
}

/// The header stored in the first bytes of `r`.
pub open spec fn header_of(r: Seq<u8>) -> LogHeader {
    LogHeader {
        magic: get_u32(r, MAGIC_AT as int),
        length: get_u32(r, LENGTH_AT as int),
        epoch: get_u64(r, EPOCH_AT as int),
        head: get_u16(r, HEAD_AT as int),
        head_check: get_u16(r, HEAD_CHECK_AT as int),
    }
}

/// Number of data bytes a region of `len` bytes offers the ring.
pub open spec fn capacity_of(len: nat) -> int {
    if len < HEADER_SIZE {
        0
    } else if len - HEADER_SIZE > MAX_CAPACITY {
        MAX_CAPACITY as int
    } else {
        len - HEADER_SIZE
    }
}

/// Whether `head` is an offset inside a data area of `capacity_of(len)` bytes.
pub open spec fn head_in_range(len: nat, head: u16) -> bool {
    head == 0 || head < capacity_of(len)
}

/// The verdict on the header stored in `r`.
pub open spec fn status_of(r: Seq<u8>) -> HeaderStatus {
    let h = header_of(r);
    if h.magic != LOG_MAGIC_V1 {
        HeaderStatus::BadMagic
    } else if h.length != r.len() {
        HeaderStatus::LengthMismatch
    } else if !head_in_range(r.len(), h.head) {
        HeaderStatus::HeadOutOfRange
    } else if h.head_check != complement(h.head) {
        HeaderStatus::InFlux
    } else {
        HeaderStatus::Valid
    }
}

/// Whether `status` is one on which a log that is opened formats the region.
pub open spec fn calls_for_format(status: HeaderStatus) -> bool {
    status != HeaderStatus::Valid && status != HeaderStatus::InFlux
}

/// Whether `r` can back a log at all: room for the header, and a length the
/// header can record.
pub open spec fn region_fits(r: Seq<u8>) -> bool {
    HEADER_SIZE <= r.len() <= u32::MAX
}

/// `r` with `magic` set to `v`.
pub open spec fn with_magic(r: Seq<u8>, v: u32) -> Seq<u8> {
    put_u32(r, MAGIC_AT as int, v)
}

/// `r` with `length` set to `v`.
pub open spec fn with_length(r: Seq<u8>, v: u32) -> Seq<u8> {
    put_u32(r, LENGTH_AT as int, v)
}

/// `r` with `epoch` set to `v`.
pub open spec fn with_epoch(r: Seq<u8>, v: u64) -> Seq<u8> {
    put_u64(r, EPOCH_AT as int, v)
}

/// `r` with `head` set to `v`.
pub open spec fn with_head(r: Seq<u8>, v: u16) -> Seq<u8> {
    put_u16(r, HEAD_AT as int, v)
}

/// `r` with `head_check` set to `v`.
pub open spec fn with_head_check(r: Seq<u8>, v: u16) -> Seq<u8> {
    put_u16(r, HEAD_CHECK_AT as int, v)
}

/// Whether `a` and `b` have the same length and the same bytes after the
/// header.
pub open spec fn same_data(a: Seq<u8>, b: Seq<u8>) -> bool {
    &&& a.len() == b.len()
    &&& forall|i: int| HEADER_SIZE <= i < a.len() ==> a[i] == b[i]
}

/// Writing `magic` changes that field and nothing else.
pub proof fn lemma_with_magic(r: Seq<u8>, v: u32)
    requires
        HEADER_SIZE <= r.len(),
    ensures
        header_of(with_magic(r, v)) == (LogHeader { magic: v, ..header_of(r) }),
        same_data(with_magic(r, v), r),
{
    lemma_put_u32(r, MAGIC_AT as int, v);
}

/// Writing `length` changes that field and nothing else.
pub proof fn lemma_with_length(r: Seq<u8>, v: u32)
    requires
        HEADER_SIZE <= r.len(),
    ensures
        header_of(with_length(r, v)) == (LogHeader { length: v, ..header_of(r) }),
        same_data(with_length(r, v), r),
{
    lemma_put_u32(r, LENGTH_AT as int, v);
}

/// Writing `epoch` changes that field and nothing else.
pub proof fn lemma_with_epoch(r: Seq<u8>, v: u64)
    requires
        HEADER_SIZE <= r.len(),
    ensures
        header_of(with_epoch(r, v)) == (LogHeader { epoch: v, ..header_of(r) }),
        same_data(with_epoch(r, v), r),
{
    lemma_put_u64(r, EPOCH_AT as int, v);
}

/// Writing `head` changes that field and nothing else.
pub proof fn lemma_with_head(r: Seq<u8>, v: u16)
    requires
        HEADER_SIZE <= r.len(),
    ensures
        header_of(with_head(r, v)) == (LogHeader { head: v, ..header_of(r) }),
        same_data(with_head(r, v), r),
{
    lemma_put_u16(r, HEAD_AT as int, v);
}

/// Writing `head_check` changes that field and nothing else.
pub proof fn lemma_with_head_check(r: Seq<u8>, v: u16)
    requires
        HEADER_SIZE <= r.len(),
    ensures
        header_of(with_head_check(r, v)) == (LogHeader { head_check: v, ..header_of(r) }),
        same_data(with_head_check(r, v), r),
{
    lemma_put_u16(r, HEAD_CHECK_AT as int, v);
}

/// Decodes the header at the start of `region`.
pub fn load_header(region: &[u8]) -> (h: LogHeader)
    requires
        HEADER_SIZE <= region.len(),
    ensures
        h == header_of(region@),
{
    LogHeader {
        magic: load_u32(region, MAGIC_AT),
        length: load_u32(region, LENGTH_AT),
        epoch: load_u64(region, EPOCH_AT),
        head: load_u16(region, HEAD_AT),
        head_check: load_u16(region, HEAD_CHECK_AT),
    }
}

/// Number of data bytes the ring in a region of `len` bytes uses.
pub fn capacity_for(len: usize) -> (cap: usize)
    ensures
        cap == capacity_of(len as nat),
{
    if len < HEADER_SIZE {
        0
    } else if len - HEADER_SIZE > MAX_CAPACITY {
        MAX_CAPACITY
    } else {
        len - HEADER_SIZE
    }
}

/// Judges the header stored at the start of `region`.
pub fn inspect(region: &[u8]) -> (status: HeaderStatus)
    requires
        HEADER_SIZE <= region.len(),
    ensures
        status == status_of(region@),
{
    let h: LogHeader = load_header(region);
    let cap: usize = capacity_for(region.len());
    if h.magic != LOG_MAGIC_V1 {
        HeaderStatus::BadMagic
    } else if h.length as usize != region.len() {
        HeaderStatus::LengthMismatch
    } else if h.head != 0 && h.head as usize >= cap {
        HeaderStatus::HeadOutOfRange
    } else if h.head_check != !h.head {
        proof {
            lemma_complement_is_not(h.head);
        }
        HeaderStatus::InFlux
    } else {
        proof {
            lemma_complement_is_not(h.head);
        }
        HeaderStatus::Valid
    }
}

} // verus!
