//! Byte layout of the log header.
//!
//! Every header field is stored little-endian at a fixed offset and is read
//! and written byte by byte, so the region needs no particular alignment.
use vstd::prelude::*;

verus! {

broadcast use vstd::slice::group_slice_axioms;

/// Value of `magic` in a formatted region.
pub const LOG_MAGIC_V1: u32 = 0x12aab766;

/// Number of bytes the header occupies at the start of the region.
pub const HEADER_SIZE: usize = 20;

/// Offset of the `magic` field.
pub const MAGIC_AT: usize = 0;

/// Offset of the `length` field.
pub const LENGTH_AT: usize = 4;

/// Offset of the `epoch` field.
pub const EPOCH_AT: usize = 8;

/// Offset of the `head` field.
pub const HEAD_AT: usize = 16;

/// Offset of the `head_check` field.
pub const HEAD_CHECK_AT: usize = 18;

/// The 16-bit little-endian value stored at `at`.
pub open spec fn get_u16(r: Seq<u8>, at: int) -> u16 {
    (r[at] as int + 0x100 * (r[at + 1] as int)) as u16
}

/// The 32-bit little-endian value stored at `at`.
pub open spec fn get_u32(r: Seq<u8>, at: int) -> u32 {
    (get_u16(r, at) as int + 0x1_0000 * (get_u16(r, at + 2) as int)) as u32
}

/// The 64-bit little-endian value stored at `at`.
pub open spec fn get_u64(r: Seq<u8>, at: int) -> u64 {
    (get_u32(r, at) as int + 0x1_0000_0000 * (get_u32(r, at + 4) as int)) as u64
}

/// `r` with `v` stored little-endian in the two bytes at `at`.
pub open spec fn put_u16(r: Seq<u8>, at: int, v: u16) -> Seq<u8> {
    r.update(at, (v % 0x100) as u8).update(at + 1, (v / 0x100) as u8)
}

/// `r` with `v` stored little-endian in the four bytes at `at`.
pub open spec fn put_u32(r: Seq<u8>, at: int, v: u32) -> Seq<u8> {
    put_u16(put_u16(r, at, (v % 0x1_0000) as u16), at + 2, (v / 0x1_0000) as u16)
}

/// `r` with `v` stored little-endian in the eight bytes at `at`.
pub open spec fn put_u64(r: Seq<u8>, at: int, v: u64) -> Seq<u8> {
    put_u32(put_u32(r, at, (v % 0x1_0000_0000) as u32), at + 4, (v / 0x1_0000_0000) as u32)
}

/// A stored 16-bit value reads back, and no other byte moves.
pub proof fn lemma_put_u16(r: Seq<u8>, at: int, v: u16)
    requires
        0 <= at,
        at + 2 <= r.len(),
    ensures
        put_u16(r, at, v).len() == r.len(),
        get_u16(put_u16(r, at, v), at) == v,
        forall|i: int| 0 <= i < r.len() && !(at <= i < at + 2) ==> put_u16(r, at, v)[i] == r[i],
{
}

/// A stored 32-bit value reads back, and no other byte moves.
pub proof fn lemma_put_u32(r: Seq<u8>, at: int, v: u32)
    requires
        0 <= at,
        at + 4 <= r.len(),
    ensures
        put_u32(r, at, v).len() == r.len(),
        get_u32(put_u32(r, at, v), at) == v,
        forall|i: int| 0 <= i < r.len() && !(at <= i < at + 4) ==> put_u32(r, at, v)[i] == r[i],
{
    let lo: u16 = (v % 0x1_0000) as u16;
    let hi: u16 = (v / 0x1_0000) as u16;
    let mid = put_u16(r, at, lo);
    lemma_put_u16(r, at, lo);
    lemma_put_u16(mid, at + 2, hi);
}

/// A stored 64-bit value reads back, and no other byte moves.
pub proof fn lemma_put_u64(r: Seq<u8>, at: int, v: u64)
    requires
        0 <= at,
        at + 8 <= r.len(),
    ensures
        put_u64(r, at, v).len() == r.len(),
        get_u64(put_u64(r, at, v), at) == v,
        forall|i: int| 0 <= i < r.len() && !(at <= i < at + 8) ==> put_u64(r, at, v)[i] == r[i],
{
    let lo: u32 = (v % 0x1_0000_0000) as u32;
    let hi: u32 = (v / 0x1_0000_0000) as u32;
    let mid = put_u32(r, at, lo);
    lemma_put_u32(r, at, lo);
    lemma_put_u32(mid, at + 4, hi);
    assert(get_u32(put_u32(mid, at + 4, hi), at) == get_u32(mid, at));
}

/// Reads the 16-bit value at `at`.
pub fn load_u16(region: &[u8], at: usize) -> (v: u16)
    requires
        at + 2 <= region.len(),
    ensures
        v == get_u16(region@, at as int),
{
    let lo: u16 = region[at] as u16;
    let hi: u16 = region[at + 1] as u16;
    lo + 0x100 * hi
}

/// Reads the 32-bit value at `at`.
pub fn load_u32(region: &[u8], at: usize) -> (v: u32)
    requires
        at + 4 <= region.len(),
    ensures
        v == get_u32(region@, at as int),
{
    let lo: u32 = load_u16(region, at) as u32;
    let hi: u32 = load_u16(region, at + 2) as u32;
    lo + 0x1_0000 * hi
}

/// Reads the 64-bit value at `at`.
pub fn load_u64(region: &[u8], at: usize) -> (v: u64)
    requires
        at + 8 <= region.len(),
    ensures
        v == get_u64(region@, at as int),
{
    let lo: u64 = load_u32(region, at) as u64;
    let hi: u64 = load_u32(region, at + 4) as u64;
    lo + 0x1_0000_0000 * hi
}

/// Stores `v` in the two bytes at `at`.
pub fn store_u16(region: &mut [u8], at: usize, v: u16)
    requires
        at + 2 <= old(region).len(),
    ensures
        final(region)@ == put_u16(old(region)@, at as int, v),
{
    region[at] = (v % 0x100) as u8;
    region[at + 1] = (v / 0x100) as u8;
}

/// Stores `v` in the four bytes at `at`.
pub fn store_u32(region: &mut [u8], at: usize, v: u32)
    requires
        at + 4 <= old(region).len(),
    ensures
        final(region)@ == put_u32(old(region)@, at as int, v),
{
    store_u16(region, at, (v % 0x1_0000) as u16);
    store_u16(region, at + 2, (v / 0x1_0000) as u16);
}

/// Stores `v` in the eight bytes at `at`.
pub fn store_u64(region: &mut [u8], at: usize, v: u64)
    requires
        at + 8 <= old(region).len(),
    ensures
        final(region)@ == put_u64(old(region)@, at as int, v),
{
    store_u32(region, at, (v % 0x1_0000_0000) as u32);
    store_u32(region, at + 4, (v / 0x1_0000_0000) as u32);
}

} // verus!
