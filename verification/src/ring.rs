//! The data area as a ring: bytes are addressed by an offset that runs from
//! zero to the capacity and then starts over.
use vstd::prelude::*;
use vstd::slice::slice_subrange;
use crate::layout::HEADER_SIZE;
use crate::header::{capacity_of, capacity_for};

verus! {

broadcast use vstd::slice::group_slice_axioms;

/// Folds an offset that ran at most one lap past the end back into the ring.
pub open spec fn wrap(cap: int, pos: int) -> int {
    if pos >= cap {
        pos - cap
    } else {
        pos
    }
}

/// How many bytes lie between `from` and `to`, walking forward round the ring.
pub open spec fn ring_distance(cap: int, from: int, to: int) -> int {
    if to >= from {
        to - from
    } else {
        to - from + cap
    }
}

/// The `n` bytes that start at ring offset `at`, in ring order.
#[verifier::opaque]
pub open spec fn ring_get(r: Seq<u8>, at: int, n: nat) -> Seq<u8> {
    let cap = capacity_of(r.len());
    Seq::new(n, |k: int| r[HEADER_SIZE + wrap(cap, at + k)])
}

/// `r` with `bytes` written into the ring from offset `at` onwards.
#[verifier::opaque]
pub open spec fn ring_put(r: Seq<u8>, at: int, bytes: Seq<u8>) -> Seq<u8> {
    let cap = capacity_of(r.len());
    Seq::new(
        r.len(),
        |i: int|
            if HEADER_SIZE <= i < HEADER_SIZE + cap && ring_distance(cap, at, i - HEADER_SIZE)
                < bytes.len() {
                bytes[ring_distance(cap, at, i - HEADER_SIZE)]
            } else {
                r[i]
            },
    )
}

/// The bytes of a stretch of the ring, one by one.
pub proof fn lemma_ring_get(r: Seq<u8>, at: int, n: nat)
    ensures
        ring_get(r, at, n).len() == n,
        forall|k: int|
            0 <= k < n ==> #[trigger] ring_get(r, at, n)[k] == r[HEADER_SIZE + wrap(
                capacity_of(r.len()),
                at + k,
            )],
{
    reveal(ring_get);
}

/// What was put into the ring is what comes out, and no byte outside the
/// written stretch changes: not the header, not the rest of the ring, not
/// what lies behind it.
pub proof fn lemma_ring_put(r: Seq<u8>, at: int, bytes: Seq<u8>)
    requires
        HEADER_SIZE <= r.len(),
        0 <= at < capacity_of(r.len()),
        bytes.len() <= capacity_of(r.len()),
    ensures
        ring_put(r, at, bytes).len() == r.len(),
        ring_get(ring_put(r, at, bytes), at, bytes.len()) == bytes,
        forall|i: int|
            0 <= i < r.len() && !(HEADER_SIZE <= i < HEADER_SIZE + capacity_of(r.len())
                && ring_distance(capacity_of(r.len()), at, i - HEADER_SIZE) < bytes.len())
                ==> #[trigger] ring_put(r, at, bytes)[i] == r[i],
{
    reveal(ring_put);
    reveal(ring_get);
    assert(ring_get(ring_put(r, at, bytes), at, bytes.len()) =~= bytes);
}

/// Writes `bytes` into the ring of `region` from offset `at` onwards.
pub fn ring_store(region: &mut [u8], at: usize, bytes: &[u8])
    requires
        HEADER_SIZE <= old(region).len(),
        at < capacity_of(old(region)@.len()),
        bytes.len() <= capacity_of(old(region)@.len()),
    ensures
        final(region)@ == ring_put(old(region)@, at as int, bytes@),
{
    reveal(ring_put);
    let cap: usize = capacity_for(region.len());
    let ghost before = region@;
    let mut k: usize = 0;
    let mut pos: usize = at;
    assert(region@ =~= ring_put(before, at as int, bytes@.take(0)));
    while k < bytes.len()
        invariant
            HEADER_SIZE <= before.len(),
            region@.len() == before.len(),
            cap == capacity_of(before.len()),
            at < cap,
            bytes.len() <= cap,
            0 <= k <= bytes.len(),
            pos == wrap(cap as int, at + k),
            pos < cap,
            region@ == ring_put(before, at as int, bytes@.take(k as int)),
        decreases bytes.len() - k,
    {
        region[HEADER_SIZE + pos] = bytes[k];
        reveal(ring_put);
        assert(region@ =~= ring_put(before, at as int, bytes@.take(k + 1)));
        k = k + 1;
        pos = if pos + 1 == cap {
            0
        } else {
            pos + 1
        };
    }
    assert(bytes@.take(k as int) =~= bytes@);
}

/// Borrows the `n` ring bytes that start at offset `at`: the stretch up to the
/// end of the ring, and what continues from its start.
pub fn ring_slices(region: &[u8], at: usize, n: usize) -> (parts: (&[u8], &[u8]))
    requires
        HEADER_SIZE <= region.len(),
        at < capacity_of(region@.len()),
        n <= capacity_of(region@.len()),
    ensures
        parts.0@ + parts.1@ == ring_get(region@, at as int, n as nat),
{
    reveal(ring_get);
    let cap: usize = capacity_for(region.len());
    if n <= cap - at {
        let first = slice_subrange(region, HEADER_SIZE + at, HEADER_SIZE + at + n);
        let second = slice_subrange(region, HEADER_SIZE, HEADER_SIZE);
        assert(first@ + second@ =~= ring_get(region@, at as int, n as nat));
        (first, second)
    } else {
        let first = slice_subrange(region, HEADER_SIZE + at, HEADER_SIZE + cap);
        let second = slice_subrange(region, HEADER_SIZE, HEADER_SIZE + (n - (cap - at)));
        assert(first@ + second@ =~= ring_get(region@, at as int, n as nat));
        (first, second)
    }
}

} // verus!
