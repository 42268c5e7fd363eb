//! What readers hold: cursors into the ring, the entries a read hands out,
//! and the ways a read or an append can fail.
use vstd::prelude::*;

verus! {

broadcast use vstd::slice::group_slice_axioms;

/// A position in a log: the next entry to read.
///
/// A cursor borrows nothing from the log. It can be copied, stored and sent
/// elsewhere, and it goes stale once the log leaves the epoch it names.
#[derive(Clone, Copy, Debug, PartialEq, Eq, Hash, Structural)]
pub struct Cursor {
    /// Epoch of the log when the cursor was made.
    pub epoch: u64,
    /// Offset in the data area of the frame to read next.
    pub index: u16,
}

impl Cursor {
    /// A cursor for offset `index` in epoch `epoch`, such as one that was
    /// stored earlier.
    pub fn new(epoch: u64, index: u16) -> (c: Cursor)
        ensures
            c == (Cursor { epoch, index }),
    {
        Cursor { epoch, index }
    }
}

/// Why a read produced no entry.
#[derive(Clone, Copy, Debug, PartialEq, Eq, Structural)]
pub enum ReadError {
    /// The cursor names another epoch than the log is in: what it pointed at
    /// may have been overwritten.
    StaleCursor,
    /// No frame that ends at or before `head` starts where the cursor points.
    CorruptFrame,
}

/// Why an append wrote nothing.
#[derive(Clone, Copy, Debug, PartialEq, Eq, Structural)]
pub enum AppendError {
    /// The entry with its length prefix is larger than the data area.
    Capacity,
}

/// The payload of one entry, borrowed from the region of the log.
///
/// An entry whose frame runs over the end of the ring lies in two stretches
/// of the region; the payload is the first followed by the second.
#[derive(Clone, Copy, Debug)]
pub struct Entry<'a> {
    first: &'a [u8],
    second: &'a [u8],
}

impl<'a> View for Entry<'a> {
    type V = Seq<u8>;

    closed spec fn view(&self) -> Seq<u8> {
        self.first@ + self.second@
    }
}

impl<'a> Entry<'a> {
    /// No payload is longer than a 16-bit length prefix can announce.
    #[verifier::type_invariant]
    spec fn short_enough(&self) -> bool {
        self.first@.len() + self.second@.len() <= 0xffff
    }

    /// The entry whose payload is `first` followed by `second`.
    pub(crate) fn from_parts(first: &'a [u8], second: &'a [u8]) -> (e: Self)
        requires
            first@.len() + second@.len() <= 0xffff,
        ensures
            e@ == first@ + second@,
    {
        Entry { first, second }
    }

    /// Number of payload bytes.
    pub fn len(&self) -> (n: usize)
        ensures
            n == self@.len(),
    {
        proof {
            use_type_invariant(self);
        }
        self.first.len() + self.second.len()
    }

    /// The payload byte at `i`.
    pub fn byte(&self, i: usize) -> (b: u8)
        requires
            i < self@.len(),
        ensures
            b == self@[i as int],
    {
        if i < self.first.len() {
            self.first[i]
        } else {
            self.second[i - self.first.len()]
        }
    }

    /// The two stretches of the region that make up the payload, in order.
    pub fn as_slices(&self) -> (parts: (&'a [u8], &'a [u8]))
        ensures
            parts.0@ + parts.1@ == self@,
    {
        (self.first, self.second)
    }

    /// The payload, copied out of the region.
    pub fn to_vec(&self) -> (v: Vec<u8>)
        ensures
            v@ == self@,
    {
        let mut v: Vec<u8> = Vec::new();
        let mut i: usize = 0;
        while i < self.first.len()
            invariant
                0 <= i <= self.first.len(),
                v@ == self.first@.take(i as int),
            decreases self.first.len() - i,
        {
            v.push(self.first[i]);
            i = i + 1;
            assert(v@ =~= self.first@.take(i as int));
        }
        assert(self.first@.take(i as int) =~= self.first@);
        let mut j: usize = 0;
        while j < self.second.len()
            invariant
                0 <= j <= self.second.len(),
                v@ == self.first@ + self.second@.take(j as int),
            decreases self.second.len() - j,
        {
            v.push(self.second[j]);
            j = j + 1;
            assert(v@ =~= self.first@ + self.second@.take(j as int));
        }
        assert(self.second@.take(j as int) =~= self.second@);
        v
    }
}

} // verus!
