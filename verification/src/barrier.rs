//! The flush barrier: what the log asks of the memory it writes to.
use vstd::prelude::*;

verus! {

/// Makes earlier writes to the region last before later ones are issued.
///
/// The log calls the barrier wherever the order in which its writes reach
/// the memory matters, and hands it the region as it stands at that moment.
/// What has to be done is a matter of the machine: nothing, a fence, a flush
/// of the cache lines that hold the region.
///
/// A barrier keeps, in `seen`, the record of the calls made of it. The log
/// promises its order of writes in terms of that record, and the record
/// grows by a call of `cache_flush` and in no other way. A barrier that is
/// verified defines `seen` and shows that each call adds to it. One that is
/// written outside verified code defines `cache_flush` alone.
pub trait FlushBarrier {
    /// The states of the region that the barrier has been called with,
    /// oldest first.
    open spec fn seen(&self) -> Seq<Seq<u8>> {
        Seq::empty()
    }

    /// Returns once every write made to `region` so far will survive a reset.
    fn cache_flush(&mut self, region: &[u8])
        ensures
            final(self).seen() == old(self).seen().push(region@),
    ;
}

/// The barrier for memory that needs none: every write lasts as it is made.
pub struct NoFlush {
    seen: Ghost<Seq<Seq<u8>>>,
}

impl NoFlush {
    /// A barrier that has not been called yet.
    pub fn new() -> (barrier: Self)
        ensures
            barrier.seen() == Seq::<Seq<u8>>::empty(),
    {
        NoFlush { seen: Ghost(Seq::empty()) }
    }
}

impl FlushBarrier for NoFlush {
    closed spec fn seen(&self) -> Seq<Seq<u8>> {
        self.seen@
    }

    fn cache_flush(&mut self, region: &[u8]) {
        self.seen = Ghost(self.seen@.push(region@));
    }
}

} // verus!
