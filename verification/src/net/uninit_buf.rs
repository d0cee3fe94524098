//! A write-only, fixed-capacity byte sink: filled front-to-back, then read back as the written prefix
//! via [`filled`](UninitBuf::filled). A write past the capacity is a short write, letting the caller
//! treat "did not fit" as a signal rather than silently truncating. Reuse across messages with
//! [`clear`](UninitBuf::clear).

use vstd::prelude::*;

use crate::ascii;
use crate::net::stream_buffer::Overflow;

verus! {

/// A fixed-capacity byte sink over lazily-allocated storage. Its view is the bytes written.
pub struct UninitBuf {
    storage: Vec<u8>,
    capacity: usize,
}

impl View for UninitBuf {
    type V = Seq<u8>;

    closed spec fn view(&self) -> Seq<u8> {
        self.storage@
    }
}

impl UninitBuf {
    /// No more is written than fits.
    pub closed spec fn wf(self) -> bool {
        self.storage@.len() <= self.capacity
    }

    /// How many bytes it can hold.
    pub closed spec fn cap(self) -> nat {
        self.capacity as nat
    }

    /// Holds at most `cap` bytes. The store is allocated on the first write, so an unused buffer
    /// costs nothing.
    pub fn with_capacity(cap: usize) -> (r: Self)
        ensures
            r.wf(),
            r.cap() == cap,
            r@ == Seq::<u8>::empty(),
    {
        UninitBuf { storage: Vec::new(), capacity: cap }
    }

    /// Discard the written bytes (keeping the allocation) to build the next message.
    pub fn clear(&mut self)
        requires
            old(self).wf(),
        ensures
            final(self).wf(),
            final(self).cap() == old(self).cap(),
            final(self)@ == Seq::<u8>::empty(),
    {
        self.storage.clear();
    }

    /// The bytes written since the last [`clear`](Self::clear).
    pub fn filled(&self) -> (r: &[u8])
        ensures
            r@ == self@,
    {
        self.storage.as_slice()
    }

    /// Write as much of `data` as fits; how many bytes that is.
    pub fn write(&mut self, data: &[u8]) -> (n: usize)
        requires
            old(self).wf(),
        ensures
            final(self).wf(),
            final(self).cap() == old(self).cap(),
            n <= data@.len(),
            n < data@.len() ==> final(self)@.len() == old(self).cap(),
            final(self)@ == old(self)@ + data@.take(n as int),
    {
        let free: usize = self.capacity - self.storage.len();
        let n: usize = if data.len() <= free {
            data.len()
        } else {
            free
        };
        self.storage.extend_from_slice(ascii::take(data, n));
        assert(self@ =~= old(self)@ + data@.take(n as int));
        n
    }

    /// Write `data`; an [`Overflow`] where only the first bytes of it fit.
    pub fn write_all(&mut self, data: &[u8]) -> (r: Result<(), Overflow>)
        requires
            old(self).wf(),
        ensures
            final(self).wf(),
            final(self).cap() == old(self).cap(),
            r is Ok <==> old(self)@.len() + data@.len() <= old(self).cap(),
            r is Ok ==> final(self)@ == old(self)@ + data@,
            r is Err ==> final(self)@ == old(self)@ + data@.take(
                old(self).cap() - old(self)@.len(),
            ),
    {
        let n: usize = self.write(data);
        assert(data@.take(data@.len() as int) =~= data@);
        if n == data.len() {
            Ok(())
        } else {
            Err(Overflow)
        }
    }
}

} // verus!
