//! A fixed-capacity byte buffer with a FIFO cursor pair: appended or written at the back, consumed
//! from the front. It holds one direction of a proxied TCP stream, and the reused scratch a rewritten
//! SSDP datagram is built in. The backing store is allocated on first use, so a buffer that never
//! fills never allocates. Capacity is fixed: an [`append`](StreamBuffer::append) past it is an
//! [`Overflow`] (the proxy drops-and-closes rather than let a stuck peer pin unbounded memory), a
//! [`write`](StreamBuffer::write) past it is a short write.

use vstd::prelude::*;

use crate::ascii;

verus! {

/// From [`StreamBuffer::append`] when the data will not fit even after reclaiming the consumed
/// prefix, and from [`StreamBuffer::write_all`] when some of it did not.
#[derive(Clone, Copy, PartialEq, Eq, Structural, Debug)]
pub struct Overflow;

/// A bounded FIFO byte buffer: append at `filled`, consume from `consumed`, live bytes in between.
/// Its view is the live bytes.
pub struct StreamBuffer {
    /// `None` until the first write; `capacity` bytes once set.
    storage: Option<Vec<u8>>,
    capacity: usize,
    filled: usize,
    /// The live region is `storage[consumed..filled]`.
    consumed: usize,
}

impl View for StreamBuffer {
    type V = Seq<u8>;

    closed spec fn view(&self) -> Seq<u8> {
        match self.storage {
            Some(storage) => storage@.subrange(self.consumed as int, self.filled as int),
            None => Seq::empty(),
        }
    }
}

impl StreamBuffer {
    /// The cursors are in order, and nothing is filled before the store is there.
    pub closed spec fn wf(self) -> bool {
        &&& self.consumed <= self.filled <= self.capacity
        &&& match self.storage {
            Some(storage) => storage@.len() == self.capacity,
            None => self.filled == 0,
        }
    }

    /// How many live bytes it can hold.
    pub closed spec fn cap(self) -> nat {
        self.capacity as nat
    }

    /// How much space there is behind the live bytes without moving them.
    pub closed spec fn spare(self) -> nat {
        (self.capacity - self.filled) as nat
    }

    /// How much space there is behind the live bytes once `n` more stand there: they are moved to the
    /// front only where the space does not do.
    pub open spec fn spare_after(self, n: nat) -> nat {
        if n <= self.spare() {
            (self.spare() - n) as nat
        } else {
            (self.cap() - self@.len() - n) as nat
        }
    }

    /// The free space at the back, once there is a store.
    pub closed spec fn tail(self) -> Seq<u8> {
        match self.storage {
            Some(storage) => storage@.skip(self.filled as int),
            None => Seq::empty(),
        }
    }

    /// Holds at most `cap` live bytes.
    pub fn with_capacity(cap: usize) -> (r: Self)
        ensures
            r.wf(),
            r.cap() == cap,
            r.spare() == cap,
            r@ == Seq::<u8>::empty(),
    {
        StreamBuffer { storage: None, capacity: cap, filled: 0, consumed: 0 }
    }

    /// The live bytes: written, not yet consumed.
    pub fn pending(&self) -> (r: &[u8])
        requires
            self.wf(),
        ensures
            r@ == self@,
    {
        match &self.storage {
            Some(storage) => &storage.as_slice()[self.consumed..self.filled],
            None => &[],
        }
    }

    pub fn len(&self) -> (r: usize)
        requires
            self.wf(),
        ensures
            r == self@.len(),
    {
        self.filled - self.consumed
    }

    pub fn is_empty(&self) -> (r: bool)
        requires
            self.wf(),
        ensures
            r == (self@.len() == 0),
    {
        self.filled == self.consumed
    }

    /// No more than the capacity is ever live.
    pub proof fn lemma_bounded(self)
        requires
            self.wf(),
        ensures
            self@.len() <= self.cap() <= usize::MAX,
    {
    }

    /// Append `data` whole, reclaiming the consumed prefix first if the tail cannot hold it. `Err`
    /// (buffer unchanged) if the live bytes plus `data` would exceed capacity.
    pub fn append(&mut self, data: &[u8]) -> (r: Result<(), Overflow>)
        requires
            old(self).wf(),
        ensures
            final(self).wf(),
            final(self).cap() == old(self).cap(),
            old(self)@.len() + data@.len() <= old(self).cap() ==> r is Ok && final(self)@ == old(
                self,
            )@ + data@ && final(self).spare() == old(self).spare_after(data@.len()),
            old(self)@.len() + data@.len() > old(self).cap() ==> r is Err && *final(self) == *old(
                self,
            ),
    {
        if data.len() > self.capacity - self.len() {
            return Err(Overflow);
        }
        self.push(data);
        Ok(())
    }

    /// The free space at the back, to receive into in place; [`commit`](Self::commit) marks how many
    /// bytes landed. Reclaims the consumed prefix first when the tail is exhausted, so the whole
    /// spare capacity is offered as one slice. Empty only when full of live bytes: the caller then
    /// holds an unframable, over-long message.
    pub fn free_tail_mut(&mut self) -> (r: &mut [u8])
        requires
            old(self).wf(),
        ensures
            r@.len() == if old(self).spare() > 0 {
                old(self).spare()
            } else {
                (old(self).cap() - old(self)@.len()) as nat
            },
            r@.len() == 0 <==> old(self)@.len() == old(self).cap(),
            r@.len() <= old(self).cap() - old(self)@.len(),
            final(r)@.len() == r@.len() ==> {
                &&& final(self).wf()
                &&& final(self).cap() == old(self).cap()
                &&& final(self)@ == old(self)@
                &&& final(self).tail() == final(r)@
                &&& final(self).spare() == r@.len()
            },
    {
        if self.filled == self.capacity && self.consumed > 0 {
            self.compact();
        }
        self.allocate();
        let filled: usize = self.filled;
        let storage = self.storage.as_mut().unwrap();
        let (_live, tail) = storage.as_mut_slice().split_at_mut(filled);
        tail
    }

    /// Allocate the store, if it is not there yet.
    fn allocate(&mut self)
        requires
            old(self).wf(),
        ensures
            final(self).wf(),
            final(self).storage is Some,
            final(self)@ == old(self)@,
            final(self).capacity == old(self).capacity,
            final(self).filled == old(self).filled,
            final(self).consumed == old(self).consumed,
            old(self).storage is Some ==> *final(self) == *old(self),
    {
        if self.storage.is_none() {
            self.storage = Some(vec![0u8; self.capacity]);
            assert(self@ =~= old(self)@);
        }
    }

    /// Slide the live bytes to the front, dropping the consumed prefix.
    fn compact(&mut self)
        requires
            old(self).wf(),
        ensures
            final(self).wf(),
            final(self)@ == old(self)@,
            final(self).capacity == old(self).capacity,
            final(self).consumed == 0,
            final(self).filled == old(self)@.len(),
    {
        let from: usize = self.consumed;
        let n: usize = self.filled - self.consumed;
        if let Some(storage) = &mut self.storage {
            let ghost whole = storage@;
            let mut i: usize = 0;
            while i < n
                invariant
                    i <= n,
                    from + n <= whole.len() <= usize::MAX,
                    storage@.len() == whole.len(),
                    forall|j: int| 0 <= j < i ==> storage@[j] == whole[from + j],
                    forall|j: int| i <= j < whole.len() ==> storage@[j] == whole[j],
                decreases n - i,
            {
                let b: u8 = storage[from + i];
                storage.set(i, b);
                i += 1;
            }
        }
        self.filled = n;
        self.consumed = 0;
        assert(self@ =~= old(self)@);
    }

    /// Copy `data`, which the caller has checked fits, to the back.
    fn push(&mut self, data: &[u8])
        requires
            old(self).wf(),
            old(self)@.len() + data@.len() <= old(self).cap(),
        ensures
            final(self).wf(),
            final(self).cap() == old(self).cap(),
            final(self)@ == old(self)@ + data@,
            final(self).spare() == old(self).spare_after(data@.len()),
    {
        if data.len() == 0 {
            // Do not force the allocation for nothing.
            assert(self@ =~= old(self)@ + data@);
            return;
        }
        if data.len() > self.capacity - self.filled {
            self.compact();
        }
        self.allocate();
        let filled: usize = self.filled;
        let ghost live = self@;
        let ghost from: int = self.consumed as int;
        if let Some(storage) = &mut self.storage {
            let ghost whole = storage@;
            let mut i: usize = 0;
            while i < data.len()
                invariant
                    i <= data@.len(),
                    filled + data@.len() <= whole.len() <= usize::MAX,
                    storage@.len() == whole.len(),
                    forall|j: int| 0 <= j < filled ==> storage@[j] == whole[j],
                    forall|j: int| 0 <= j < i ==> storage@[filled + j] == data@[j],
                decreases data@.len() - i,
            {
                storage.set(filled + i, data[i]);
                i += 1;
            }
        }
        self.filled = filled + data.len();
        assert(self@ =~= live + data@);
    }

    /// Mark `n` bytes received into [`free_tail_mut`](Self::free_tail_mut) as live.
    pub fn commit(&mut self, n: usize)
        requires
            old(self).wf(),
            n <= old(self).tail().len(),
        ensures
            final(self).wf(),
            final(self).cap() == old(self).cap(),
            final(self)@ == old(self)@ + old(self).tail().take(n as int),
            final(self).tail() == old(self).tail().skip(n as int),
            final(self).spare() == old(self).spare() - n,
    {
        if self.storage.is_some() {
            self.filled = self.filled + n;
        }
        assert(self@ =~= old(self)@ + old(self).tail().take(n as int));
        assert(self.tail() =~= old(self).tail().skip(n as int));
    }

    /// Drop the first `n` live bytes. Both cursors reset to the front once the buffer empties, so a
    /// fully-drained buffer offers its whole capacity again.
    pub fn consume(&mut self, n: usize)
        requires
            old(self).wf(),
            n <= old(self)@.len(),
        ensures
            final(self).wf(),
            final(self).cap() == old(self).cap(),
            final(self)@ == old(self)@.skip(n as int),
            final(self).spare() == (if n == old(self)@.len() {
                old(self).cap()
            } else {
                old(self).spare()
            }),
    {
        self.consumed = self.consumed + n;
        if self.consumed == self.filled {
            self.consumed = 0;
            self.filled = 0;
        }
        assert(self@ =~= old(self)@.skip(n as int));
    }

    /// Drop every byte (keeping the allocation), to build the next message from the front.
    pub fn clear(&mut self)
        requires
            old(self).wf(),
        ensures
            final(self).wf(),
            final(self).cap() == old(self).cap(),
            final(self).spare() == old(self).cap(),
            final(self)@ == Seq::<u8>::empty(),
    {
        self.filled = 0;
        self.consumed = 0;
        assert(self@ =~= Seq::<u8>::empty());
    }

    /// Append as much of `data` as fits; how many bytes that is.
    pub fn write(&mut self, data: &[u8]) -> (n: usize)
        requires
            old(self).wf(),
        ensures
            final(self).wf(),
            final(self).cap() == old(self).cap(),
            n <= data@.len(),
            n < data@.len() ==> final(self)@.len() == old(self).cap(),
            final(self)@ == old(self)@ + data@.take(n as int),
            final(self).spare() == old(self).spare_after(n as nat),
    {
        let free: usize = self.capacity - self.len();
        let n: usize = if data.len() <= free {
            data.len()
        } else {
            free
        };
        self.push(ascii::take(data, n));
        n
    }

    /// Append `data`; an [`Overflow`] where only the first bytes of it fit.
    pub fn write_all(&mut self, data: &[u8]) -> (r: Result<(), Overflow>)
        requires
            old(self).wf(),
        ensures
            final(self).wf(),
            final(self).cap() == old(self).cap(),
            r is Ok <==> old(self)@.len() + data@.len() <= old(self).cap(),
            r is Ok ==> final(self)@ == old(self)@ + data@,
            r is Err ==> final(self)@ == old(self)@ + data@.take(
                old(self).cap() - old(self)@.len(),
            ),
    {
        proof {
            self.lemma_bounded();
        }
        let n: usize = self.write(data);
        proof {
            self.lemma_bounded();
        }
        assert(data@.take(data@.len() as int) =~= data@);
        if n == data.len() {
            Ok(())
        } else {
            Err(Overflow)
        }
    }
}

/// Bytes leave in the order in which they came: consuming from what was live before an append is
/// consuming before that append.
pub proof fn law_consume_and_append_commute(live: Seq<u8>, data: Seq<u8>, n: int)
    requires
        0 <= n <= live.len(),
    ensures
        (live + data).skip(n) == live.skip(n) + data,
{
    assert((live + data).skip(n) =~= live.skip(n) + data);
}

/// Consuming everything that was live leaves exactly what was appended behind it.
pub proof fn law_appended_bytes_come_out_whole(live: Seq<u8>, data: Seq<u8>)
    ensures
        (live + data).skip(live.len() as int) == data,
{
    assert((live + data).skip(live.len() as int) =~= data);
}

/// More bytes take the space behind the live ones where it does, and else all the space there is.
pub proof fn law_what_space_is_left(b: StreamBuffer, n: nat)
    requires
        b.wf(),
        b@.len() + n <= b.cap(),
    ensures
        n <= b.spare() ==> b.spare_after(n) + n == b.spare(),
        n > b.spare() ==> b.spare_after(n) + n + b@.len() == b.cap(),
        b@.len() + b.spare() <= b.cap(),
{
}

} // verus!
