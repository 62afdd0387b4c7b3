//! The byte sink that an encoder writes its frames to.

use core::convert::Infallible;
use vstd::prelude::*;

verus! {

/// A destination for bytes.
///
/// Contracts see a sink through two ghost logs. `written` is every byte the
/// sink has accepted, in order: a write that succeeds extends it by exactly
/// the bytes handed over. `failures` is every error the sink has reported: a
/// write that fails adds its error, and nothing is promised of `written`
/// after it. A sink that is `reliable` never fails.
pub trait Sink {
    /// What the sink reports when it cannot take the bytes.
    type Error;

    /// Every byte accepted so far, in order.
    spec fn written(&self) -> Seq<u8>;

    /// Every error reported so far, in order.
    spec fn failures(&self) -> Seq<Self::Error>;

    /// Holds of a sink that never reports an error.
    spec fn reliable(&self) -> bool;

    /// Hands `data` to the sink, which takes all of it or fails.
    fn write_all(&mut self, data: &[u8]) -> (r: Result<(), Self::Error>)
        ensures
            match r {
                Ok(()) => {
                    &&& (*final(self)).written() == (*old(self)).written() + data@
                    &&& (*final(self)).failures() == (*old(self)).failures()
                },
                Err(error) => (*final(self)).failures() == (*old(self)).failures().push(error),
            },
            (*old(self)).reliable() ==> r is Ok && (*final(self)).reliable(),
    ;
}

/// What a sink shows of writes that all succeeded: it took exactly `bytes`,
/// behind what it held, and reported no error.
pub open spec fn took<W: Sink>(before: W, after: W, bytes: Seq<u8>) -> bool {
    &&& after.written() == before.written() + bytes
    &&& after.failures() == before.failures()
}

/// What a sink shows of writes that stopped at the first failure: it
/// reported `error`, and no other error.
pub open spec fn refused<W: Sink>(before: W, after: W, error: W::Error) -> bool {
    after.failures() == before.failures().push(error)
}

/// A growable in-memory buffer takes every byte and never fails.
impl Sink for Vec<u8> {
    type Error = Infallible;

    open spec fn written(&self) -> Seq<u8> {
        self@
    }

    open spec fn failures(&self) -> Seq<Infallible> {
        Seq::empty()
    }

    open spec fn reliable(&self) -> bool {
        true
    }

    fn write_all(&mut self, data: &[u8]) -> (r: Result<(), Infallible>) {
        self.extend_from_slice(data);
        Ok(())
    }
}

/// The error of a [`Bounded`] sink: the bytes did not fit.
#[derive(Debug)]
pub struct Full;

/// An in-memory sink with room for a fixed number of bytes. A write that fits
/// is taken whole; one that does not is refused whole, and leaves the sink as
/// it was.
pub struct Bounded {
    bytes: Vec<u8>,
    limit: usize,
    refused: Ghost<Seq<Full>>,
}

impl Bounded {
    /// The number of bytes the sink has room for in all.
    pub closed spec fn capacity(&self) -> nat {
        self.limit as nat
    }

    /// An empty sink with room for `limit` bytes.
    pub fn new(limit: usize) -> (sink: Bounded)
        ensures
            sink.written() == Seq::<u8>::empty(),
            sink.failures() == Seq::<Full>::empty(),
            sink.capacity() == limit,
    {
        Bounded { bytes: Vec::new(), limit, refused: Ghost(Seq::empty()) }
    }

    /// The bytes taken so far.
    pub fn as_slice(&self) -> (bytes: &[u8])
        ensures
            bytes@ == self.written(),
    {
        self.bytes.as_slice()
    }
}

impl Sink for Bounded {
    type Error = Full;

    closed spec fn written(&self) -> Seq<u8> {
        self.bytes@
    }

    closed spec fn failures(&self) -> Seq<Full> {
        self.refused@
    }

    open spec fn reliable(&self) -> bool {
        false
    }

    fn write_all(&mut self, data: &[u8]) -> (r: Result<(), Full>)
        ensures
            final(self).capacity() == old(self).capacity(),
            r is Ok <==> (*old(self)).written().len() + data@.len() <= old(self).capacity(),
            r is Err ==> (*final(self)).written() == (*old(self)).written(),
    {
        if self.bytes.len() > self.limit || data.len() > self.limit - self.bytes.len() {
            self.refused = Ghost(self.refused@.push(Full));
            return Err(Full);
        }
        self.bytes.extend_from_slice(data);
        Ok(())
    }
}

/// A borrowed sink is a sink: bytes written through the borrow reach the
/// sink behind it.
impl<S: Sink> Sink for &mut S {
    type Error = S::Error;

    open spec fn written(&self) -> Seq<u8> {
        (**self).written()
    }

    open spec fn failures(&self) -> Seq<S::Error> {
        (**self).failures()
    }

    open spec fn reliable(&self) -> bool {
        (**self).reliable()
    }

    fn write_all(&mut self, data: &[u8]) -> (r: Result<(), S::Error>) {
        (**self).write_all(data)
    }
}

} // verus!
