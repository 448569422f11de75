//! Byte sinks: where a channel writes what it produces.
use crate::error::Error;
use vstd::prelude::*;

verus! {

/// A destination for bytes.
///
/// `written` is everything that the sink has accepted; a successful write
/// appends to it. Once closed, a sink takes no more writes.
pub trait Sink {
    /// The sink's own well-formedness, kept by every operation.
    spec fn inv(&self) -> bool;

    /// The bytes accepted so far.
    spec fn written(&self) -> Seq<u8>;

    spec fn is_closed(&self) -> bool;

    /// Whether every operation of this kind of sink succeeds.
    spec fn infallible() -> bool;

    /// Whether a write of `buf` is sure to succeed in this state.
    spec fn accepts(&self, buf: Seq<u8>) -> bool;

    fn write_all(&mut self, buf: &[u8]) -> (r: Result<(), Error>)
        requires
            old(self).inv(),
            !old(self).is_closed(),
        ensures
            final(self).inv(),
            !final(self).is_closed(),
            Self::infallible() ==> r is Ok,
            old(self).accepts(buf@) ==> r is Ok,
            r is Ok ==> final(self).written() == old(self).written() + buf@,
    ;

    fn flush(&mut self) -> (r: Result<(), Error>)
        requires
            old(self).inv(),
            !old(self).is_closed(),
        ensures
            final(self).inv(),
            !final(self).is_closed(),
            Self::infallible() ==> r is Ok,
            r is Ok ==> final(self).written() == old(self).written(),
    ;
}

/// A sink that must be told that no more bytes follow.
///
/// Closing an outer sink runs its own completion and then, where that
/// succeeded, closes the sink one level further down. Closing again is
/// allowed and does no more work.
pub trait Close: Sink {
    /// Whether the sink's own completion has run; true throughout for a
    /// sink that has none.
    spec fn completed(&self) -> bool;

    fn close(&mut self) -> (r: Result<(), Error>)
        requires
            old(self).inv(),
        ensures
            final(self).inv(),
            Self::infallible() ==> r is Ok,
            r is Ok ==> final(self).completed(),
            r is Ok ==> final(self).written() == old(self).written(),
    ;
}

impl Sink for Vec<u8> {
    open spec fn inv(&self) -> bool {
        true
    }

    open spec fn written(&self) -> Seq<u8> {
        self@
    }

    open spec fn is_closed(&self) -> bool {
        false
    }

    open spec fn infallible() -> bool {
        true
    }

    open spec fn accepts(&self, buf: Seq<u8>) -> bool {
        true
    }

    fn write_all(&mut self, buf: &[u8]) -> (r: Result<(), Error>)
        ensures
            r is Ok,
            final(self)@ == old(self)@ + buf@,
    {
        self.extend_from_slice(buf);
        Ok(())
    }

    fn flush(&mut self) -> (r: Result<(), Error>)
        ensures
            r is Ok,
            *final(self) == *old(self),
    {
        Ok(())
    }
}

/// Closing a vector only ends the stream; the vector keeps taking writes.
impl Close for Vec<u8> {
    open spec fn completed(&self) -> bool {
        true
    }

    fn close(&mut self) -> (r: Result<(), Error>)
        ensures
            r is Ok,
            *final(self) == *old(self),
    {
        Ok(())
    }
}

/// Gives a sink that has no completion of its own a `close` that flushes.
pub struct NopCloser<W: Sink>(W);

impl<W: Sink> NopCloser<W> {
    pub fn wrap(w: W) -> (r: Self)
        requires
            w.inv(),
            !w.is_closed(),
        ensures
            r.inv(),
            r.written() == w.written(),
            r.get_ref() == w,
    {
        NopCloser(w)
    }

    pub closed spec fn get_ref(&self) -> W {
        self.0
    }

    pub fn into_inner(self) -> (r: W)
        ensures
            r == self.get_ref(),
    {
        self.0
    }
}

impl<W: Sink> Sink for NopCloser<W> {
    closed spec fn inv(&self) -> bool {
        self.0.inv() && !self.0.is_closed()
    }

    closed spec fn written(&self) -> Seq<u8> {
        self.0.written()
    }

    open spec fn is_closed(&self) -> bool {
        false
    }

    open spec fn infallible() -> bool {
        W::infallible()
    }

    closed spec fn accepts(&self, buf: Seq<u8>) -> bool {
        self.0.accepts(buf)
    }

    fn write_all(&mut self, buf: &[u8]) -> (r: Result<(), Error>) {
        self.0.write_all(buf)
    }

    fn flush(&mut self) -> (r: Result<(), Error>) {
        self.0.flush()
    }
}

impl<W: Sink> Close for NopCloser<W> {
    open spec fn completed(&self) -> bool {
        true
    }

    fn close(&mut self) -> (r: Result<(), Error>) {
        self.0.flush()
    }
}

} // verus!
