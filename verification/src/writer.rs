//! Sinks that escaping routines append their output to.
use vstd::prelude::*;

verus! {

/// What a writer has been handed: each slice, with the error its write returned,
/// if any.
pub type CallLog<Er> = Seq<(Seq<u8>, Option<Er>)>;

/// The error a write returned, if any.
pub open spec fn outcome<Er>(r: Result<(), Er>) -> Option<Er> {
    match r {
        Ok(_) => None,
        Err(e) => Some(e),
    }
}

/// Sink abstraction that escape routines append output to.
///
/// `written` is the byte sequence the sink holds; a successful write appends
/// exactly the bytes it was given. `calls` records every write: the slice it was
/// handed and the error it returned, if any.
pub trait Writer: Sized {
    /// Error type returned by [`Writer::write_slice`].
    type Error;

    /// The bytes this sink has received so far.
    spec fn written(&self) -> Seq<u8>;

    /// The writes this sink has been handed, in order, with their results.
    spec fn calls(&self) -> CallLog<Self::Error>;

    /// Whether every write to this kind of sink succeeds.
    spec fn infallible() -> bool;

    /// Appends the contents of `src` to the writer.
    fn write_slice(&mut self, src: &[u8]) -> (r: Result<(), Self::Error>)
        ensures
            final(self).calls() == old(self).calls().push((src@, outcome(r))),
            r is Ok ==> final(self).written() == old(self).written() + src@,
            Self::infallible() ==> r is Ok,
    ;

    /// Appends the UTF-8 bytes of `src` to the writer.
    fn write_str(&mut self, src: &str) -> (r: Result<(), Self::Error>)
        ensures
            final(self).calls() == old(self).calls().push((vstd::utf8::encode_utf8(src@), outcome(r))),
            r is Ok ==> final(self).written() == old(self).written() + vstd::utf8::encode_utf8(
                src@,
            ),
            Self::infallible() ==> r is Ok,
    {
        self.write_slice(src.as_bytes())
    }
}

/// [`Writer`] implementation that appends bytes to a vector it owns.
pub struct WriterVec {
    inner: Vec<u8>,
    log: Ghost<CallLog<()>>,
}

impl WriterVec {
    /// A writer that appends to `inner`.
    pub fn new(inner: Vec<u8>) -> (r: Self)
        ensures
            r.written() == inner@,
            r.calls() == Seq::<(Seq<u8>, Option<()>)>::empty(),
    {
        WriterVec { inner, log: Ghost(Seq::empty()) }
    }

    /// Gives the vector back, with everything written appended.
    pub fn into_inner(self) -> (r: Vec<u8>)
        ensures
            r@ == self.written(),
    {
        self.inner
    }
}

impl Writer for WriterVec {
    type Error = ();

    closed spec fn written(&self) -> Seq<u8> {
        self.inner@
    }

    closed spec fn calls(&self) -> CallLog<()> {
        self.log@
    }

    open spec fn infallible() -> bool {
        true
    }

    fn write_slice(&mut self, src: &[u8]) -> (r: Result<(), ()>) {
        self.inner.extend_from_slice(src);
        self.log = Ghost(self.log@.push((src@, None)));
        Ok(())
    }
}

/// [`Writer`] implementation that only counts the bytes it is given, saturating at
/// `usize::MAX`.
pub struct WriterCount {
    count: usize,
    seen: Ghost<Seq<u8>>,
    log: Ghost<CallLog<()>>,
}

impl WriterCount {
    #[verifier::type_invariant]
    spec fn inv(&self) -> bool {
        self.count == if self.seen@.len() <= usize::MAX {
            self.seen@.len() as int
        } else {
            usize::MAX as int
        }
    }

    /// A counter that has seen nothing.
    pub fn new() -> (r: Self)
        ensures
            r.written() == Seq::<u8>::empty(),
            r.calls() == Seq::<(Seq<u8>, Option<()>)>::empty(),
    {
        WriterCount { count: 0, seen: Ghost(Seq::empty()), log: Ghost(Seq::empty()) }
    }

    /// The number of bytes written, or `usize::MAX` when there were more.
    pub fn count(&self) -> (r: usize)
        ensures
            r == if self.written().len() <= usize::MAX {
                self.written().len() as int
            } else {
                usize::MAX as int
            },
    {
        proof {
            use_type_invariant(self);
        }
        self.count
    }
}

impl Writer for WriterCount {
    type Error = ();

    closed spec fn written(&self) -> Seq<u8> {
        self.seen@
    }

    closed spec fn calls(&self) -> CallLog<()> {
        self.log@
    }

    open spec fn infallible() -> bool {
        true
    }

    fn write_slice(&mut self, src: &[u8]) -> (r: Result<(), ()>) {
        proof {
            use_type_invariant(&*self);
        }
        let count = self.count.saturating_add(src.len());
        let seen = Ghost(self.seen@ + src@);
        let log = Ghost(self.log@.push((src@, None)));
        *self = WriterCount { count, seen, log };
        Ok(())
    }
}

/// Writes a string slice using the writer.
pub fn write<W: Writer>(src: &str, writer: &mut W) -> (r: Result<(), W::Error>)
    ensures
        final(writer).calls() == old(writer).calls().push((vstd::utf8::encode_utf8(src@), outcome(r))),
        r is Ok ==> final(writer).written() == old(writer).written() + vstd::utf8::encode_utf8(
            src@,
        ),
        W::infallible() ==> r is Ok,
{
    writer.write_str(src)
}

/// Writes the bytes of `haystack` from `start` up to (excluding) `end`.
pub fn write_slice<W: Writer>(haystack: &[u8], start: usize, end: usize, writer: &mut W) -> (r:
    Result<(), W::Error>)
    requires
        start <= end <= haystack.len(),
    ensures
        final(writer).calls() == old(writer).calls().push(
            (haystack@.subrange(start as int, end as int), outcome(r)),
        ),
        r is Ok ==> final(writer).written() == old(writer).written() + haystack@.subrange(
            start as int,
            end as int,
        ),
        W::infallible() ==> r is Ok,
{
    writer.write_slice(&haystack[start..end])
}

} // verus!
