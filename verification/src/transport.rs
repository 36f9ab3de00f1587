//! The byte-stream capability that carries a connection.
//!
//! The engine performs only sequential byte reads and writes, so the whole
//! requirement on the environment is captured by [`Transport`]: an ordered,
//! reliable, exclusively owned byte stream. The model views a transport as
//! two byte sequences: everything the engine has handed to it
//! ([`Transport::written`]) and everything it will hand to the engine
//! ([`Transport::to_read`]). [`MemoryTransport`] is an in-memory instance
//! used to exercise the engine against fabricated streams.

use vstd::prelude::*;
use crate::error::TransportError;

verus! {

/// An ordered, reliable byte stream with an injectable delay, the one
/// capability the protocol engine needs from its environment.
///
/// A real implementation (a TCP socket, say) may fail any call with a
/// [`TransportError`]; the engine treats every such failure as fatal to the
/// connection. What an implementation may never do is reorder, drop or
/// duplicate bytes, which is what the contracts below state.
pub trait Transport: Sized {
    /// The bytes the engine has successfully handed to this transport so
    /// far, oldest first. An implementation outside the verifier's reach
    /// (a real socket) may leave the default, about which nothing is
    /// known.
    open spec fn written(&self) -> Seq<u8> {
        vstd::pervasive::arbitrary()
    }

    /// The bytes this transport will hand to the engine, next one first.
    open spec fn to_read(&self) -> Seq<u8> {
        vstd::pervasive::arbitrary()
    }

    /// The pauses the engine has asked this transport to observe so far,
    /// in milliseconds, oldest first.
    open spec fn slept(&self) -> Seq<u64> {
        vstd::pervasive::arbitrary()
    }

    /// Writes all of `buf`, or fails without having delivered it.
    fn write_all(&mut self, buf: &[u8]) -> (res: Result<(), TransportError>)
        ensures
            final(self).to_read() == old(self).to_read(),
            final(self).slept() == old(self).slept(),
            res is Ok ==> final(self).written() == old(self).written() + buf@,
    ;

    /// Reads exactly `n` bytes. On success they are the next `n` incoming
    /// bytes; a failure consumes an unspecified amount of the stream.
    fn read_exact(&mut self, n: usize) -> (res: Result<Vec<u8>, TransportError>)
        ensures
            final(self).written() == old(self).written(),
            final(self).slept() == old(self).slept(),
            res is Ok ==> n <= old(self).to_read().len() && res->Ok_0@ == old(self).to_read().take(
                n as int,
            ) && final(self).to_read() == old(self).to_read().skip(n as int),
    ;

    /// Pauses for roughly `millis` milliseconds; exchanges no bytes, and
    /// the pause is recorded.
    fn sleep(&mut self, millis: u64)
        ensures
            final(self).written() == old(self).written(),
            final(self).to_read() == old(self).to_read(),
            final(self).slept() == old(self).slept().push(millis),
    ;
}

/// An in-memory byte stream: reads come from a fixed incoming buffer,
/// writes accumulate in an outgoing buffer, and pauses are recorded
/// without any actual waiting.
pub struct MemoryTransport {
    incoming: Vec<u8>,
    pos: usize,
    outgoing: Vec<u8>,
    pauses: Ghost<Seq<u64>>,
}

impl MemoryTransport {
    pub closed spec fn wf(&self) -> bool {
        self.pos <= self.incoming@.len()
    }

    /// A transport that will deliver exactly `incoming` to the engine.
    pub fn new(incoming: Vec<u8>) -> (t: MemoryTransport)
        ensures
            t.wf(),
            t.to_read() == incoming@,
            t.written() == Seq::<u8>::empty(),
            t.slept() == Seq::<u64>::empty(),
    {
        let t = MemoryTransport {
            incoming,
            pos: 0,
            outgoing: Vec::new(),
            pauses: Ghost(Seq::empty()),
        };
        proof {
            assert(t.to_read() =~= t.incoming@);
        }
        t
    }

    /// The bytes the engine has written so far.
    pub fn outgoing(&self) -> (r: &Vec<u8>)
        ensures
            r@ == self.written(),
    {
        &self.outgoing
    }

    /// The incoming bytes the engine has not consumed yet.
    pub fn remaining(&self) -> (r: usize)
        requires
            self.wf(),
        ensures
            r == self.to_read().len(),
    {
        self.incoming.len() - self.pos
    }
}

impl Transport for MemoryTransport {
    closed spec fn written(&self) -> Seq<u8> {
        self.outgoing@
    }

    closed spec fn to_read(&self) -> Seq<u8> {
        self.incoming@.skip(self.pos as int)
    }

    closed spec fn slept(&self) -> Seq<u64> {
        self.pauses@
    }

    fn write_all(&mut self, buf: &[u8]) -> (res: Result<(), TransportError>)
        ensures
            final(self).wf() == old(self).wf(),
            res is Ok,
    {
        crate::wire::append_bytes(&mut self.outgoing, buf);
        Ok(())
    }

    fn read_exact(&mut self, n: usize) -> (res: Result<Vec<u8>, TransportError>)
        ensures
            final(self).wf() == old(self).wf(),
            old(self).wf() ==> (res is Ok <==> n <= old(self).to_read().len()),
    {
        if n > self.incoming.len() || self.pos > self.incoming.len() - n {
            return Err(TransportError { code: 0 });
        }
        let out = vstd::slice::slice_to_vec(vstd::slice::slice_subrange(
            self.incoming.as_slice(),
            self.pos,
            self.pos + n,
        ));
        self.pos = self.pos + n;
        proof {
            assert(out@ =~= old(self).to_read().take(n as int));
            assert(self.to_read() =~= old(self).to_read().skip(n as int));
        }
        Ok(out)
    }

    fn sleep(&mut self, millis: u64) {
        self.pauses = Ghost(self.pauses@.push(millis));
    }
}

} // verus!
