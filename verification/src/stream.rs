//! Streams: the bytes of a file on their way out of the workspace or into it.
//!
//! A readable stream holds the whole content that its file had when it was
//! opened. A writable stream gathers bytes for one address and touches the
//! workspace only when it is committed, in one step.

use crate::path::PathKey;
use vstd::prelude::*;
use vstd::slice::slice_subrange;

verus! {

/// A copy of `bytes`.
pub fn copy_bytes(bytes: &[u8]) -> (r: Vec<u8>)
    ensures
        r@ == bytes@,
{
    let mut out: Vec<u8> = Vec::with_capacity(bytes.len());
    let mut i: usize = 0;
    while i < bytes.len()
        invariant
            i <= bytes.len(),
            out@ == bytes@.take(i as int),
        decreases bytes.len() - i,
    {
        out.push(bytes[i]);
        proof {
            assert(bytes@.take(i + 1) =~= bytes@.take(i as int).push(bytes@[i as int]));
        }
        i = i + 1;
    }
    proof {
        assert(bytes@.take(bytes.len() as int) =~= bytes@);
    }
    out
}

/// The content of a file as it was when the file was opened, and how much of
/// it was read.
#[derive(Debug)]
pub struct ReadableStream {
    data: Vec<u8>,
    pos: usize,
}

impl ReadableStream {
    #[verifier::type_invariant]
    spec fn well_formed(&self) -> bool {
        self.pos <= self.data.len()
    }

    /// The whole content.
    pub closed spec fn content(&self) -> Seq<u8> {
        self.data@
    }

    /// The number of bytes that were read.
    pub closed spec fn position(&self) -> int {
        self.pos as int
    }

    /// A stream at the start of `data`.
    pub fn new(data: Vec<u8>) -> (s: ReadableStream)
        ensures
            s.content() == data@,
            s.position() == 0,
    {
        ReadableStream { data, pos: 0 }
    }

    /// The number of bytes of the whole content.
    pub fn len(&self) -> (n: usize)
        ensures
            n == self.content().len(),
            self.position() <= n,
    {
        proof {
            use_type_invariant(self);
        }
        self.data.len()
    }

    /// The number of bytes that are left to read.
    pub fn remaining(&self) -> (n: usize)
        ensures
            n == self.content().len() - self.position(),
    {
        proof {
            use_type_invariant(self);
        }
        self.data.len() - self.pos
    }

    /// Reads the next bytes, at most `max` of them; none at the end.
    pub fn read(&mut self, max: usize) -> (bytes: Vec<u8>)
        ensures
            final(self).content() == old(self).content(),
            old(self).position() <= final(self).position() <= old(self).content().len(),
            final(self).position() - old(self).position() == (if max <= old(self).content().len()
                - old(self).position() {
                max as int
            } else {
                old(self).content().len() - old(self).position()
            }),
            bytes@ == old(self).content().subrange(old(self).position(), final(self).position()),
    {
        proof {
            use_type_invariant(&*self);
        }
        let left = self.data.len() - self.pos;
        let count = if max <= left {
            max
        } else {
            left
        };
        let end = self.pos + count;
        let bytes = copy_bytes(slice_subrange(self.data.as_slice(), self.pos, end));
        self.pos = end;
        bytes
    }

    /// Reads all bytes that are left.
    pub fn read_to_end(&mut self) -> (bytes: Vec<u8>)
        ensures
            final(self).content() == old(self).content(),
            final(self).position() == old(self).content().len(),
            bytes@ == old(self).content().skip(old(self).position()),
    {
        proof {
            use_type_invariant(&*self);
        }
        let end = self.data.len();
        let bytes = copy_bytes(slice_subrange(self.data.as_slice(), self.pos, end));
        self.pos = end;
        bytes
    }
}

/// Bytes that are gathered for the file at one address. The workspace sees
/// none of them before the stream is committed.
#[derive(Debug)]
pub struct WritableStream {
    path: PathKey,
    buffer: Vec<u8>,
}

impl WritableStream {
    /// The address that the bytes are gathered for.
    pub closed spec fn target(&self) -> Seq<Seq<char>> {
        self.path@
    }

    /// The bytes gathered so far.
    pub closed spec fn buffered(&self) -> Seq<u8> {
        self.buffer@
    }

    /// A stream for `path` with no bytes yet.
    pub fn new(path: PathKey) -> (s: WritableStream)
        ensures
            s.target() == path@,
            s.buffered() == Seq::<u8>::empty(),
    {
        WritableStream { path, buffer: Vec::new() }
    }

    /// The address that the bytes are gathered for.
    pub fn path(&self) -> (p: &PathKey)
        ensures
            p@ == self.target(),
    {
        &self.path
    }

    /// The number of bytes gathered so far.
    pub fn len(&self) -> (n: usize)
        ensures
            n == self.buffered().len(),
    {
        self.buffer.len()
    }

    /// Gathers `bytes` after those gathered before.
    pub fn write(&mut self, bytes: &[u8])
        ensures
            final(self).target() == old(self).target(),
            final(self).buffered() == old(self).buffered() + bytes@,
    {
        let mut i: usize = 0;
        proof {
            assert(self.buffer@ + bytes@.take(0) =~= self.buffer@);
        }
        while i < bytes.len()
            invariant
                i <= bytes.len(),
                self.path == old(self).path,
                self.buffer@ == old(self).buffer@ + bytes@.take(i as int),
            decreases bytes.len() - i,
        {
            self.buffer.push(bytes[i]);
            proof {
                assert(bytes@.take(i + 1) =~= bytes@.take(i as int).push(bytes@[i as int]));
                assert(self.buffer@ =~= old(self).buffer@ + bytes@.take(i + 1));
            }
            i = i + 1;
        }
        proof {
            assert(bytes@.take(bytes.len() as int) =~= bytes@);
        }
    }

    /// Ends the gathering: the address and the bytes.
    pub fn into_parts(self) -> (parts: (PathKey, Vec<u8>))
        ensures
            parts.0@ == self.target(),
            parts.1@ == self.buffered(),
    {
        (self.path, self.buffer)
    }
}

} // verus!
