//! Byte sinks and byte sources.
//!
//! A sink accepts bytes and remembers, as a mathematical sequence, every byte
//! it has accepted. A source hands out the bytes of a fixed sequence front to
//! back. Both may transfer fewer bytes than asked for; the helpers in this
//! module loop until the whole request is served.

use vstd::prelude::*;
use vstd::slice::slice_subrange;

verus! {

/// The largest number of bytes asked for in one read when the amount wanted is
/// not known in advance.
pub const READ_SIZE: usize = 65536;

/// A destination for bytes.
pub trait ByteSink {
    /// What the sink was set up with and no write changes.
    type Settings;

    /// The representation invariant of the sink.
    spec fn inv(&self) -> bool;

    /// The settings of this sink.
    spec fn settings(&self) -> Self::Settings;

    /// Every byte accepted so far, in order.
    spec fn stream(&self) -> Seq<u8>;

    /// Accepts a non-empty prefix of `buf` (nothing if `buf` is empty) and
    /// returns its length.
    fn write(&mut self, buf: &[u8]) -> (n: usize)
        requires
            old(self).inv(),
        ensures
            final(self).inv(),
            final(self).settings() == old(self).settings(),
            n <= buf@.len(),
            buf@.len() > 0 ==> n > 0,
            final(self).stream() == old(self).stream() + buf@.take(n as int),
    ;
}

/// An origin of bytes.
pub trait ByteSource {
    /// The representation invariant of the source.
    spec fn inv(&self) -> bool;

    /// The bytes that have not been read yet, in order.
    spec fn remaining(&self) -> Seq<u8>;

    /// Reads at most `max` bytes from the front of the remaining bytes.
    /// The result is empty only if `max` is zero or nothing remains.
    fn read(&mut self, max: usize) -> (out: Vec<u8>)
        requires
            old(self).inv(),
        ensures
            final(self).inv(),
            out@.len() <= max,
            out@.len() <= old(self).remaining().len(),
            out@ == old(self).remaining().take(out@.len() as int),
            final(self).remaining() == old(self).remaining().skip(out@.len() as int),
            out@.len() == 0 <==> (max == 0 || old(self).remaining().len() == 0),
    ;
}

/// A vector is a sink without bounds: it takes every write whole.
impl ByteSink for Vec<u8> {
    type Settings = ();

    open spec fn inv(&self) -> bool {
        true
    }

    open spec fn settings(&self) -> () {
        ()
    }

    open spec fn stream(&self) -> Seq<u8> {
        self@
    }

    fn write(&mut self, buf: &[u8]) -> (n: usize)
        ensures
            n == buf@.len(),
    {
        self.extend_from_slice(buf);
        assert(buf@.take(buf@.len() as int) =~= buf@);
        buf.len()
    }
}

/// A source that reads a vector front to back. A read gives as many bytes
/// as are asked for, or all that remain if they are fewer.
pub struct MemoryReader {
    bytes: Vec<u8>,
    position: usize,
}

impl MemoryReader {
    /// The bytes being read.
    pub closed spec fn bytes(&self) -> Seq<u8> {
        self.bytes@
    }

    /// The number of bytes read so far.
    pub closed spec fn position(&self) -> int {
        self.position as int
    }

    /// A reader at the start of `bytes`.
    pub fn new(bytes: Vec<u8>) -> (reader: Self)
        ensures
            reader.inv(),
            reader.bytes() == bytes@,
            reader.position() == 0,
    {
        MemoryReader { bytes, position: 0 }
    }
}

impl ByteSource for MemoryReader {
    open spec fn inv(&self) -> bool {
        0 <= self.position() <= self.bytes().len()
    }

    open spec fn remaining(&self) -> Seq<u8> {
        self.bytes().skip(self.position())
    }

    fn read(&mut self, max: usize) -> (out: Vec<u8>)
        ensures
            final(self).bytes() == old(self).bytes(),
            out@.len() == if max <= old(self).remaining().len() {
                max as int
            } else {
                old(self).remaining().len() as int
            },
            final(self).position() == old(self).position() + out@.len(),
    {
        let left: usize = self.bytes.len() - self.position;
        let n: usize = if max <= left {
            max
        } else {
            left
        };
        let mut out: Vec<u8> = Vec::new();
        out.extend_from_slice(
            slice_subrange(self.bytes.as_slice(), self.position, self.position + n),
        );
        proof {
            let from = self.position();
            assert(out@ =~= self.bytes().skip(from).take(n as int));
            assert(self.bytes().skip(from).skip(n as int) =~= self.bytes().skip(from + n));
        }
        self.position = self.position + n;
        out
    }
}

/// Writes all of `buf` to `sink`, repeating short writes until done.
pub fn write_all<W: ByteSink>(sink: &mut W, buf: &[u8])
    requires
        old(sink).inv(),
    ensures
        final(sink).inv(),
        final(sink).settings() == old(sink).settings(),
        final(sink).stream() == old(sink).stream() + buf@,
{
    let mut done: usize = 0;
    while done < buf.len()
        invariant
            done <= buf@.len(),
            sink.inv(),
            sink.settings() == old(sink).settings(),
            sink.stream() == old(sink).stream() + buf@.take(done as int),
        decreases buf@.len() - done,
    {
        let rest = slice_subrange(buf, done, buf.len());
        let n: usize = sink.write(rest);
        assert(buf@.take(done as int) + rest@.take(n as int) =~= buf@.take(done + n));
        done = done + n;
    }
    assert(buf@.take(done as int) =~= buf@);
}

/// Reads exactly `size` bytes from `source`, repeating short reads until
/// done. If fewer than `size` bytes remain, reads them all and returns them
/// as the error.
pub fn read_exact<R: ByteSource>(source: &mut R, size: usize) -> (out: Result<Vec<u8>, Vec<u8>>)
    requires
        old(source).inv(),
    ensures
        final(source).inv(),
        out is Ok <==> size <= old(source).remaining().len(),
        out is Ok ==> out->Ok_0@ == old(source).remaining().take(size as int),
        out is Ok ==> final(source).remaining() == old(source).remaining().skip(size as int),
        out is Err ==> out->Err_0@ == old(source).remaining(),
        out is Err ==> final(source).remaining() == Seq::<u8>::empty(),
{
    let mut bytes: Vec<u8> = Vec::new();
    while bytes.len() < size
        invariant
            source.inv(),
            bytes@.len() <= size,
            bytes@.len() <= old(source).remaining().len(),
            bytes@ == old(source).remaining().take(bytes@.len() as int),
            source.remaining() == old(source).remaining().skip(bytes@.len() as int),
        decreases size - bytes@.len(),
    {
        let ghost left = source.remaining();
        let chunk: Vec<u8> = source.read(size - bytes.len());
        if chunk.len() == 0 {
            assert(source.remaining() =~= Seq::<u8>::empty());
            assert(bytes@ =~= old(source).remaining());
            return Err(bytes);
        }
        bytes.extend_from_slice(chunk.as_slice());
        proof {
            let all = old(source).remaining();
            assert(bytes@ =~= all.take(bytes@.len() as int));
            assert(left.skip(chunk@.len() as int) =~= all.skip(bytes@.len() as int));
        }
    }
    Ok(bytes)
}

/// Reads everything that remains in `source`.
pub fn read_to_end<R: ByteSource>(source: &mut R) -> (out: Vec<u8>)
    requires
        old(source).inv(),
    ensures
        final(source).inv(),
        out@ == old(source).remaining(),
        final(source).remaining() == Seq::<u8>::empty(),
{
    let mut bytes: Vec<u8> = Vec::new();
    loop
        invariant
            source.inv(),
            bytes@.len() <= old(source).remaining().len(),
            bytes@ == old(source).remaining().take(bytes@.len() as int),
            source.remaining() == old(source).remaining().skip(bytes@.len() as int),
        ensures
            source.inv(),
            bytes@ == old(source).remaining(),
            source.remaining() == Seq::<u8>::empty(),
        decreases old(source).remaining().len() - bytes@.len(),
    {
        let ghost left = source.remaining();
        let chunk: Vec<u8> = source.read(READ_SIZE);
        if chunk.len() == 0 {
            proof {
                let all = old(source).remaining();
                assert(bytes@ =~= all);
                assert(source.remaining() =~= Seq::<u8>::empty());
            }
            break ;
        }
        bytes.extend_from_slice(chunk.as_slice());
        proof {
            let all = old(source).remaining();
            assert(bytes@ =~= all.take(bytes@.len() as int));
            assert(left.skip(chunk@.len() as int) =~= all.skip(bytes@.len() as int));
        }
    }
    bytes
}

} // verus!
