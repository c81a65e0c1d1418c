//! Records and spans over one byte stream.
//!
//! A record is a payload preceded by its length as four little-endian bytes.
//! A span is a run of bytes with no framing of its own; whoever reads it
//! knows its length from a record that came before. Records and spans share
//! the stream and its cursor, and neither cares where the sink or the source
//! underneath breaks the stream into pieces.

use vstd::prelude::*;
use vstd::bytes::lemma_auto_spec_u32_to_from_le_bytes;
use vstd::bytes::spec_u32_from_le_bytes;
use vstd::bytes::spec_u32_to_le_bytes;
use byteorder::ByteOrder;
use byteorder::LittleEndian;
use crate::channel::ByteSink;
use crate::channel::ByteSource;
use crate::channel::read_exact;
use crate::channel::write_all;
use crate::operation::decoded;
use crate::operation::payload;
use crate::operation::StorageOperation;

verus! {

/// The number of bytes in the length prefix of a record.
pub const PREFIX_LEN: usize = 4;

/// Why a record or a span could not be written or read.
#[derive(Debug, Clone, Copy, PartialEq, Eq, Structural)]
pub enum StreamError {
    /// A record was to be read and the stream had no byte left.
    EndOfStream,
    /// The stream ended inside a length prefix, a payload or a span.
    Truncated,
    /// A record was read whole and its payload is no operation.
    Malformed,
    /// The payload of a record to be written is longer than a length prefix
    /// can say.
    TooLong,
}

/// The bytes of the record that carries `payload`.
pub open spec fn frame(payload: Seq<u8>) -> Seq<u8>
    recommends
        payload.len() <= u32::MAX,
{
    spec_u32_to_le_bytes(payload.len() as u32) + payload
}

/// The payload length that the first four bytes of `bytes` declare.
pub open spec fn declared_len(bytes: Seq<u8>) -> int
    recommends
        bytes.len() >= 4,
{
    spec_u32_from_le_bytes(bytes.take(4)) as int
}

/// `bytes` begins with a whole record: a length prefix and as many payload
/// bytes as it declares.
pub open spec fn has_record(bytes: Seq<u8>) -> bool {
    bytes.len() >= 4 && bytes.len() - 4 >= declared_len(bytes)
}

/// The payload of the record that `bytes` begins with.
pub open spec fn record_payload(bytes: Seq<u8>) -> Seq<u8>
    recommends
        has_record(bytes),
{
    bytes.subrange(4, 4 + declared_len(bytes))
}

/// What follows the record that `bytes` begins with.
pub open spec fn after_record(bytes: Seq<u8>) -> Seq<u8>
    recommends
        has_record(bytes),
{
    bytes.skip(4 + declared_len(bytes))
}

/// A framed payload is read back as it was written, whatever follows it.
pub proof fn lemma_frame_read_back(payload: Seq<u8>, rest: Seq<u8>)
    requires
        payload.len() <= u32::MAX,
    ensures
        has_record(frame(payload) + rest),
        record_payload(frame(payload) + rest) == payload,
        after_record(frame(payload) + rest) == rest,
{
    lemma_auto_spec_u32_to_from_le_bytes();
    let prefix = spec_u32_to_le_bytes(payload.len() as u32);
    let bytes = frame(payload) + rest;
    assert(bytes.take(4) =~= prefix);
    assert(bytes.subrange(4, 4 + payload.len() as int) =~= payload);
    assert(bytes.skip(4 + payload.len() as int) =~= rest);
}

/// A span can be read in pieces of any sizes: reading `first` bytes and then
/// `second` bytes gives, one after the other, the bytes that one read of
/// `first + second` gives, and leaves the same bytes unread.
pub proof fn lemma_spans_join(bytes: Seq<u8>, first: int, second: int)
    requires
        0 <= first,
        0 <= second,
        first + second <= bytes.len(),
    ensures
        bytes.take(first) + bytes.skip(first).take(second) == bytes.take(first + second),
        bytes.skip(first).skip(second) == bytes.skip(first + second),
{
    assert(bytes.take(first) + bytes.skip(first).take(second) =~= bytes.take(first + second));
    assert(bytes.skip(first).skip(second) =~= bytes.skip(first + second));
}

/// The four bytes that `byteorder` writes for `n` in little-endian order:
/// `LittleEndian::write_u32` into a buffer of four bytes.
#[verifier::external_body]
fn length_prefix(n: u32) -> (bytes: Vec<u8>)
    ensures
        bytes@ == spec_u32_to_le_bytes(n),
{
    let mut bytes = vec![0u8; 4];
    LittleEndian::write_u32(&mut bytes, n);
    bytes
}

/// The number that `byteorder` reads from the first four bytes of `bytes` in
/// little-endian order: `LittleEndian::read_u32`, which needs four bytes.
#[verifier::external_body]
fn prefixed_length(bytes: &[u8]) -> (n: u32)
    requires
        bytes@.len() >= 4,
    ensures
        n == spec_u32_from_le_bytes(bytes@.take(4)),
{
    LittleEndian::read_u32(bytes)
}

/// Writes records and spans to a byte sink.
pub struct StructWriter<W: ByteSink>(W);

impl<W: ByteSink> StructWriter<W> {
    /// The sink underneath.
    pub closed spec fn sink(&self) -> W {
        self.0
    }

    /// The invariant of the sink underneath.
    pub open spec fn inv(&self) -> bool {
        self.sink().inv()
    }

    /// Every byte written so far.
    pub open spec fn stream(&self) -> Seq<u8> {
        self.sink().stream()
    }

    /// A writer that appends to `writer`.
    pub fn new(writer: W) -> (out: Self)
        ensures
            out.sink() == writer,
    {
        StructWriter(writer)
    }

    /// Writes `payload` as one record: its length, then the payload.
    /// A payload too long for the length prefix is refused and nothing is
    /// written.
    pub fn write(&mut self, payload: &[u8]) -> (result: Result<(), StreamError>)
        requires
            old(self).inv(),
        ensures
            final(self).inv(),
            final(self).sink().settings() == old(self).sink().settings(),
            payload@.len() <= u32::MAX ==> result is Ok && final(self).stream() == old(
                self,
            ).stream() + frame(payload@),
            payload@.len() > u32::MAX ==> result == Err::<(), StreamError>(StreamError::TooLong)
                && *final(self) == *old(self),
    {
        if payload.len() > u32::MAX as usize {
            return Err(StreamError::TooLong);
        }
        let prefix: Vec<u8> = length_prefix(payload.len() as u32);
        write_all(&mut self.0, prefix.as_slice());
        write_all(&mut self.0, payload);
        assert(old(self).stream() + prefix@ + payload@ =~= old(self).stream() + frame(payload@));
        Ok(())
    }

    /// Writes `operation` as one record. An operation whose payload is too
    /// long for the length prefix is refused and nothing is written.
    pub fn write_operation(&mut self, operation: &StorageOperation) -> (result: Result<
        (),
        StreamError,
    >)
        requires
            old(self).inv(),
        ensures
            final(self).inv(),
            final(self).sink().settings() == old(self).sink().settings(),
            payload(operation@).len() <= u32::MAX ==> result is Ok && final(self).stream() == old(
                self,
            ).stream() + frame(payload(operation@)),
            payload(operation@).len() > u32::MAX ==> result == Err::<(), StreamError>(
                StreamError::TooLong,
            ) && *final(self) == *old(self),
    {
        let record: Vec<u8> = operation.encode();
        self.write(record.as_slice())
    }

    /// Writes `bytes` as a span, with no framing.
    pub fn write_bytes(&mut self, bytes: &[u8])
        requires
            old(self).inv(),
        ensures
            final(self).inv(),
            final(self).sink().settings() == old(self).sink().settings(),
            final(self).stream() == old(self).stream() + bytes@,
    {
        write_all(&mut self.0, bytes);
    }

    /// Gives up the writer for the sink underneath.
    pub fn into_inner(self) -> (writer: W)
        ensures
            writer == self.sink(),
    {
        self.0
    }
}

/// Reads records and spans from a byte source.
pub struct StructReader<R: ByteSource>(R);

impl<R: ByteSource> StructReader<R> {
    /// The source underneath.
    pub closed spec fn source(&self) -> R {
        self.0
    }

    /// The invariant of the source underneath.
    pub open spec fn inv(&self) -> bool {
        self.source().inv()
    }

    /// The bytes not read yet.
    pub open spec fn remaining(&self) -> Seq<u8> {
        self.source().remaining()
    }

    /// A reader that takes its bytes from `reader`.
    pub fn new(reader: R) -> (out: Self)
        ensures
            out.source() == reader,
    {
        StructReader(reader)
    }

    /// Reads one record and returns its payload. If the stream does not
    /// begin with a whole record, reads it to its end and fails:
    /// with `EndOfStream` if it was empty, else with `Truncated`.
    pub fn next(&mut self) -> (result: Result<Vec<u8>, StreamError>)
        requires
            old(self).inv(),
        ensures
            final(self).inv(),
            has_record(old(self).remaining()) ==> result is Ok && result->Ok_0@ == record_payload(
                old(self).remaining(),
            ) && final(self).remaining() == after_record(old(self).remaining()),
            !has_record(old(self).remaining()) ==> result == Err::<Vec<u8>, StreamError>(
                if old(self).remaining().len() == 0 {
                    StreamError::EndOfStream
                } else {
                    StreamError::Truncated
                },
            ) && final(self).remaining() == Seq::<u8>::empty(),
    {
        let ghost all = self.remaining();
        let prefix: Vec<u8> = match read_exact(&mut self.0, PREFIX_LEN) {
            Ok(prefix) => prefix,
            Err(left) => {
                if left.len() == 0 {
                    return Err(StreamError::EndOfStream);
                }
                return Err(StreamError::Truncated);
            },
        };
        let size: u32 = prefixed_length(prefix.as_slice());
        assert(prefix@.take(4) =~= all.take(4));
        match read_exact(&mut self.0, size as usize) {
            Ok(payload) => {
                assert(all.skip(4).take(size as int) =~= all.subrange(4, 4 + size));
                assert(all.skip(4).skip(size as int) =~= all.skip(4 + size));
                Ok(payload)
            },
            Err(_) => Err(StreamError::Truncated),
        }
    }

    /// Reads one record and returns the operation it carries. Fails as
    /// [`next`](Self::next) does if the stream does not begin with a whole
    /// record, and with `Malformed`, after the record, if its payload is no
    /// operation.
    pub fn next_operation(&mut self) -> (result: Result<StorageOperation, StreamError>)
        requires
            old(self).inv(),
        ensures
            final(self).inv(),
            has_record(old(self).remaining()) ==> final(self).remaining() == after_record(
                old(self).remaining(),
            ) && match decoded(record_payload(old(self).remaining())) {
                Some(operation) => result is Ok && result->Ok_0@ == operation,
                None => result == Err::<StorageOperation, StreamError>(StreamError::Malformed),
            },
            !has_record(old(self).remaining()) ==> result == Err::<StorageOperation, StreamError>(
                if old(self).remaining().len() == 0 {
                    StreamError::EndOfStream
                } else {
                    StreamError::Truncated
                },
            ) && final(self).remaining() == Seq::<u8>::empty(),
    {
        let record: Vec<u8> = match self.next() {
            Ok(record) => record,
            Err(error) => {
                return Err(error);
            },
        };
        match StorageOperation::decode(record.as_slice()) {
            Some(operation) => Ok(operation),
            None => Err(StreamError::Malformed),
        }
    }

    /// Reads a span of exactly `size` bytes. If fewer remain, reads them all
    /// and fails with `Truncated`.
    pub fn next_bytes(&mut self, size: usize) -> (result: Result<Vec<u8>, StreamError>)
        requires
            old(self).inv(),
        ensures
            final(self).inv(),
            size <= old(self).remaining().len() ==> result is Ok && result->Ok_0@ == old(
                self,
            ).remaining().take(size as int) && final(self).remaining() == old(
                self,
            ).remaining().skip(size as int),
            size > old(self).remaining().len() ==> result == Err::<Vec<u8>, StreamError>(
                StreamError::Truncated,
            ) && final(self).remaining() == Seq::<u8>::empty(),
    {
        match read_exact(&mut self.0, size) {
            Ok(bytes) => Ok(bytes),
            Err(_) => Err(StreamError::Truncated),
        }
    }

    /// Gives up the reader for the source underneath.
    pub fn into_inner(self) -> (reader: R)
        ensures
            reader == self.source(),
    {
        self.0
    }
}

} // verus!
