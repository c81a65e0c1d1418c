//! The operations that linearise a directory tree, and their payloads.
//!
//! A payload is the `bincode` encoding of an operation with fixed-width
//! little-endian integers: the number of the variant in four bytes, then the
//! fields in order. A name is the length of its UTF-8 bytes in eight bytes,
//! then those bytes; a size is eight bytes. Bytes after the last field are
//! ignored when a payload is decoded.

use vstd::prelude::*;
use vstd::bytes::lemma_auto_spec_u32_to_from_le_bytes;
use vstd::bytes::lemma_auto_spec_u64_to_from_le_bytes;
use vstd::bytes::spec_u32_from_le_bytes;
use vstd::bytes::spec_u32_to_le_bytes;
use vstd::bytes::spec_u64_from_le_bytes;
use vstd::bytes::spec_u64_to_le_bytes;
use vstd::slice::slice_subrange;
use vstd::utf8::decode_utf8;
use vstd::utf8::encode_utf8;
use vstd::utf8::encode_utf8_decode_utf8;
use vstd::utf8::encode_utf8_valid_utf8;
use vstd::utf8::valid_utf8;

verus! {

/// The variant number of [`StorageOperation::EnterDirectory`].
pub const ENTER_DIRECTORY: u32 = 0;

/// The variant number of [`StorageOperation::LeaveDirectory`].
pub const LEAVE_DIRECTORY: u32 = 1;

/// The variant number of [`StorageOperation::CreateFile`].
pub const CREATE_FILE: u32 = 2;

/// The longest UTF-8 name, in bytes, whose operations fit in a record.
pub const MAX_NAME_LEN: usize = 0xffff_ffeb;

/// One step in the linear form of a directory tree.
#[derive(Debug, Clone, PartialEq, Eq)]
pub enum StorageOperation {
    /// A directory scope begins. The field is the leaf name of the directory.
    EnterDirectory(String),
    /// The innermost open directory scope ends.
    LeaveDirectory,
    /// A file of the given leaf name and size. Its content follows the
    /// record as a span of that many bytes.
    CreateFile(String, u64),
}

/// What a [`StorageOperation`] says, over mathematical values.
pub enum OperationView {
    EnterDirectory(Seq<char>),
    LeaveDirectory,
    CreateFile(Seq<char>, u64),
}

impl View for StorageOperation {
    type V = OperationView;

    open spec fn view(&self) -> OperationView {
        match self {
            StorageOperation::EnterDirectory(name) => OperationView::EnterDirectory(name@),
            StorageOperation::LeaveDirectory => OperationView::LeaveDirectory,
            StorageOperation::CreateFile(name, size) => OperationView::CreateFile(name@, *size),
        }
    }
}

/// The bytes of a name in a payload: the length of its UTF-8 form, then that
/// form.
pub open spec fn name_bytes(name: Seq<char>) -> Seq<u8>
    recommends
        encode_utf8(name).len() <= u64::MAX,
{
    spec_u64_to_le_bytes(encode_utf8(name).len() as u64) + encode_utf8(name)
}

/// The name's operations fit in a record.
pub open spec fn name_fits(name: Seq<char>) -> bool {
    encode_utf8(name).len() <= MAX_NAME_LEN
}

/// The payload of `op`.
pub open spec fn payload(op: OperationView) -> Seq<u8> {
    match op {
        OperationView::EnterDirectory(name) => spec_u32_to_le_bytes(ENTER_DIRECTORY) + name_bytes(
            name,
        ),
        OperationView::LeaveDirectory => spec_u32_to_le_bytes(LEAVE_DIRECTORY),
        OperationView::CreateFile(name, size) => spec_u32_to_le_bytes(CREATE_FILE) + name_bytes(
            name,
        ) + spec_u64_to_le_bytes(size),
    }
}

/// The byte length that the first eight bytes of `bytes` declare for a name.
pub open spec fn declared_name_len(bytes: Seq<u8>) -> int
    recommends
        bytes.len() >= 8,
{
    spec_u64_from_le_bytes(bytes.take(8)) as int
}

/// `bytes` begins with a name: a length, and that many bytes of valid UTF-8.
pub open spec fn has_name(bytes: Seq<u8>) -> bool {
    &&& bytes.len() >= 8
    &&& declared_name_len(bytes) <= bytes.len() - 8
    &&& valid_utf8(bytes.subrange(8, 8 + declared_name_len(bytes)))
}

/// The name that `bytes` begins with.
pub open spec fn leading_name(bytes: Seq<u8>) -> Seq<char>
    recommends
        has_name(bytes),
{
    decode_utf8(bytes.subrange(8, 8 + declared_name_len(bytes)))
}

/// What follows the name that `bytes` begins with.
pub open spec fn after_name(bytes: Seq<u8>) -> Seq<u8>
    recommends
        has_name(bytes),
{
    bytes.skip(8 + declared_name_len(bytes))
}

/// The operation that `bytes` is a payload of, if it is one.
pub open spec fn decoded(bytes: Seq<u8>) -> Option<OperationView> {
    if bytes.len() < 4 {
        None
    } else {
        let tag = spec_u32_from_le_bytes(bytes.take(4));
        let fields = bytes.skip(4);
        if tag == ENTER_DIRECTORY {
            if has_name(fields) {
                Some(OperationView::EnterDirectory(leading_name(fields)))
            } else {
                None
            }
        } else if tag == LEAVE_DIRECTORY {
            Some(OperationView::LeaveDirectory)
        } else if tag == CREATE_FILE {
            if has_name(fields) && after_name(fields).len() >= 8 {
                Some(
                    OperationView::CreateFile(
                        leading_name(fields),
                        spec_u64_from_le_bytes(after_name(fields).take(8)),
                    ),
                )
            } else {
                None
            }
        } else {
            None
        }
    }
}

/// A name is read back from its bytes, whatever follows them.
pub proof fn lemma_name_read_back(name: Seq<char>, rest: Seq<u8>)
    requires
        encode_utf8(name).len() <= u64::MAX,
    ensures
        has_name(name_bytes(name) + rest),
        leading_name(name_bytes(name) + rest) == name,
        after_name(name_bytes(name) + rest) == rest,
{
    lemma_auto_spec_u64_to_from_le_bytes();
    encode_utf8_valid_utf8(name);
    encode_utf8_decode_utf8(name);
    let utf8 = encode_utf8(name);
    let bytes = name_bytes(name) + rest;
    assert(bytes.take(8) =~= spec_u64_to_le_bytes(utf8.len() as u64));
    assert(bytes.subrange(8, 8 + utf8.len() as int) =~= utf8);
    assert(bytes.skip(8 + utf8.len() as int) =~= rest);
}

/// An operation is decoded from its payload, whatever follows it.
pub proof fn lemma_payload_decoded(op: OperationView, rest: Seq<u8>)
    requires
        match op {
            OperationView::EnterDirectory(name) => encode_utf8(name).len() <= u64::MAX,
            OperationView::LeaveDirectory => true,
            OperationView::CreateFile(name, _) => encode_utf8(name).len() <= u64::MAX,
        },
    ensures
        decoded(payload(op) + rest) == Some(op),
{
    lemma_auto_spec_u32_to_from_le_bytes();
    lemma_auto_spec_u64_to_from_le_bytes();
    let bytes = payload(op) + rest;
    match op {
        OperationView::EnterDirectory(name) => {
            assert(bytes.take(4) =~= spec_u32_to_le_bytes(ENTER_DIRECTORY));
            assert(bytes.skip(4) =~= name_bytes(name) + rest);
            lemma_name_read_back(name, rest);
        },
        OperationView::LeaveDirectory => {
            assert(bytes.take(4) =~= spec_u32_to_le_bytes(LEAVE_DIRECTORY));
        },
        OperationView::CreateFile(name, size) => {
            let tail = spec_u64_to_le_bytes(size) + rest;
            assert(bytes.take(4) =~= spec_u32_to_le_bytes(CREATE_FILE));
            assert(bytes.skip(4) =~= name_bytes(name) + tail);
            lemma_name_read_back(name, tail);
            assert(tail.take(8) =~= spec_u64_to_le_bytes(size));
        },
    }
}

/// The length of the payload of an operation with a name.
pub proof fn lemma_payload_len(op: OperationView)
    ensures
        match op {
            OperationView::EnterDirectory(name) => payload(op).len() == 12 + encode_utf8(
                name,
            ).len(),
            OperationView::LeaveDirectory => payload(op).len() == 4,
            OperationView::CreateFile(name, _) => payload(op).len() == 20 + encode_utf8(
                name,
            ).len(),
        },
{
    lemma_auto_spec_u32_to_from_le_bytes();
    lemma_auto_spec_u64_to_from_le_bytes();
}

/// What `bincode::serialize` returns for a `u32`: its four bytes in
/// little-endian order. The call does not fail on an integer.
#[verifier::external_body]
fn bincode_u32(value: u32) -> (bytes: Option<Vec<u8>>)
    ensures
        bytes is Some,
        bytes->0@ == spec_u32_to_le_bytes(value),
{
    bincode::serialize(&value).ok()
}

/// What `bincode::serialize` returns for a `u64`: its eight bytes in
/// little-endian order. The call does not fail on an integer.
#[verifier::external_body]
fn bincode_u64(value: u64) -> (bytes: Option<Vec<u8>>)
    ensures
        bytes is Some,
        bytes->0@ == spec_u64_to_le_bytes(value),
{
    bincode::serialize(&value).ok()
}

/// What `bincode::serialize` returns for a string: the length of its UTF-8
/// bytes as a `u64`, then those bytes. The call does not fail on a string.
#[verifier::external_body]
fn bincode_str(value: &str) -> (bytes: Option<Vec<u8>>)
    requires
        encode_utf8(value@).len() <= u64::MAX,
    ensures
        bytes is Some,
        bytes->0@ == name_bytes(value@),
{
    bincode::serialize(value).ok()
}

/// What `bincode::deserialize` reads as a `u32`: the first four bytes in
/// little-endian order. It fails only on fewer than four bytes.
#[verifier::external_body]
fn bincode_read_u32(bytes: &[u8]) -> (value: Option<u32>)
    ensures
        value is Some <==> bytes@.len() >= 4,
        value is Some ==> value->0 == spec_u32_from_le_bytes(bytes@.take(4)),
{
    bincode::deserialize::<u32>(bytes).ok()
}

/// What `bincode::deserialize` reads as a `u64`: the first eight bytes in
/// little-endian order. It fails only on fewer than eight bytes.
#[verifier::external_body]
fn bincode_read_u64(bytes: &[u8]) -> (value: Option<u64>)
    ensures
        value is Some <==> bytes@.len() >= 8,
        value is Some ==> value->0 == spec_u64_from_le_bytes(bytes@.take(8)),
{
    bincode::deserialize::<u64>(bytes).ok()
}

/// What `bincode::deserialize` reads as a `String`: a `u64` length, then that
/// many bytes, which must be there and be valid UTF-8; they are the bytes of
/// the string.
#[verifier::external_body]
fn bincode_read_string(bytes: &[u8]) -> (value: Option<String>)
    ensures
        value is Some <==> has_name(bytes@),
        value is Some ==> encode_utf8(value->0@) == bytes@.subrange(
            8,
            8 + declared_name_len(bytes@),
        ),
{
    bincode::deserialize::<String>(bytes).ok()
}

/// The bytes of `name` in a payload.
fn name_field(name: &String) -> (bytes: Vec<u8>)
    ensures
        bytes@ == name_bytes(name@),
{
    let text = name.as_str();
    let utf8 = text.as_bytes();
    assert(encode_utf8(name@).len() == utf8@.len() == utf8.len());
    bincode_str(text).unwrap()
}

/// Whether the operations that carry `name` fit in a record.
pub fn name_is_short(name: &String) -> (short: bool)
    ensures
        short == name_fits(name@),
{
    name.as_str().as_bytes().len() <= MAX_NAME_LEN
}

impl StorageOperation {
    /// The payload of this operation.
    pub fn encode(&self) -> (bytes: Vec<u8>)
        ensures
            bytes@ == payload(self@),
    {
        match self {
            StorageOperation::EnterDirectory(name) => {
                let mut bytes: Vec<u8> = bincode_u32(ENTER_DIRECTORY).unwrap();
                let field: Vec<u8> = name_field(name);
                bytes.extend_from_slice(field.as_slice());
                bytes
            },
            StorageOperation::LeaveDirectory => bincode_u32(LEAVE_DIRECTORY).unwrap(),
            StorageOperation::CreateFile(name, size) => {
                let mut bytes: Vec<u8> = bincode_u32(CREATE_FILE).unwrap();
                let field: Vec<u8> = name_field(name);
                bytes.extend_from_slice(field.as_slice());
                let last: Vec<u8> = bincode_u64(*size).unwrap();
                bytes.extend_from_slice(last.as_slice());
                bytes
            },
        }
    }

    /// The operation that `bytes` is a payload of, or `None` if it is none:
    /// if a field is cut short, a name is not UTF-8, or the variant number is
    /// unknown.
    pub fn decode(bytes: &[u8]) -> (op: Option<StorageOperation>)
        ensures
            match op {
                Some(op) => decoded(bytes@) == Some(op@),
                None => decoded(bytes@) is None,
            },
    {
        let tag: u32 = match bincode_read_u32(bytes) {
            Some(tag) => tag,
            None => {
                return None;
            },
        };
        let fields = slice_subrange(bytes, 4, bytes.len());
        assert(fields@ =~= bytes@.skip(4));
        if tag == ENTER_DIRECTORY {
            match bincode_read_string(fields) {
                Some(name) => {
                    proof {
                        encode_utf8_decode_utf8(name@);
                    }
                    Some(StorageOperation::EnterDirectory(name))
                },
                None => None,
            }
        } else if tag == LEAVE_DIRECTORY {
            Some(StorageOperation::LeaveDirectory)
        } else if tag == CREATE_FILE {
            match bincode_read_string(fields) {
                Some(name) => {
                    proof {
                        encode_utf8_decode_utf8(name@);
                    }
                    let used: usize = 8 + name.as_str().as_bytes().len();
                    let tail = slice_subrange(fields, used, fields.len());
                    assert(tail@ =~= after_name(fields@));
                    match bincode_read_u64(tail) {
                        Some(size) => Some(StorageOperation::CreateFile(name, size)),
                        None => None,
                    }
                },
                None => None,
            }
        } else {
            None
        }
    }
}

} // verus!
