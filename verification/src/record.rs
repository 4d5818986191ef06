//! The record: a tag of four bytes followed by one chunk.

use vstd::arithmetic::div_mod::lemma_fundamental_div_mod_converse;
use vstd::prelude::*;

verus! {

/// Number of bytes in a chunk, and so in a record's payload.
pub const CHUNK_SIZE: usize = 4;

/// Number of bytes that a record's tag takes when packed.
pub const TAG_SIZE: usize = 4;

/// Number of bytes of a packed record: the tag, then the payload, with no padding.
pub const RECORD_SIZE: usize = 8;

/// Why a sequence of bytes was refused.
#[derive(Clone, Copy, Debug, PartialEq, Eq)]
pub enum CodecError {
    /// The bytes do not make up whole records.
    MalformedRecord,
}

/// One chunk together with its tag.
#[derive(Clone, Copy, Debug, PartialEq, Eq)]
pub struct Record {
    /// The position that the record was given when it was written. Reading
    /// keeps it and gives it no meaning.
    pub tag: u32,
    /// The chunk.
    pub payload: [u8; CHUNK_SIZE],
}

/// The four bytes that stand for `tag`, least significant byte first.
pub open spec fn tag_bytes(tag: u32) -> Seq<u8> {
    seq![
        (tag % 256) as u8,
        (tag / 256 % 256) as u8,
        (tag / 65536 % 256) as u8,
        (tag / 16777216) as u8,
    ]
}

/// The tag that the first four bytes of `bytes` stand for.
pub open spec fn tag_value(bytes: Seq<u8>) -> u32 {
    (bytes[0] + 256 * bytes[1] + 65536 * bytes[2] + 16777216 * bytes[3]) as u32
}

/// The packed form of a record: the bytes of the tag, then the payload.
pub open spec fn packed_record(tag: u32, payload: Seq<u8>) -> Seq<u8> {
    tag_bytes(tag) + payload
}

impl Record {
    /// The packed form of this record.
    pub open spec fn packed(self) -> Seq<u8> {
        packed_record(self.tag, self.payload@)
    }

    /// Makes a record from a tag and the four bytes of a chunk.
    pub fn new(tag: u32, payload: &[u8]) -> (record: Record)
        requires
            payload@.len() == CHUNK_SIZE,
        ensures
            record.tag == tag,
            record.payload@ == payload@,
    {
        Record { tag, payload: [payload[0], payload[1], payload[2], payload[3]] }
    }

    /// Packs the record into eight bytes: the tag, least significant byte
    /// first, then the payload.
    pub fn pack(&self) -> (bytes: [u8; RECORD_SIZE])
        ensures
            bytes@ == self.packed(),
    {
        let tag = self.tag;
        let bytes = [
            (tag % 256) as u8,
            (tag / 256 % 256) as u8,
            (tag / 65536 % 256) as u8,
            (tag / 16777216) as u8,
            self.payload[0],
            self.payload[1],
            self.payload[2],
            self.payload[3],
        ];
        assert(bytes@ =~= self.packed());
        bytes
    }

    /// Reads a record back from its packed form. Exactly eight bytes make a
    /// record; any other number is refused.
    pub fn unpack(bytes: &[u8]) -> (result: Result<Record, CodecError>)
        ensures
            bytes@.len() == RECORD_SIZE <==> result is Ok,
            result is Err ==> result == Err::<Record, CodecError>(CodecError::MalformedRecord),
            result matches Ok(record) ==> {
                &&& record.tag == tag_value(bytes@)
                &&& record.payload@ == bytes@.subrange(TAG_SIZE as int, RECORD_SIZE as int)
                &&& record.packed() == bytes@
            },
    {
        if bytes.len() != RECORD_SIZE {
            return Err(CodecError::MalformedRecord);
        }
        let b0 = bytes[0] as u32;
        let b1 = bytes[1] as u32;
        let b2 = bytes[2] as u32;
        let b3 = bytes[3] as u32;
        let tag: u32 = b0 + 256 * b1 + 65536 * b2 + 16777216 * b3;
        let record = Record { tag, payload: [bytes[4], bytes[5], bytes[6], bytes[7]] };
        proof {
            lemma_tag_bytes_of_value(bytes@);
            assert(record.payload@ =~= bytes@.subrange(4, 8));
            assert(record.packed() =~= bytes@);
        }
        Ok(record)
    }
}

/// Reading the bytes of a tag gives the tag back.
pub proof fn lemma_tag_value_of_bytes(tag: u32)
    ensures
        tag_bytes(tag).len() == TAG_SIZE,
        tag_value(tag_bytes(tag)) == tag,
{
}

/// Writing the tag that four bytes stand for gives those bytes back.
pub proof fn lemma_tag_bytes_of_value(bytes: Seq<u8>)
    requires
        bytes.len() >= TAG_SIZE,
    ensures
        tag_bytes(tag_value(bytes)) == bytes.subrange(0, TAG_SIZE as int),
{
    let b0 = bytes[0] as int;
    let b1 = bytes[1] as int;
    let b2 = bytes[2] as int;
    let b3 = bytes[3] as int;
    let value = b0 + 256 * b1 + 65536 * b2 + 16777216 * b3;
    let tag = tag_value(bytes);
    assert(tag == value);
    lemma_fundamental_div_mod_converse(value, 256, b1 + 256 * b2 + 65536 * b3, b0);
    lemma_fundamental_div_mod_converse(b1 + 256 * b2 + 65536 * b3, 256, b2 + 256 * b3, b1);
    lemma_fundamental_div_mod_converse(value, 65536, b2 + 256 * b3, b0 + 256 * b1);
    lemma_fundamental_div_mod_converse(b2 + 256 * b3, 256, b3, b2);
    lemma_fundamental_div_mod_converse(value, 16777216, b3, b0 + 256 * b1 + 65536 * b2);
    assert(tag_bytes(tag) =~= bytes.subrange(0, 4));
}

} // verus!
