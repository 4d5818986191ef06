//! The two transforms: hiding a buffer and bringing it back.

use crate::chunker::{chunk_at, chunk_count, chunks, count_chunks, remainder, remainder_of};
use crate::laws::{lemma_decode_layout, lemma_encode_layout, record_at};
use crate::record::{packed_record, CodecError, Record, CHUNK_SIZE, RECORD_SIZE, TAG_SIZE};
use crate::rotation::{
    cycle_index, cycle_window, inverse_shift, inverse_shift_of, rotate_left, rotate_right, ROT,
};
use vstd::pervasive::unreached;
use vstd::prelude::*;
use vstd::slice::slice_subrange;

verus! {

/// The tag of the record at `position`: the position itself, reduced to the
/// 32 bits that a tag has.
pub open spec fn ordinal_tag(position: nat) -> u32 {
    (position % 0x1_0000_0000) as u32
}

/// Each part packed as a record that is tagged with the part's position.
pub open spec fn records(parts: Seq<Seq<u8>>) -> Seq<Seq<u8>> {
    Seq::new(parts.len(), |k: int| packed_record(ordinal_tag(k as nat), parts[k]))
}

/// The hidden form of `bytes`: its chunks, rotated left by `ROT` places and
/// packed as records that are tagged with their new positions, then its
/// remainder as it is.
pub open spec fn encode(bytes: Seq<u8>) -> Seq<u8> {
    records(rotate_left(chunks(bytes), ROT as nat)).flatten() + remainder(bytes)
}

/// The number of whole records in a buffer of `len` bytes.
pub open spec fn record_count(len: nat) -> nat {
    len / (RECORD_SIZE as nat)
}

/// The payloads of the whole records of `bytes`, in the order in which the
/// records stand in it.
pub open spec fn payloads(bytes: Seq<u8>) -> Seq<Seq<u8>> {
    Seq::new(record_count(bytes.len()), |k: int| bytes.subrange(8 * k + 4, 8 * k + 8))
}

/// The bytes of `bytes` that follow its last whole record.
pub open spec fn leftover(bytes: Seq<u8>) -> Seq<u8> {
    bytes.subrange(8 * (record_count(bytes.len()) as int), bytes.len() as int)
}

/// The number of chunks that are given back for a hidden buffer of `len`
/// bytes: each record stands for four bytes more than the chunk it holds.
/// This is the number of records where fewer than four bytes follow the last
/// of them, and one more otherwise.
pub open spec fn restored_count(len: nat) -> nat {
    ((len - 4 * record_count(len)) / 4) as nat
}

/// Whether `bytes` can be the hidden form of a buffer as far as its length
/// tells: fewer than four bytes follow its last whole record.
pub open spec fn well_formed(bytes: Seq<u8>) -> bool {
    bytes.len() % 8 < 4
}

/// The buffer that `bytes` is the hidden form of: the payloads of its
/// records, read from the place to which the inverse shift leads and round
/// again, then the bytes after the last whole record as they are. For a
/// well-formed buffer the payloads read so are the payloads rotated right by
/// `ROT` places. Without a whole record there is no payload to read, and the
/// buffer stands for itself.
pub open spec fn decode(bytes: Seq<u8>) -> Seq<u8> {
    let count = restored_count(bytes.len());
    cycle_window(payloads(bytes), inverse_shift(count, ROT as nat), count).flatten() + leftover(
        bytes,
    )
}

/// Computes the tag of the record at `position`.
pub fn tag_at(position: usize) -> (tag: u32)
    ensures
        tag == ordinal_tag(position as nat),
        position <= u32::MAX ==> tag == position,
{
    (position as u64 % 0x1_0000_0000) as u32
}

/// Reads the payload of record number `index` of `bytes`.
fn payload_at(bytes: &[u8], index: usize) -> (payload: [u8; CHUNK_SIZE])
    requires
        index < record_count(bytes@.len()),
    ensures
        payload@ == payloads(bytes@)[index as int],
{
    assert(8 * index + 8 <= bytes.len());
    let slot = slice_subrange(bytes, RECORD_SIZE * index, RECORD_SIZE * index + RECORD_SIZE);
    match Record::unpack(slot) {
        Ok(record) => {
            assert(slot@.subrange(4, 8) =~= bytes@.subrange(8 * index + 4, 8 * index + 8));
            record.payload
        },
        Err(_) => unreached(),
    }
}

/// Hides `bytes`: the result is `encode` of it. It holds eight bytes for
/// each chunk of `bytes`; the record at position `k` carries the tag `k` and
/// the chunk that stood `ROT` places further on, counted round the end; the
/// bytes that fill no chunk close the result unchanged.
pub fn obfuscate_iter(bytes: &[u8]) -> (out: Vec<u8>)
    ensures
        out@ == encode(bytes@),
        out@.len() == 8 * (bytes@.len() / 4) + bytes@.len() % 4,
        forall|k: int|
            0 <= k < chunk_count(bytes@.len()) ==> #[trigger] out@.subrange(8 * k, 8 * k + 8)
                == record_at(bytes@, k),
        out@.subrange(out@.len() - bytes@.len() % 4, out@.len() as int) == bytes@.subrange(
            bytes@.len() - bytes@.len() % 4,
            bytes@.len() as int,
        ),
{
    let count = count_chunks(bytes);
    let ghost turned = rotate_left(chunks(bytes@), ROT as nat);
    let ghost packed_all = records(turned);
    let mut out: Vec<u8> = Vec::new();
    let mut position: usize = 0;
    assert(packed_all.take(0).flatten() =~= Seq::<u8>::empty());
    while position < count
        invariant
            position <= count,
            count == chunk_count(bytes@.len()),
            turned == rotate_left(chunks(bytes@), ROT as nat),
            packed_all == records(turned),
            out@ == packed_all.take(position as int).flatten(),
        decreases count - position,
    {
        let source = cycle_index(ROT, position, count);
        let record = Record::new(tag_at(position), chunk_at(bytes, source));
        let packed = record.pack();
        let ghost before = out@;
        out.extend_from_slice(&packed);
        proof {
            let written = packed_all.take(position as int);
            assert(packed@ == packed_all[position as int]);
            assert(packed_all.take(position + 1) =~= written.push(packed@));
            written.lemma_flatten_push(packed@);
            assert(out@ =~= before + packed@);
        }
        position += 1;
    }
    assert(packed_all.take(count as int) =~= packed_all);
    let ghost before = out@;
    let rest = remainder_of(bytes);
    out.extend_from_slice(rest);
    assert(out@ =~= before + rest@);
    proof {
        lemma_encode_layout(bytes@);
    }
    out
}

/// Brings back the buffer that `bytes` is the hidden form of: the result is
/// `decode` of it. Every buffer is taken: bytes after the last whole record
/// are handed on as they are, and fewer records than `ROT` are no special
/// case.
pub fn deobfuscate_iter(bytes: &[u8]) -> (out: Vec<u8>)
    ensures
        out@ == decode(bytes@),
        well_formed(bytes@) ==> out@.len() == 4 * (bytes@.len() / 8) + bytes@.len() % 8,
        well_formed(bytes@) ==> out@ == rotate_right(payloads(bytes@), ROT as nat).flatten()
            + leftover(bytes@),
{
    let len = bytes.len();
    let stored = len / RECORD_SIZE;
    let count = (len - TAG_SIZE * stored) / CHUNK_SIZE;
    let back = inverse_shift_of(count, ROT);
    let ghost window = cycle_window(payloads(bytes@), back as nat, count as nat);
    let mut out: Vec<u8> = Vec::new();
    assert(window.take(0).flatten() =~= Seq::<u8>::empty());
    if stored > 0 {
        let mut position: usize = 0;
        while position < count
            invariant
                position <= count,
                0 < stored == record_count(bytes@.len()),
                window == cycle_window(payloads(bytes@), back as nat, count as nat),
                out@ == window.take(position as int).flatten(),
            decreases count - position,
        {
            let source = cycle_index(back, position, stored);
            let payload = payload_at(bytes, source);
            let ghost before = out@;
            out.extend_from_slice(&payload);
            proof {
                let written = window.take(position as int);
                assert(payload@ == window[position as int]);
                assert(window.take(position + 1) =~= written.push(payload@));
                written.lemma_flatten_push(payload@);
                assert(out@ =~= before + payload@);
            }
            position += 1;
        }
        assert(window.take(count as int) =~= window);
    } else {
        assert(window =~= Seq::<Seq<u8>>::empty());
    }
    let ghost before = out@;
    let rest = slice_subrange(bytes, RECORD_SIZE * stored, len);
    out.extend_from_slice(rest);
    assert(out@ =~= before + rest@);
    proof {
        if well_formed(bytes@) {
            lemma_decode_layout(bytes@);
        }
    }
    out
}

/// Brings back the buffer that `bytes` is the hidden form of, and refuses
/// `bytes` where four bytes or more follow its last whole record: no hidden
/// form ends so.
pub fn deobfuscate_strict(bytes: &[u8]) -> (result: Result<Vec<u8>, CodecError>)
    ensures
        well_formed(bytes@) <==> result is Ok,
        result matches Ok(out) ==> out@ == decode(bytes@),
        result matches Err(error) ==> error == CodecError::MalformedRecord,
{
    if bytes.len() % RECORD_SIZE >= CHUNK_SIZE {
        return Err(CodecError::MalformedRecord);
    }
    Ok(deobfuscate_iter(bytes))
}

} // verus!
