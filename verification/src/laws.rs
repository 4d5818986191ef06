//! What holds of hiding a buffer, and of hiding it and bringing it back.

use crate::chunker::{chunk_count, chunks, lemma_chunks_rejoin, remainder};
use crate::parts::{lemma_flatten_uniform, uniform};
use crate::record::{lemma_tag_value_of_bytes, packed_record, tag_bytes, tag_value};
use crate::rotation::{
    cycle_window, inverse_shift, lemma_shift_there_and_back, rotate_left, rotate_right, ROT,
};
use crate::transform::{
    decode, encode, leftover, ordinal_tag, payloads, record_count, records, restored_count,
    well_formed,
};
use vstd::prelude::*;

verus! {

/// The record that stands at `position` in the hidden form of `bytes`: the
/// position as tag, and as payload the chunk that stood `ROT` places further
/// on, counted round the end.
pub open spec fn record_at(bytes: Seq<u8>, position: int) -> Seq<u8> {
    packed_record(
        ordinal_tag(position as nat),
        chunks(bytes)[(position + ROT) % (chunk_count(bytes.len()) as int)],
    )
}

/// The records of the hidden form, before they are joined, are eight bytes
/// each, and each is the tagged chunk that `record_at` names.
proof fn lemma_records_of(bytes: Seq<u8>)
    ensures
        records(rotate_left(chunks(bytes), ROT as nat)).len() == chunk_count(bytes.len()),
        uniform(records(rotate_left(chunks(bytes), ROT as nat)), 8),
        forall|k: int|
            0 <= k < chunk_count(bytes.len()) ==> #[trigger] records(
                rotate_left(chunks(bytes), ROT as nat),
            )[k] == record_at(bytes, k),
{
    let count = chunk_count(bytes.len());
    let turned = rotate_left(chunks(bytes), ROT as nat);
    let all = records(turned);
    assert forall|k: int| 0 <= k < count implies (#[trigger] all[k]).len() == 8 && all[k]
        == record_at(bytes, k) by {
        lemma_shift_there_and_back(k, count, ROT as nat);
        lemma_tag_value_of_bytes(ordinal_tag(k as nat));
        assert(turned[k] == chunks(bytes)[(k + ROT) % (count as int)]);
    }
}

/// The layout of the hidden form. It holds eight bytes for each chunk and
/// then the remainder. The record at position `k` carries the tag `k` and the
/// chunk that stood at `(k + ROT) mod n` among the `n` chunks. The remainder
/// follows the records unchanged.
pub proof fn lemma_encode_layout(bytes: Seq<u8>)
    ensures
        encode(bytes).len() == 8 * (bytes.len() / 4) + bytes.len() % 4,
        forall|k: int|
            0 <= k < chunk_count(bytes.len()) ==> #[trigger] encode(bytes).subrange(
                8 * k,
                8 * k + 8,
            ) == record_at(bytes, k),
        encode(bytes).subrange(8 * (chunk_count(bytes.len()) as int), encode(bytes).len() as int)
            == remainder(bytes),
        remainder(bytes) == bytes.subrange(bytes.len() - bytes.len() % 4, bytes.len() as int),
{
    let count = chunk_count(bytes.len()) as int;
    let all = records(rotate_left(chunks(bytes), ROT as nat));
    let joined = all.flatten();
    let hidden = encode(bytes);
    lemma_records_of(bytes);
    lemma_flatten_uniform(all, 8);
    lemma_chunks_rejoin(bytes);
    assert(joined.len() == 8 * count);
    assert forall|k: int| 0 <= k < count implies #[trigger] hidden.subrange(8 * k, 8 * k + 8)
        == record_at(bytes, k) by {
        let slot = hidden.subrange(8 * k, 8 * k + 8);
        assert forall|o: int| 0 <= o < 8 implies slot[o] == all[k][o] by {
            assert(joined[k * 8 + o] == all[k][o]);
        }
        assert(slot =~= all[k]);
    }
    assert(hidden.subrange(8 * count, hidden.len() as int) =~= remainder(bytes));
}

/// What is brought back from a buffer whose length a hidden form can have:
/// four bytes for each record, which are the payloads rotated right by `ROT`
/// places, and then the bytes after the last whole record unchanged.
pub proof fn lemma_decode_layout(bytes: Seq<u8>)
    requires
        well_formed(bytes),
    ensures
        restored_count(bytes.len()) == record_count(bytes.len()),
        decode(bytes) == rotate_right(payloads(bytes), ROT as nat).flatten() + leftover(bytes),
        decode(bytes).len() == 4 * (bytes.len() / 8) + bytes.len() % 8,
        leftover(bytes).len() == bytes.len() % 8,
{
    let count = record_count(bytes.len());
    let turned = rotate_right(payloads(bytes), ROT as nat);
    assert(restored_count(bytes.len()) == count);
    assert(turned.len() == count);
    assert forall|i: int| 0 <= i < count implies (#[trigger] turned[i]).len() == 4 by {
        lemma_shift_there_and_back(i, count, ROT as nat);
    }
    lemma_flatten_uniform(turned, 4);
}

/// A tag is the position itself for every position that 32 bits can hold.
pub proof fn lemma_tag_is_position(position: nat)
    requires
        position <= u32::MAX,
    ensures
        ordinal_tag(position) == position,
{
}

/// The record at position `k` of the hidden form reads as the tag `k`, and
/// its payload is the chunk that stood at `(k + ROT) mod n` among the `n`
/// chunks of the buffer. This holds for every number of chunks, also for
/// `ROT` of them or fewer.
pub proof fn lemma_rotated_record(bytes: Seq<u8>, k: int)
    requires
        0 <= k < chunk_count(bytes.len()),
    ensures
        tag_value(encode(bytes).subrange(8 * k, 8 * k + 4)) == ordinal_tag(k as nat),
        k <= u32::MAX ==> tag_value(encode(bytes).subrange(8 * k, 8 * k + 4)) == k,
        0 <= (k + ROT) % (chunk_count(bytes.len()) as int) < chunk_count(bytes.len()),
        encode(bytes).subrange(8 * k + 4, 8 * k + 8) == bytes.subrange(
            4 * ((k + ROT) % (chunk_count(bytes.len()) as int)),
            4 * ((k + ROT) % (chunk_count(bytes.len()) as int)) + 4,
        ),
{
    let hidden = encode(bytes);
    let tag = ordinal_tag(k as nat);
    let from = (k + ROT) % (chunk_count(bytes.len()) as int);
    lemma_encode_layout(bytes);
    lemma_shift_there_and_back(k, chunk_count(bytes.len()), ROT as nat);
    lemma_tag_value_of_bytes(tag);
    let slot = hidden.subrange(8 * k, 8 * k + 8);
    assert(slot == record_at(bytes, k));
    assert(hidden.subrange(8 * k, 8 * k + 4) =~= slot.subrange(0, 4));
    assert(slot.subrange(0, 4) =~= tag_bytes(tag));
    assert(hidden.subrange(8 * k + 4, 8 * k + 8) =~= slot.subrange(4, 8));
    assert(slot.subrange(4, 8) =~= chunks(bytes)[from]);
}

/// Bringing back what was hidden gives the buffer itself, for every buffer:
/// of any length, with or without a remainder, with more chunks than `ROT`,
/// exactly `ROT`, or fewer.
pub proof fn lemma_round_trip(bytes: Seq<u8>)
    ensures
        decode(encode(bytes)) == bytes,
        well_formed(encode(bytes)),
        leftover(encode(bytes)) == remainder(bytes),
        record_count(encode(bytes).len()) == chunk_count(bytes.len()),
        restored_count(encode(bytes).len()) == chunk_count(bytes.len()),
        rotate_right(payloads(encode(bytes)), ROT as nat) == chunks(bytes),
{
    let count = chunk_count(bytes.len());
    let hidden = encode(bytes);
    lemma_encode_layout(bytes);
    lemma_chunks_rejoin(bytes);
    assert(record_count(hidden.len()) == count);
    assert(restored_count(hidden.len()) == count);
    assert(leftover(hidden) == remainder(bytes));
    let carried = payloads(hidden);
    let back = inverse_shift(count, ROT as nat);
    let window = cycle_window(carried, back, count);
    assert(window == rotate_right(carried, ROT as nat));
    if count > 0 {
        assert forall|i: int| 0 <= i < count implies window[i] == chunks(bytes)[i] by {
            lemma_shift_there_and_back(i, count, ROT as nat);
            let k = (i + back) % (count as int);
            assert(window[i] == carried[k]);
            assert(hidden.subrange(8 * k, 8 * k + 8) == record_at(bytes, k));
            lemma_tag_value_of_bytes(ordinal_tag(k as nat));
            assert(carried[k] =~= hidden.subrange(8 * k, 8 * k + 8).subrange(4, 8));
            assert(record_at(bytes, k).subrange(4, 8) =~= chunks(bytes)[(k + ROT) % (
            count as int)]);
        }
    }
    assert(window =~= chunks(bytes));
}

/// Hiding nothing gives nothing, and so does bringing nothing back.
pub proof fn lemma_empty_is_fixed()
    ensures
        encode(Seq::<u8>::empty()) == Seq::<u8>::empty(),
        decode(Seq::<u8>::empty()) == Seq::<u8>::empty(),
{
    let none = Seq::<u8>::empty();
    lemma_encode_layout(none);
    assert(encode(none) =~= none);
    lemma_round_trip(none);
}

} // verus!
