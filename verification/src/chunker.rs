//! Cutting a buffer into chunks of four bytes and the bytes left over.

use crate::parts::{lemma_flatten_uniform, uniform};
use crate::record::CHUNK_SIZE;
use vstd::prelude::*;
use vstd::slice::slice_subrange;

verus! {

/// The number of whole chunks in a buffer of `len` bytes.
pub open spec fn chunk_count(len: nat) -> nat {
    len / (CHUNK_SIZE as nat)
}

/// The chunks of `bytes`, in the order in which they stand in it.
pub open spec fn chunks(bytes: Seq<u8>) -> Seq<Seq<u8>> {
    Seq::new(chunk_count(bytes.len()), |i: int| bytes.subrange(4 * i, 4 * i + 4))
}

/// The bytes of `bytes` that follow its last whole chunk: fewer than four.
pub open spec fn remainder(bytes: Seq<u8>) -> Seq<u8> {
    bytes.subrange(4 * (chunk_count(bytes.len()) as int), bytes.len() as int)
}

/// The chunks, joined, followed by the remainder are the buffer itself.
pub proof fn lemma_chunks_rejoin(bytes: Seq<u8>)
    ensures
        uniform(chunks(bytes), CHUNK_SIZE as nat),
        remainder(bytes).len() == bytes.len() % (CHUNK_SIZE as nat),
        chunks(bytes).flatten() == bytes.subrange(0, 4 * (chunk_count(bytes.len()) as int)),
        chunks(bytes).flatten() + remainder(bytes) == bytes,
{
    let parts = chunks(bytes);
    let joined = parts.flatten();
    lemma_flatten_uniform(parts, 4);
    assert forall|j: int| 0 <= j < joined.len() implies joined[j] == bytes[j] by {
        assert(joined[(j / 4) * 4 + j % 4] == parts[j / 4][j % 4]);
    }
    assert(joined =~= bytes.subrange(0, 4 * (chunk_count(bytes.len()) as int)));
    assert(joined + remainder(bytes) =~= bytes);
}

/// Counts the whole chunks of `bytes`.
pub fn count_chunks(bytes: &[u8]) -> (count: usize)
    ensures
        count == chunk_count(bytes@.len()),
{
    bytes.len() / CHUNK_SIZE
}

/// Borrows chunk number `index` of `bytes`.
pub fn chunk_at(bytes: &[u8], index: usize) -> (chunk: &[u8])
    requires
        index < chunk_count(bytes@.len()),
    ensures
        chunk@ == chunks(bytes@)[index as int],
{
    assert(4 * index + 4 <= bytes.len());
    slice_subrange(bytes, CHUNK_SIZE * index, CHUNK_SIZE * index + CHUNK_SIZE)
}

/// Borrows the bytes of `bytes` that follow its last whole chunk.
pub fn remainder_of(bytes: &[u8]) -> (rest: &[u8])
    ensures
        rest@ == remainder(bytes@),
{
    let len = bytes.len();
    slice_subrange(bytes, len - len % CHUNK_SIZE, len)
}

} // verus!
