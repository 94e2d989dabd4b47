//! The hash: a chain of states, one step for each 16-byte chunk of the message.

use crate::block::{chunk_at, load_chunk, xor, xor_blocks, zero_block, Block};
use crate::simd_aes::{round_backward, SimdAes};
use vstd::prelude::*;

verus! {

/// The constant that is mixed into the first state of every hash computation.
pub const DEFAULT_SEED: Block = [
    178, 201, 95, 240, 40, 41, 143, 216, 2, 209, 178, 114, 232, 4, 176, 188,
];

/// The message length as a 64-bit little-endian integer in the first eight bytes, zero in the
/// last eight.
pub open spec fn length_prefix_block(len: u64) -> Seq<u8> {
    Seq::new(16, |i: int| if i < 8 { (len >> ((8 * i) as u64)) as u8 } else { 0u8 })
}

/// The state before the first chunk of a message of `len` bytes is consumed.
pub open spec fn initial_state(len: nat) -> Seq<u8> {
    xor_blocks(length_prefix_block(len as u64), DEFAULT_SEED@)
}

/// Four backward rounds with the all-zero round key.
#[verifier::opaque]
pub open spec fn round4(x: Seq<u8>) -> Seq<u8> {
    round_backward(
        round_backward(
            round_backward(round_backward(x, zero_block()), zero_block()),
            zero_block(),
        ),
        zero_block(),
    )
}

/// The number of chunks that a message of `len` bytes is hashed in: one for the empty message,
/// else the number of 16-byte chunks that cover it.
pub open spec fn chunk_count(len: nat) -> nat {
    if len == 0 {
        1
    } else {
        (len + 15) / 16
    }
}

/// The state reached from `state` by consuming the chunks `from`, ..., `to - 1` of `data`.
pub open spec fn absorb(state: Seq<u8>, data: Seq<u8>, from: nat, to: nat) -> Seq<u8>
    decreases to,
{
    if to <= from {
        state
    } else {
        round4(xor_blocks(absorb(state, data, from, (to - 1) as nat), chunk_at(data, to - 1)))
    }
}

/// The hash state of `message` after `consumed` chunks.
pub open spec fn hash_state(message: Seq<u8>, consumed: nat) -> Seq<u8> {
    absorb(initial_state(message.len()), message, 0, consumed)
}

/// The hash of `message`: its state after the last chunk.
pub open spec fn glyph_hash(message: Seq<u8>) -> Seq<u8> {
    hash_state(message, chunk_count(message.len()))
}

/// The hash is determined by the message: two blocks that are each the hash of one message are
/// the same block, so that hashing a message again gives the same hash.
pub proof fn lemma_hash_deterministic(message: Seq<u8>, first: Block, second: Block)
    requires
        first@ == glyph_hash(message),
        second@ == glyph_hash(message),
    ensures
        first == second,
{
    assert forall|i: int| 0 <= i < 16 implies first[i] == second[i] by {
        assert(first@[i] == second@[i]);
    }
    assert(first =~= second);
}

/// Every state of the chain is a block.
pub proof fn lemma_absorb_len(state: Seq<u8>, data: Seq<u8>, from: nat, to: nat)
    requires
        state.len() == 16,
    ensures
        absorb(state, data, from, to).len() == 16,
    decreases to,
{
    if to > from {
        reveal(round4);
        lemma_absorb_len(state, data, from, (to - 1) as nat);
    }
}

/// Consuming a run of chunks is consuming its first chunk and then the rest.
pub proof fn lemma_absorb_front(state: Seq<u8>, data: Seq<u8>, from: nat, to: nat)
    requires
        from < to,
    ensures
        absorb(state, data, from, to) == absorb(
            round4(xor_blocks(state, chunk_at(data, from as int))),
            data,
            from + 1,
            to,
        ),
    decreases to,
{
    if to > from + 1 {
        lemma_absorb_front(state, data, from, (to - 1) as nat);
    } else {
        assert(absorb(state, data, from, from) == state);
    }
}

/// Consuming a run of chunks is consuming a first part of it and then the rest.
pub proof fn lemma_absorb_split(state: Seq<u8>, data: Seq<u8>, from: nat, mid: nat, to: nat)
    requires
        from <= mid <= to,
    ensures
        absorb(state, data, from, to) == absorb(absorb(state, data, from, mid), data, mid, to),
    decreases to,
{
    if to > mid {
        lemma_absorb_split(state, data, from, mid, (to - 1) as nat);
    }
}

/// The state after a run of chunks depends on the data only through those chunks: a run of
/// `whole` that starts `offset` chunks in leads where the same chunks of `part` lead.
pub proof fn lemma_absorb_shift(
    state: Seq<u8>,
    whole: Seq<u8>,
    part: Seq<u8>,
    offset: nat,
    from: nat,
    to: nat,
)
    requires
        forall|j: int| from <= j < to ==> chunk_at(whole, offset + j) == chunk_at(part, j),
    ensures
        absorb(state, whole, offset + from, offset + to) == absorb(state, part, from, to),
    decreases to,
{
    if to > from {
        lemma_absorb_shift(state, whole, part, offset, from, (to - 1) as nat);
        assert(chunk_at(whole, offset + (to - 1)) == chunk_at(part, to - 1));
    }
}

/// The chunks of a concatenation whose first part is a whole number of chunks: those of the
/// first part, then those of the second.
pub proof fn lemma_chunk_of_concat(first: Seq<u8>, second: Seq<u8>, chunks: nat, j: int)
    requires
        first.len() == 16 * chunks,
        0 <= j,
    ensures
        j < chunks ==> chunk_at(first + second, j) == chunk_at(first, j),
        chunk_at(first + second, chunks + j) == chunk_at(second, j),
{
    if j < chunks {
        assert(chunk_at(first + second, j) =~= chunk_at(first, j));
    }
    assert(chunk_at(first + second, chunks + j) =~= chunk_at(second, j));
}

/// A length below 256 fills only the first byte of the length prefix.
pub proof fn lemma_length_prefix_small(len: u64)
    requires
        len < 256,
    ensures
        length_prefix_block(len)[0] == len,
        forall|i: int| 1 <= i < 16 ==> length_prefix_block(len)[i] == 0,
{
    assert((len >> 0u64) as u8 == len) by (bit_vector)
        requires
            len < 256,
    ;
    assert((len >> 8u64) as u8 == 0 && (len >> 16u64) as u8 == 0 && (len >> 24u64) as u8 == 0 && (
    len >> 32u64) as u8 == 0 && (len >> 40u64) as u8 == 0 && (len >> 48u64) as u8 == 0 && (len
        >> 56u64) as u8 == 0) by (bit_vector)
        requires
            len < 256,
    ;
    assert forall|i: int| 1 <= i < 16 implies length_prefix_block(len)[i] == 0 by {
        if i < 8 {
            assert(i == 1 || i == 2 || i == 3 || i == 4 || i == 5 || i == 6 || i == 7);
        }
    }
}

/// A length and the next one have the same length prefix but for the first byte, unless the
/// first byte of the length is the highest that a byte holds.
pub proof fn lemma_length_prefix_next(len: u64)
    requires
        len % 256 != 255,
    ensures
        forall|i: int| 1 <= i < 16 ==> length_prefix_block(len)[i] == length_prefix_block(
            (len + 1) as u64,
        )[i],
{
    let next = (len + 1) as u64;
    assert((len >> 8u64) as u8 == (next >> 8u64) as u8 && (len >> 16u64) as u8 == (next >> 16u64) as u8
        && (len >> 24u64) as u8 == (next >> 24u64) as u8 && (len >> 32u64) as u8 == (next
        >> 32u64) as u8 && (len >> 40u64) as u8 == (next >> 40u64) as u8 && (len >> 48u64) as u8 == (
    next >> 48u64) as u8 && (len >> 56u64) as u8 == (next >> 56u64) as u8) by (bit_vector)
        requires
            len % 256 != 255,
            next == len + 1,
    ;
    assert forall|i: int| 1 <= i < 16 implies length_prefix_block(len)[i] == length_prefix_block(
        next,
    )[i] by {
        if i < 8 {
            assert(i == 1 || i == 2 || i == 3 || i == 4 || i == 5 || i == 6 || i == 7);
        }
    }
}

/// The block that holds `len` as a little-endian integer, followed by eight zero bytes.
pub fn length_prefix(len: usize) -> (r: Block)
    ensures
        r@ == length_prefix_block(len as u64),
{
    let n: u64 = len as u64;
    let mut r: Block = [0u8; 16];
    let mut i: usize = 0;
    while i < 8
        invariant
            i <= 8,
            n == len as u64,
            forall|k: int| 0 <= k < i ==> r@[k] == (n >> ((8 * k) as u64)) as u8,
            forall|k: int| i <= k < 16 ==> r@[k] == 0u8,
        decreases 8 - i,
    {
        let shift: u64 = 8 * (i as u64);
        r[i] = (n >> shift) as u8;
        i += 1;
    }
    assert(r@ =~= length_prefix_block(len as u64));
    r
}

/// Four backward rounds with the all-zero round key.
pub fn dec_x4(x: Block) -> (r: Block)
    ensures
        r@ == round4(x@),
{
    let zero: Block = [0u8; 16];
    assert(zero@ =~= zero_block());
    reveal(round4);
    x.aes_dec(zero).aes_dec(zero).aes_dec(zero).aes_dec(zero)
}

/// Hashes `data`: the state starts as the length prefix mixed with the seed, and each 16-byte
/// chunk, the last one padded with zero bytes, is mixed in and followed by four backward
/// rounds.
pub fn compute_glyph_hash(data: &[u8]) -> (hash: Block)
    ensures
        hash@ == glyph_hash(data@),
{
    let len: usize = data.len();
    let chunks: usize = if len == 0 { 1 } else { (len - 1) / 16 + 1 };
    let mut hash: Block = xor(length_prefix(len), DEFAULT_SEED);
    let mut i: usize = 0;
    while i < chunks
        invariant
            i <= chunks,
            len == data@.len(),
            chunks == chunk_count(len as nat),
            hash@ == hash_state(data@, i as nat),
        decreases chunks - i,
    {
        hash = dec_x4(xor(hash, load_chunk(data, i)));
        i += 1;
    }
    hash
}

} // verus!
