//! The exact inverse of the hash steps, and the laws that say so.

use crate::block::{
    chunk_at, lemma_xor_blocks_cancel, load_chunk, xor, xor_blocks, zero_block, Block,
};
use crate::hash::{absorb, lemma_absorb_front, round4};
use crate::simd_aes::{
    inv_mix_columns, inv_shift_rows, inv_sub_bytes, lemma_mix_columns_inverse,
    lemma_shift_rows_inverse, lemma_sub_bytes_inverse, lemma_sub_shift_commute, mix_columns,
    round_backward, round_backward_last, round_forward, round_forward_last, shift_rows, sub_bytes,
    SimdAes,
};
use vstd::prelude::*;

verus! {

/// The inverse of the backward round without a key: mix the columns, shift the rows,
/// substitute the bytes.
pub open spec fn unround(x: Seq<u8>) -> Seq<u8> {
    sub_bytes(shift_rows(mix_columns(x)))
}

/// The block that the backward round with `key` maps to `y`, computed with the rounds
/// themselves: a last backward round, a forward round and a last forward round, all without a
/// key, applied to `y` with the key added.
pub open spec fn round_backward_inverse(y: Seq<u8>, key: Seq<u8>) -> Seq<u8> {
    round_forward_last(
        round_forward(round_backward_last(xor_blocks(y, key), zero_block()), zero_block()),
        zero_block(),
    )
}

/// The inverse of `round4`, computed with the rounds themselves: a last backward round, four
/// forward rounds and a last forward round, all without a key.
#[verifier::opaque]
pub open spec fn inv_round4(h: Seq<u8>) -> Seq<u8> {
    round_forward_last(
        round_forward(
            round_forward(
                round_forward(
                    round_forward(round_backward_last(h, zero_block()), zero_block()),
                    zero_block(),
                ),
                zero_block(),
            ),
            zero_block(),
        ),
        zero_block(),
    )
}

/// Without a key, each round is the composition of its steps.
pub proof fn lemma_keyless_rounds(s: Seq<u8>)
    ensures
        round_forward(s, zero_block()) == mix_columns(sub_bytes(shift_rows(s))),
        round_forward_last(s, zero_block()) == sub_bytes(shift_rows(s)),
        round_backward(s, zero_block()) == inv_mix_columns(inv_sub_bytes(inv_shift_rows(s))),
        round_backward_last(s, zero_block()) == inv_sub_bytes(inv_shift_rows(s)),
{
    lemma_xor_blocks_cancel(mix_columns(sub_bytes(shift_rows(s))), zero_block());
    lemma_xor_blocks_cancel(sub_bytes(shift_rows(s)), zero_block());
    lemma_xor_blocks_cancel(inv_mix_columns(inv_sub_bytes(inv_shift_rows(s))), zero_block());
    lemma_xor_blocks_cancel(inv_sub_bytes(inv_shift_rows(s)), zero_block());
}

/// `unround` and the backward round without a key undo each other.
pub proof fn lemma_unround_inverse(x: Seq<u8>)
    requires
        x.len() == 16,
    ensures
        round_backward(unround(x), zero_block()) == x,
        unround(round_backward(x, zero_block())) == x,
{
    lemma_keyless_rounds(unround(x));
    lemma_keyless_rounds(x);
    let m = mix_columns(x);
    // backward after unround
    lemma_sub_shift_commute(m);
    lemma_shift_rows_inverse(sub_bytes(m));
    lemma_sub_bytes_inverse(m);
    lemma_mix_columns_inverse(x);
    // unround after backward
    let t = inv_sub_bytes(inv_shift_rows(x));
    lemma_mix_columns_inverse(t);
    lemma_sub_shift_commute(inv_shift_rows(x));
    lemma_sub_bytes_inverse(shift_rows(inv_shift_rows(x)));
    lemma_shift_rows_inverse(x);
}

/// The last rounds without a key undo each other.
pub proof fn lemma_keyless_last_rounds_inverse(x: Seq<u8>)
    requires
        x.len() == 16,
    ensures
        round_forward_last(round_backward_last(x, zero_block()), zero_block()) == x,
        round_backward_last(round_forward_last(x, zero_block()), zero_block()) == x,
{
    lemma_keyless_rounds(x);
    lemma_keyless_rounds(round_backward_last(x, zero_block()));
    lemma_keyless_rounds(round_forward_last(x, zero_block()));
    lemma_sub_shift_commute(inv_shift_rows(x));
    lemma_sub_bytes_inverse(shift_rows(inv_shift_rows(x)));
    lemma_shift_rows_inverse(x);
    lemma_sub_shift_commute(shift_rows(x));
    lemma_sub_bytes_inverse(inv_shift_rows(shift_rows(x)));
}

/// A forward round after a last backward round, both without a key, mixes the columns.
pub proof fn lemma_forward_after_backward_last(x: Seq<u8>)
    requires
        x.len() == 16,
    ensures
        round_forward(round_backward_last(x, zero_block()), zero_block()) == mix_columns(x),
{
    let d = round_backward_last(x, zero_block());
    lemma_keyless_rounds(x);
    lemma_keyless_rounds(d);
    lemma_keyless_last_rounds_inverse(x);
}

/// The rounds that `round_backward_inverse` is built from compute `unround` of the block with
/// the key added.
pub proof fn lemma_round_backward_inverse_unfold(y: Seq<u8>, key: Seq<u8>)
    ensures
        round_backward_inverse(y, key) == unround(xor_blocks(y, key)),
{
    let z = xor_blocks(y, key);
    lemma_forward_after_backward_last(z);
    lemma_keyless_rounds(mix_columns(z));
}

/// The rounds that `inv_round4` is built from compute `unround` four times.
pub proof fn lemma_inv_round4_unfold(h: Seq<u8>)
    requires
        h.len() == 16,
    ensures
        inv_round4(h) == unround(unround(unround(unround(h)))),
{
    reveal(inv_round4);
    let z = zero_block();
    let e1 = round_forward(round_backward_last(h, z), z);
    lemma_forward_after_backward_last(h);
    assert(e1 == mix_columns(h));
    let e2 = round_forward(e1, z);
    lemma_keyless_rounds(e1);
    assert(e2 == mix_columns(unround(h)));
    let e3 = round_forward(e2, z);
    lemma_keyless_rounds(e2);
    assert(e3 == mix_columns(unround(unround(h))));
    let e4 = round_forward(e3, z);
    lemma_keyless_rounds(e3);
    assert(e4 == mix_columns(unround(unround(unround(h)))));
    lemma_keyless_rounds(e4);
}

/// The backward round with a key and `round_backward_inverse` with the same key undo each
/// other, for every block and every key.
pub proof fn lemma_round_backward_inverse(x: Seq<u8>, key: Seq<u8>)
    requires
        x.len() == 16,
        key.len() == 16,
    ensures
        round_backward(round_backward_inverse(x, key), key) == x,
        round_backward_inverse(round_backward(x, key), key) == x,
{
    let z = zero_block();
    // backward after inverse
    let u = unround(xor_blocks(x, key));
    lemma_round_backward_inverse_unfold(x, key);
    lemma_unround_inverse(xor_blocks(x, key));
    lemma_keyless_rounds(u);
    assert(round_backward(u, key) == xor_blocks(round_backward(u, z), key));
    lemma_xor_blocks_cancel(x, key);
    // inverse after backward
    let d = round_backward(x, z);
    lemma_keyless_rounds(x);
    assert(round_backward(x, key) == xor_blocks(d, key));
    lemma_round_backward_inverse_unfold(xor_blocks(d, key), key);
    lemma_xor_blocks_cancel(d, key);
    lemma_unround_inverse(x);
}

/// `round4` and `inv_round4` undo each other.
pub proof fn lemma_round4_inverse(h: Seq<u8>)
    requires
        h.len() == 16,
    ensures
        round4(inv_round4(h)) == h,
        inv_round4(round4(h)) == h,
        round4(h).len() == 16,
        inv_round4(h).len() == 16,
{
    reveal(round4);
    let z = zero_block();
    lemma_inv_round4_unfold(h);
    let u1 = unround(h);
    let u2 = unround(u1);
    let u3 = unround(u2);
    let u4 = unround(u3);
    lemma_unround_inverse(u3);
    lemma_unround_inverse(u2);
    lemma_unround_inverse(u1);
    lemma_unround_inverse(h);
    assert(round4(u4) == h);
    let d1 = round_backward(h, z);
    let d2 = round_backward(d1, z);
    let d3 = round_backward(d2, z);
    let d4 = round_backward(d3, z);
    lemma_inv_round4_unfold(d4);
    lemma_unround_inverse(d3);
    lemma_unround_inverse(d2);
    lemma_unround_inverse(d1);
    lemma_unround_inverse(h);
    assert(unround(unround(unround(unround(d4)))) == h);
}

/// A last backward round followed by a last forward round with the same key gives the block
/// back where adding the key after the last backward round is the same as adding it before.
/// With the all-zero key that is so for every block.
pub proof fn lemma_last_round_trip(x: Seq<u8>, key: Seq<u8>)
    requires
        x.len() == 16,
        key.len() == 16,
        round_backward_last(x, key) == round_backward_last(xor_blocks(x, key), zero_block()),
    ensures
        round_forward_last(round_backward_last(x, key), key) == x,
{
    let xk = xor_blocks(x, key);
    lemma_keyless_last_rounds_inverse(xk);
    lemma_keyless_rounds(round_backward_last(x, key));
    lemma_xor_blocks_cancel(x, key);
}

/// The round trip of the last rounds holds on no other blocks and keys than those of
/// `lemma_last_round_trip`.
pub proof fn lemma_last_round_trip_only_if(x: Seq<u8>, key: Seq<u8>)
    requires
        x.len() == 16,
        key.len() == 16,
        round_forward_last(round_backward_last(x, key), key) == x,
    ensures
        round_backward_last(x, key) == round_backward_last(xor_blocks(x, key), zero_block()),
{
    let w = round_backward_last(x, key);
    let e = round_forward_last(w, zero_block());
    lemma_keyless_rounds(w);
    assert(round_forward_last(w, key) == xor_blocks(e, key));
    lemma_xor_blocks_cancel(e, key);
    assert(e == xor_blocks(x, key));
    lemma_keyless_last_rounds_inverse(w);
}

/// A forward round followed by a backward round with the same key gives the block back where
/// the forward round agrees with the inverse of the backward round.
pub proof fn lemma_round_trip(x: Seq<u8>, key: Seq<u8>)
    requires
        x.len() == 16,
        key.len() == 16,
        round_forward(x, key) == round_backward_inverse(x, key),
    ensures
        round_backward(round_forward(x, key), key) == x,
{
    lemma_round_backward_inverse(x, key);
}

/// The round trip of the rounds holds on no other blocks and keys than those of
/// `lemma_round_trip`.
pub proof fn lemma_round_trip_only_if(x: Seq<u8>, key: Seq<u8>)
    requires
        x.len() == 16,
        key.len() == 16,
        round_backward(round_forward(x, key), key) == x,
    ensures
        round_forward(x, key) == round_backward_inverse(x, key),
{
    lemma_round_backward_inverse(round_forward(x, key), key);
}

/// The state before the chunks `from`, ..., `to - 1` of `data` were consumed, given the state
/// `hash` after them: the chunks are undone from the last to the first.
pub open spec fn unabsorb(hash: Seq<u8>, data: Seq<u8>, from: nat, to: nat) -> Seq<u8>
    decreases to - from,
{
    if to <= from {
        hash
    } else {
        xor_blocks(inv_round4(unabsorb(hash, data, from + 1, to)), chunk_at(data, from as int))
    }
}

/// Consuming the chunks again from the state that `unabsorb` gives leads back to the hash.
pub proof fn lemma_unabsorb_inverse(hash: Seq<u8>, data: Seq<u8>, from: nat, to: nat)
    requires
        hash.len() == 16,
    ensures
        unabsorb(hash, data, from, to).len() == 16,
        absorb(unabsorb(hash, data, from, to), data, from, to) == hash,
    decreases to - from,
{
    if from < to {
        let next = unabsorb(hash, data, from + 1, to);
        lemma_unabsorb_inverse(hash, data, from + 1, to);
        let c = chunk_at(data, from as int);
        let start = xor_blocks(inv_round4(next), c);
        lemma_round4_inverse(next);
        lemma_xor_blocks_cancel(inv_round4(next), c);
        lemma_absorb_front(start, data, from, to);
    }
}

/// Undoing a run of chunks from the state reached by consuming them leads back to the state
/// before them.
pub proof fn lemma_absorb_unabsorb(state: Seq<u8>, data: Seq<u8>, from: nat, to: nat)
    requires
        state.len() == 16,
    ensures
        unabsorb(absorb(state, data, from, to), data, from, to) == state,
    decreases to - from,
{
    if from < to {
        let c = chunk_at(data, from as int);
        let mixed = xor_blocks(state, c);
        let next = round4(mixed);
        lemma_round4_inverse(mixed);
        lemma_absorb_front(state, data, from, to);
        lemma_absorb_unabsorb(next, data, from + 1, to);
        lemma_xor_blocks_cancel(state, c);
    }
}

/// The state before a run of chunks depends on the data only through those chunks: undoing a
/// run of `whole` that starts `offset` chunks in leads where undoing the same chunks of `part`
/// leads.
pub proof fn lemma_unabsorb_shift(
    hash: Seq<u8>,
    whole: Seq<u8>,
    part: Seq<u8>,
    offset: nat,
    from: nat,
    to: nat,
)
    requires
        forall|j: int| from <= j < to ==> chunk_at(whole, offset + j) == chunk_at(part, j),
    ensures
        unabsorb(hash, whole, offset + from, offset + to) == unabsorb(hash, part, from, to),
    decreases to - from,
{
    if from < to {
        lemma_unabsorb_shift(hash, whole, part, offset, from + 1, to);
        assert(chunk_at(whole, (offset + from) as int) == chunk_at(part, from as int));
    }
}

/// Undoes one backward round with `key`: the result is the block that the round maps to
/// `data`.
pub fn inv_aes_dec(data: Block, key: Block) -> (r: Block)
    ensures
        r@ == round_backward_inverse(data@, key@),
        round_backward(r@, key@) == data@,
{
    let zero: Block = [0u8; 16];
    assert(zero@ =~= zero_block());
    proof {
        lemma_round_backward_inverse(data@, key@);
    }
    xor(data, key).aes_dec_last(zero).aes_enc(zero).aes_enc_last(zero)
}

/// Undoes the four backward rounds of one hash step: the result is the block that `round4`
/// maps to `hash`.
pub fn inv_aes_decx4(hash: Block) -> (r: Block)
    ensures
        r@ == inv_round4(hash@),
        round4(r@) == hash@,
{
    let zero: Block = [0u8; 16];
    assert(zero@ =~= zero_block());
    proof {
        reveal(inv_round4);
        lemma_round4_inverse(hash@);
    }
    hash.aes_dec_last(zero).aes_enc(zero).aes_enc(zero).aes_enc(zero).aes_enc(zero).aes_enc_last(
        zero,
    )
}

/// Undoes the hash step that consumed the full chunk `chunk`: the result is the state from
/// which that step leads to `hash`.
pub fn invert_block(hash: Block, chunk: &[u8]) -> (r: Block)
    requires
        chunk@.len() == 16,
    ensures
        r@ == xor_blocks(inv_round4(hash@), chunk@),
        round4(xor_blocks(r@, chunk@)) == hash@,
{
    let value = load_chunk(chunk, 0);
    assert(value@ =~= chunk@);
    proof {
        lemma_round4_inverse(hash@);
        lemma_xor_blocks_cancel(inv_round4(hash@), chunk@);
    }
    xor(inv_aes_decx4(hash), value)
}

/// Undoes the hash step that consumed `suffix` as the last chunk of a message, padded with
/// zero bytes: the result is the state from which that step leads to `hash`.
pub fn invert_last(suffix: &[u8], hash: Block) -> (r: Block)
    requires
        suffix@.len() <= 16,
    ensures
        r@ == xor_blocks(inv_round4(hash@), chunk_at(suffix@, 0)),
        round4(xor_blocks(r@, chunk_at(suffix@, 0))) == hash@,
{
    let value = load_chunk(suffix, 0);
    proof {
        lemma_round4_inverse(hash@);
        lemma_xor_blocks_cancel(inv_round4(hash@), value@);
    }
    xor(inv_aes_decx4(hash), value)
}

} // verus!
