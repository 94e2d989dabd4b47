//! Blocks of sixteen bytes: exclusive or, and the chunks of a message.

use vstd::prelude::*;

verus! {

/// A block: the unit of hash state, of round input and output, and of message chunking.
pub type Block = [u8; 16];

/// The all-zero block.
pub open spec fn zero_block() -> Seq<u8> {
    Seq::new(16, |i: int| 0u8)
}

/// Lane-wise exclusive or of two blocks.
pub open spec fn xor_blocks(a: Seq<u8>, b: Seq<u8>) -> Seq<u8> {
    Seq::new(16, |i: int| a[i] ^ b[i])
}

/// The `index`-th 16-byte chunk of `data`, padded with zero bytes on the right.
pub open spec fn chunk_at(data: Seq<u8>, index: int) -> Seq<u8> {
    Seq::new(16, |k: int| if 16 * index + k < data.len() { data[16 * index + k] } else { 0u8 })
}

pub proof fn lemma_xor_byte(a: u8, b: u8, c: u8)
    ensures
        a ^ b == b ^ a,
        (a ^ b) ^ c == a ^ (b ^ c),
        (a ^ b) ^ b == a,
        a ^ 0 == a,
        a ^ a == 0,
{
    assert(a ^ b == b ^ a) by (bit_vector);
    assert((a ^ b) ^ c == a ^ (b ^ c)) by (bit_vector);
    assert((a ^ b) ^ b == a) by (bit_vector);
    assert(a ^ 0 == a) by (bit_vector);
    assert(a ^ a == 0) by (bit_vector);
}

/// Exclusive or with the same block twice gives the first block back; the zero block is
/// neutral.
pub proof fn lemma_xor_blocks_cancel(a: Seq<u8>, b: Seq<u8>)
    requires
        a.len() == 16,
    ensures
        xor_blocks(xor_blocks(a, b), b) == a,
        xor_blocks(a, zero_block()) == a,
        xor_blocks(zero_block(), a) == a,
        xor_blocks(b, b) == zero_block(),
{
    assert forall|i: int| 0 <= i < 16 implies xor_blocks(xor_blocks(a, b), b)[i] == a[i] by {
        lemma_xor_byte(a[i], b[i], 0);
    }
    assert forall|i: int| 0 <= i < 16 implies xor_blocks(a, zero_block())[i] == a[i]
        && xor_blocks(zero_block(), a)[i] == a[i] by {
        lemma_xor_byte(a[i], 0, 0);
        lemma_xor_byte(0, a[i], 0);
    }
    assert forall|i: int| 0 <= i < 16 implies xor_blocks(b, b)[i] == 0u8 by {
        lemma_xor_byte(b[i], b[i], 0);
    }
    assert(xor_blocks(xor_blocks(a, b), b) =~= a);
    assert(xor_blocks(a, zero_block()) =~= a);
    assert(xor_blocks(zero_block(), a) =~= a);
    assert(xor_blocks(b, b) =~= zero_block());
}

/// Lane-wise exclusive or.
pub fn xor(a: Block, b: Block) -> (r: Block)
    ensures
        r@ == xor_blocks(a@, b@),
{
    let mut r: Block = [0u8; 16];
    let mut i: usize = 0;
    while i < 16
        invariant
            i <= 16,
            forall|k: int| 0 <= k < i ==> r@[k] == a@[k] ^ b@[k],
        decreases 16 - i,
    {
        r[i] = a[i] ^ b[i];
        i += 1;
    }
    assert(r@ =~= xor_blocks(a@, b@));
    r
}

/// Copies the `index`-th 16-byte chunk of `data` into a block, padding with zero bytes.
pub fn load_chunk(data: &[u8], index: usize) -> (r: Block)
    requires
        16 * index <= data.len(),
    ensures
        r@ == chunk_at(data@, index as int),
{
    let start: usize = 16 * index;
    let mut r: Block = [0u8; 16];
    let mut k: usize = 0;
    while k < 16 && k < data.len() - start
        invariant
            k <= 16,
            start == 16 * index,
            start + k <= data.len(),
            forall|j: int| 0 <= j < k ==> r@[j] == data@[start + j],
            forall|j: int| k <= j < 16 ==> r@[j] == 0u8,
        decreases 16 - k,
    {
        r[k] = data[start + k];
        k += 1;
    }
    assert(r@ =~= chunk_at(data@, index as int));
    r
}

} // verus!
