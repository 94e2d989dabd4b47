//! The messages that the inverse of the hash forges: a block that leads to a chosen state, a
//! message with a chosen suffix or prefix and a chosen hash, a second message with the hash of
//! a given one, and the message behind the hash of less than one block.

use crate::block::{
    chunk_at, lemma_xor_blocks_cancel, lemma_xor_byte, xor, xor_blocks, zero_block, Block,
};
use crate::hash::{
    absorb, chunk_count, compute_glyph_hash, glyph_hash, hash_state, initial_state,
    lemma_absorb_front, lemma_absorb_len, lemma_absorb_shift, lemma_absorb_split,
    lemma_chunk_of_concat, lemma_length_prefix_next, lemma_length_prefix_small, length_prefix,
    length_prefix_block, round4, DEFAULT_SEED,
};
use crate::inversion::{
    inv_aes_decx4, inv_round4, invert_block, invert_last, lemma_round4_inverse,
    lemma_unabsorb_inverse, unabsorb,
};
use vstd::prelude::*;
use vstd::slice::slice_subrange;

verus! {

/// Why an attack gave no message.
#[derive(Clone, Copy, Debug, PartialEq, Eq, Structural)]
pub enum AttackError {
    /// The hash is not that of a message shorter than one block: the recovered block has no
    /// zero byte at its end.
    NotInvertibleSingleBlock,
    /// The message to build would be longer than a length can say.
    MalformedInput,
}

/// The byte `A`, with which a chosen prefix is filled up to a block boundary.
pub const FILLER: u8 = 0x41;

/// The block which, as the first chunk of a message of `count` bytes, leads to the state
/// `target`.
pub open spec fn single_prefix_block(count: nat, target: Seq<u8>) -> Seq<u8> {
    xor_blocks(xor_blocks(inv_round4(target), length_prefix_block(count as u64)), DEFAULT_SEED@)
}

/// The number of chunks that `len` bytes take when they follow a block boundary: none for no
/// bytes.
pub open spec fn suffix_chunks(len: nat) -> nat {
    (len + 15) / 16
}

/// The number of filler bytes after a chosen prefix of `len` bytes: as many as reach the next
/// block boundary, a whole block where the prefix ends on one.
pub open spec fn filler_len(len: nat) -> nat {
    (16 - len % 16) as nat
}

/// The state that the forged block of a prefix collision leads to: the first state of
/// `message`, from which its chunks follow; its hash where it is empty and no chunk follows.
pub open spec fn collision_target(message: Seq<u8>) -> Seq<u8> {
    if message.len() == 0 {
        glyph_hash(message)
    } else {
        initial_state(message.len())
    }
}

/// The message with one block before it that has the hash of `message`.
pub open spec fn collision_message(message: Seq<u8>) -> Seq<u8> {
    single_prefix_block(16 + message.len(), collision_target(message)) + message
}

/// The message that ends with `suffix` and hashes to `target`: the block that leads to the
/// state before the suffix, then the suffix.
pub open spec fn preimage_message(target: Seq<u8>, suffix: Seq<u8>) -> Seq<u8> {
    single_prefix_block(
        16 + suffix.len(),
        unabsorb(target, suffix, 0, suffix_chunks(suffix.len())),
    ) + suffix
}

/// A chosen prefix with its filler bytes.
pub open spec fn padded_prefix(prefix: Seq<u8>) -> Seq<u8> {
    prefix + Seq::new(filler_len(prefix.len()), |i: int| FILLER)
}

/// The last block of the message that starts with `head`, a whole number of blocks, and hashes
/// to the all-zero block.
pub open spec fn collision_block(head: Seq<u8>) -> Seq<u8> {
    xor_blocks(
        absorb(initial_state(head.len() + 16), head, 0, head.len() / 16),
        inv_round4(zero_block()),
    )
}

/// The message with a zero byte appended, and with the change that this makes to the first
/// byte of the length prefix taken out of its first byte.
pub open spec fn padded_twin(message: Seq<u8>) -> Seq<u8> {
    let longer = message.push(0u8);
    let len = message.len();
    longer.update(
        0,
        longer[0] ^ length_prefix_block(len as u64)[0] ^ length_prefix_block((len + 1) as u64)[0],
    )
}

/// The length of `s` without the zero bytes at its end.
pub open spec fn significant_len(s: Seq<u8>) -> nat
    decreases s.len(),
{
    if s.len() == 0 {
        0
    } else if s.last() != 0 {
        s.len()
    } else {
        significant_len(s.drop_last())
    }
}

/// The first chunk of a message shorter than one block, mixed with its length prefix, as it
/// is recovered from the hash.
pub open spec fn single_block_buffer(hash: Seq<u8>) -> Seq<u8> {
    xor_blocks(inv_round4(hash), DEFAULT_SEED@)
}

/// The message read from the recovered block: its length is where the zero bytes at the end
/// begin, and the length is taken out of its first byte.
pub open spec fn recovered_message(hash: Seq<u8>) -> Seq<u8> {
    let buffer = single_block_buffer(hash);
    let len = significant_len(buffer);
    buffer.update(0, buffer[0] ^ (len as u8)).subrange(0, len as int)
}

/// `significant_len` is the one length after which all bytes are zero and before which the
/// last byte is not.
pub proof fn lemma_significant_len(s: Seq<u8>, n: nat)
    requires
        n <= s.len(),
        forall|i: int| n <= i < s.len() ==> s[i] == 0,
        n == 0 || s[n - 1] != 0,
    ensures
        significant_len(s) == n,
    decreases s.len(),
{
    if s.len() > n {
        lemma_significant_len(s.drop_last(), n);
    }
}

/// The first chunk `single_prefix_block(count, target)` of a message of `count` bytes leads to
/// the state `target`; where the message has no other chunk, `target` is its hash.
pub proof fn lemma_single_prefix_forges(message: Seq<u8>, target: Seq<u8>)
    requires
        target.len() == 16,
        chunk_at(message, 0) == single_prefix_block(message.len(), target),
    ensures
        hash_state(message, 1) == target,
        chunk_count(message.len()) == 1 ==> glyph_hash(message) == target,
{
    lemma_single_prefix_block(message.len(), target);
    assert(absorb(initial_state(message.len()), message, 0, 0) == initial_state(message.len()));
}

/// One hash step from the first state of a message of `count` bytes, on the block
/// `single_prefix_block(count, target)`, gives `target`.
pub proof fn lemma_single_prefix_block(count: nat, target: Seq<u8>)
    requires
        target.len() == 16,
    ensures
        round4(xor_blocks(initial_state(count), single_prefix_block(count, target))) == target,
{
    let inv = inv_round4(target);
    let len = length_prefix_block(count as u64);
    let seed = DEFAULT_SEED@;
    let mixed = xor_blocks(initial_state(count), single_prefix_block(count, target));
    lemma_round4_inverse(target);
    assert forall|i: int| 0 <= i < 16 implies mixed[i] == inv[i] by {
        let a = inv[i];
        let b = len[i];
        let c = seed[i];
        assert((b ^ c) ^ ((a ^ b) ^ c) == a) by (bit_vector);
    }
    assert(mixed =~= inv);
}

/// The block which, as the first chunk of a message of `count` bytes, leads to the state
/// `target_hash`.
pub fn single_prefix(count: usize, target_hash: Block) -> (prefix: Block)
    ensures
        prefix@ == single_prefix_block(count as nat, target_hash@),
        round4(xor_blocks(initial_state(count as nat), prefix@)) == target_hash@,
{
    proof {
        lemma_single_prefix_block(count as nat, target_hash@);
    }
    xor(xor(inv_aes_decx4(target_hash), length_prefix(count)), DEFAULT_SEED)
}

/// The state before `data` was consumed, given the state `hash` after it, where `data` starts
/// on a block boundary of its message and ends the message. The chunks are undone from the
/// last to the first, a shorter last chunk before the full ones.
pub fn preimage_prefix_hash(hash: Block, data: &[u8]) -> (prior: Block)
    ensures
        prior@ == unabsorb(hash@, data@, 0, suffix_chunks(data@.len())),
        absorb(prior@, data@, 0, suffix_chunks(data@.len())) == hash@,
{
    let len: usize = data.len();
    let chunks: usize = len / 16;
    let ghost total = suffix_chunks(len as nat);
    let mut state: Block = hash;
    if len % 16 != 0 {
        let tail = slice_subrange(data, chunks * 16, len);
        assert(chunk_at(tail@, 0) =~= chunk_at(data@, chunks as int));
        state = invert_last(tail, state);
        assert(unabsorb(hash@, data@, total, total) == hash@);
    }
    let mut i: usize = chunks;
    while i > 0
        invariant
            i <= chunks,
            len == data@.len(),
            chunks == len / 16,
            total == suffix_chunks(len as nat),
            state@ == unabsorb(hash@, data@, i as nat, total),
        decreases i,
    {
        i -= 1;
        let chunk = slice_subrange(data, 16 * i, 16 * i + 16);
        assert(chunk@ =~= chunk_at(data@, i as int));
        state = invert_block(state, chunk);
    }
    proof {
        lemma_unabsorb_inverse(hash@, data@, 0, total);
    }
    state
}

/// The bytes of `prefix` followed by those of `target`.
pub fn concat(prefix: Block, target: &[u8]) -> (image: Vec<u8>)
    ensures
        image@ == prefix@ + target@,
{
    let mut image: Vec<u8> = Vec::new();
    let mut i: usize = 0;
    while i < 16
        invariant
            i <= 16,
            image@ == prefix@.subrange(0, i as int),
        decreases 16 - i,
    {
        image.push(prefix[i]);
        assert(image@ =~= prefix@.subrange(0, i + 1));
        i += 1;
    }
    assert(prefix@.subrange(0, 16) =~= prefix@);
    let mut k: usize = 0;
    while k < target.len()
        invariant
            k <= target.len(),
            image@ == prefix@ + target@.subrange(0, k as int),
        decreases target.len() - k,
    {
        image.push(target[k]);
        assert(image@ =~= prefix@ + target@.subrange(0, k + 1));
        k += 1;
    }
    assert(target@.subrange(0, target@.len() as int) =~= target@);
    image
}

/// A message that is one block followed by `rest` has the hash that consuming `rest` gives,
/// from the state after the block.
pub proof fn lemma_hash_of_block_then_rest(block: Seq<u8>, rest: Seq<u8>)
    requires
        block.len() == 16,
    ensures
        glyph_hash(block + rest) == absorb(
            round4(xor_blocks(initial_state(16 + rest.len()), block)),
            rest,
            0,
            suffix_chunks(rest.len()),
        ),
{
    let message = block + rest;
    let start = initial_state(message.len());
    let chunks = suffix_chunks(rest.len());
    assert(chunk_count(message.len()) == 1 + chunks);
    lemma_absorb_split(start, message, 0, 1, 1 + chunks);
    let after = absorb(start, message, 0, 1);
    assert(absorb(start, message, 0, 0) == start);
    lemma_chunk_of_concat(block, rest, 1, 0);
    assert(chunk_at(block, 0) =~= block);
    assert(after == round4(xor_blocks(start, block)));
    assert forall|j: int| 0 <= j < chunks implies chunk_at(message, 1 + j) == chunk_at(
        rest,
        j,
    ) by {
        lemma_chunk_of_concat(block, rest, 1, j);
    }
    lemma_absorb_shift(after, message, rest, 1, 0, chunks);
}

/// The message `preimage_message(target, suffix)` hashes to `target` and ends with `suffix`.
pub proof fn lemma_preimage_message(target: Seq<u8>, suffix: Seq<u8>)
    requires
        target.len() == 16,
    ensures
        glyph_hash(preimage_message(target, suffix)) == target,
        preimage_message(target, suffix).len() == 16 + suffix.len(),
        preimage_message(target, suffix).subrange(16, 16 + suffix.len() as int) == suffix,
{
    let chunks = suffix_chunks(suffix.len());
    let prior = unabsorb(target, suffix, 0, chunks);
    let block = single_prefix_block(16 + suffix.len(), prior);
    lemma_unabsorb_inverse(target, suffix, 0, chunks);
    lemma_single_prefix_block(16 + suffix.len(), prior);
    lemma_hash_of_block_then_rest(block, suffix);
    assert(preimage_message(target, suffix).subrange(16, 16 + suffix.len() as int) =~= suffix);
}

/// The padding collision: a message and the message with a zero byte appended have the same
/// hash, once the change of the length is taken out of the first byte. It holds where the zero
/// byte opens no new chunk and the length changes in its first byte only.
pub proof fn lemma_padding_collision(message: Seq<u8>)
    requires
        message.len() == 0 || message.len() % 16 != 0,
        message.len() % 256 != 255,
        message.len() < u64::MAX,
    ensures
        padded_twin(message).len() == message.len() + 1,
        glyph_hash(padded_twin(message)) == glyph_hash(message),
{
    let len = message.len();
    let twin = padded_twin(message);
    let chunks = chunk_count(len);
    assert(chunk_count(twin.len()) == chunks);
    let start = initial_state(len);
    let start_twin = initial_state(twin.len());
    let prefix = length_prefix_block(len as u64);
    let prefix_twin = length_prefix_block((len + 1) as u64);
    let first = chunk_at(message, 0);
    let first_twin = chunk_at(twin, 0);
    lemma_length_prefix_next(len as u64);
    assert forall|i: int| 0 <= i < 16 implies xor_blocks(start, first)[i] == xor_blocks(
        start_twin,
        first_twin,
    )[i] by {
        let s = DEFAULT_SEED@[i];
        if i == 0 {
            let a = prefix[0];
            let b = prefix_twin[0];
            let c = first[0];
            assert(first_twin[0] == c ^ a ^ b);
            assert((a ^ s) ^ c == (b ^ s) ^ (c ^ a ^ b)) by (bit_vector);
        } else {
            assert(first_twin[i] == first[i]);
        }
    }
    assert(xor_blocks(start, first) =~= xor_blocks(start_twin, first_twin));
    let after = round4(xor_blocks(start, first));
    lemma_absorb_front(start, message, 0, chunks);
    lemma_absorb_front(start_twin, twin, 0, chunks);
    assert forall|j: int| 1 <= j < chunks implies chunk_at(twin, 0 + j) == chunk_at(
        message,
        j,
    ) by {
        assert(chunk_at(twin, j) =~= chunk_at(message, j));
    }
    lemma_absorb_shift(after, twin, message, 0, 1, chunks);
}

/// A message one block longer than `message` that ends with `message` and has the same hash.
/// It is refused where it would be longer than a length can say.
pub fn prefix_collision_attack(message: &[u8]) -> (r: Result<Vec<u8>, AttackError>)
    ensures
        match r {
            Ok(forgery) => {
                &&& forgery@ == collision_message(message@)
                &&& forgery@.len() == 16 + message@.len()
                &&& forgery@.subrange(16, forgery@.len() as int) == message@
                &&& glyph_hash(forgery@) == glyph_hash(message@)
            },
            Err(e) => e == AttackError::MalformedInput && message@.len() + 16 > usize::MAX,
        },
{
    let len: usize = message.len();
    if len > usize::MAX - 16 {
        return Err(AttackError::MalformedInput);
    }
    let target: Block = if len == 0 {
        compute_glyph_hash(message)
    } else {
        xor(length_prefix(len), DEFAULT_SEED)
    };
    let prefix = single_prefix(len + 16, target);
    let forgery = concat(prefix, message);
    proof {
        lemma_hash_of_block_then_rest(prefix@, message@);
        assert(forgery@.subrange(16, forgery@.len() as int) =~= message@);
        if len == 0 {
            assert(absorb(target@, message@, 0, 0) == target@);
        }
    }
    Ok(forgery)
}

/// A message that hashes to `target_hash` and ends with `suffix`: one block, then `suffix`.
/// It is refused where it would be longer than a length can say.
pub fn preimage_attack(target_hash: Block, suffix: &[u8]) -> (r: Result<Vec<u8>, AttackError>)
    ensures
        match r {
            Ok(message) => {
                &&& message@ == preimage_message(target_hash@, suffix@)
                &&& message@.len() == 16 + suffix@.len()
                &&& message@.subrange(16, message@.len() as int) == suffix@
                &&& glyph_hash(message@) == target_hash@
            },
            Err(e) => e == AttackError::MalformedInput && suffix@.len() + 16 > usize::MAX,
        },
{
    let len: usize = suffix.len();
    if len > usize::MAX - 16 {
        return Err(AttackError::MalformedInput);
    }
    let prefix_hash = preimage_prefix_hash(target_hash, suffix);
    let preimage_prefix = single_prefix(len + 16, prefix_hash);
    let message = concat(preimage_prefix, suffix);
    proof {
        lemma_hash_of_block_then_rest(preimage_prefix@, suffix@);
        assert(message@.subrange(16, message@.len() as int) =~= suffix@);
    }
    Ok(message)
}

/// A message that starts with `prefix` and hashes to the all-zero block: `prefix`, filler bytes
/// up to the next block boundary, and one block that leads the hash to zero. It is refused
/// where it would be longer than a length can say.
pub fn chosen_prefix(prefix: &[u8]) -> (r: Result<Vec<u8>, AttackError>)
    ensures
        match r {
            Ok(message) => {
                &&& message@ == padded_prefix(prefix@) + collision_block(padded_prefix(prefix@))
                &&& message@.len() == prefix@.len() + filler_len(prefix@.len()) + 16
                &&& message@.subrange(0, prefix@.len() as int) == prefix@
                &&& glyph_hash(message@) == zero_block()
            },
            Err(e) => e == AttackError::MalformedInput && prefix@.len() + filler_len(
                prefix@.len(),
            ) + 16 > usize::MAX,
        },
{
    let len: usize = prefix.len();
    let fill: usize = 16 - len % 16;
    if len > usize::MAX - 16 - fill {
        return Err(AttackError::MalformedInput);
    }
    let padded: usize = len + fill;
    let mut message: Vec<u8> = Vec::new();
    let mut i: usize = 0;
    while i < len
        invariant
            i <= len,
            len == prefix@.len(),
            message@ == prefix@.subrange(0, i as int),
        decreases len - i,
    {
        message.push(prefix[i]);
        assert(message@ =~= prefix@.subrange(0, i + 1));
        i += 1;
    }
    assert(prefix@.subrange(0, len as int) =~= prefix@);
    let mut k: usize = 0;
    while k < fill
        invariant
            k <= fill,
            message@.len() == len + k,
            message@.subrange(0, len as int) == prefix@,
            forall|j: int| len <= j < len + k ==> message@[j] == FILLER,
        decreases fill - k,
    {
        message.push(FILLER);
        assert(message@.subrange(0, len as int) =~= prefix@);
        k += 1;
    }
    let ghost head = message@;
    let mut z: usize = 0;
    while z < 16
        invariant
            z <= 16,
            message@.len() == padded + z,
            head.len() == padded,
            message@.subrange(0, padded as int) == head,
            forall|j: int| padded <= j < padded + z ==> message@[j] == 0u8,
        decreases 16 - z,
    {
        message.push(0u8);
        assert(message@.subrange(0, padded as int) =~= head);
        z += 1;
    }
    let ghost first = message@;
    let zero: Block = [0u8; 16];
    assert(zero@ =~= zero_block());
    let hash = compute_glyph_hash(message.as_slice());
    // the state before the last block, which is all zero until here
    let pre_current = invert_block(hash, zero.as_slice());
    // the state that the last four rounds lead to the target from
    let pre_target = inv_aes_decx4(zero);
    let suffix = xor(pre_current, pre_target);
    let mut w: usize = 0;
    while w < 16
        invariant
            w <= 16,
            padded + 16 <= usize::MAX,
            message@.len() == padded + 16,
            message@.subrange(0, padded as int) == head,
            forall|j: int| 0 <= j < w ==> message@[padded + j] == suffix@[j],
        decreases 16 - w,
    {
        message[padded + w] = suffix[w];
        assert(message@.subrange(0, padded as int) =~= head);
        w += 1;
    }
    proof {
        let chunks = (padded / 16) as nat;
        let start = initial_state((padded + 16) as nat);
        let second = message@;
        assert(chunk_count((padded + 16) as nat) == chunks + 1);
        assert(first =~= head + zero_block());
        assert(second =~= head + suffix@);
        // both messages reach the same state before their last block
        let before = absorb(start, first, 0, chunks);
        assert forall|j: int| 0 <= j < chunks implies chunk_at(first, 0 + j) == chunk_at(
            second,
            j,
        ) by {
            lemma_chunk_of_concat(head, zero_block(), chunks, j);
            lemma_chunk_of_concat(head, suffix@, chunks, j);
        }
        lemma_absorb_shift(start, first, second, 0, 0, chunks);
        assert(absorb(start, second, 0, chunks) == before);
        lemma_absorb_len(start, first, 0, chunks);
        // the hash of the first message gives that state away
        lemma_chunk_of_concat(head, zero_block(), chunks, 0);
        assert(chunk_at(zero_block(), 0) =~= zero_block());
        lemma_xor_blocks_cancel(before, zero_block());
        assert(hash@ == round4(before));
        lemma_round4_inverse(before);
        lemma_xor_blocks_cancel(inv_round4(hash@), zero_block());
        assert(pre_current@ == before);
        // the last block of the second message leads from it to zero
        lemma_chunk_of_concat(head, suffix@, chunks, 0);
        assert(chunk_at(suffix@, 0) =~= suffix@);
        let goal = inv_round4(zero_block());
        lemma_round4_inverse(zero_block());
        assert forall|j: int| 0 <= j < 16 implies xor_blocks(before, suffix@)[j] == goal[j] by {
            let a = before[j];
            let b = goal[j];
            assert(a ^ (a ^ b) == b) by (bit_vector);
        }
        assert(xor_blocks(before, suffix@) =~= goal);
        assert(message@.subrange(0, len as int) =~= head.subrange(0, len as int));
        // the message is the one that the contract names
        assert(head =~= padded_prefix(prefix@));
        assert forall|j: int| 0 <= j < chunks implies chunk_at(first, 0 + j) == chunk_at(
            head,
            j,
        ) by {
            lemma_chunk_of_concat(head, zero_block(), chunks, j);
        }
        lemma_absorb_shift(start, first, head, 0, 0, chunks);
        assert(suffix@ == collision_block(head));
    }
    Ok(message)
}

/// The message shorter than one block that hashes to `hash`, read from the block that the
/// hash is inverted to. It is refused where that block has no zero byte at its end: no such
/// message has this hash.
pub fn invert_attack(hash: Block) -> (r: Result<Vec<u8>, AttackError>)
    ensures
        match r {
            Ok(message) => single_block_buffer(hash@)[15] == 0 && message@ == recovered_message(
                hash@,
            ),
            Err(e) => e == AttackError::NotInvertibleSingleBlock && single_block_buffer(hash@)[15]
                != 0,
        },
{
    let mut buffer = xor(inv_aes_decx4(hash), DEFAULT_SEED);
    let ghost recovered = buffer@;
    let mut len: usize = 16;
    while len > 0 && buffer[len - 1] == 0
        invariant
            len <= 16,
            buffer@ == recovered,
            forall|i: int| len <= i < 16 ==> recovered[i] == 0,
        decreases len,
    {
        len -= 1;
    }
    proof {
        lemma_significant_len(recovered, len as nat);
    }
    if len == 16 {
        return Err(AttackError::NotInvertibleSingleBlock);
    }
    buffer[0] = buffer[0] ^ (len as u8);
    let mut message: Vec<u8> = Vec::new();
    let mut i: usize = 0;
    while i < len
        invariant
            i <= len <= 16,
            message@ == buffer@.subrange(0, i as int),
        decreases len - i,
    {
        message.push(buffer[i]);
        assert(message@ =~= buffer@.subrange(0, i + 1));
        i += 1;
    }
    Ok(message)
}

/// For a message shorter than one block, `invert_attack` reads the message back from its hash,
/// unless the message ends in a zero byte or is the single byte 1: those hash as a shorter
/// message does.
pub proof fn lemma_single_block_round_trip(message: Seq<u8>)
    requires
        message.len() < 16,
        message.len() == 1 ==> message[0] != 1,
        message.len() >= 2 ==> message.last() != 0,
    ensures
        single_block_buffer(glyph_hash(message))[15] == 0,
        recovered_message(glyph_hash(message)) == message,
{
    let len = message.len();
    let start = initial_state(len);
    let chunk = chunk_at(message, 0);
    let mixed = xor_blocks(start, chunk);
    let prefix = length_prefix_block(len as u64);
    assert(absorb(start, message, 0, 0) == start);
    assert(glyph_hash(message) == round4(mixed));
    lemma_round4_inverse(mixed);
    let buffer = single_block_buffer(glyph_hash(message));
    lemma_length_prefix_small(len as u64);
    assert forall|i: int| 0 <= i < 16 implies buffer[i] == prefix[i] ^ chunk[i] by {
        let a = prefix[i];
        let b = DEFAULT_SEED@[i];
        let c = chunk[i];
        assert(((a ^ b) ^ c) ^ b == a ^ c) by (bit_vector);
    }
    assert forall|i: int| 1 <= i < 16 implies buffer[i] == chunk[i] by {
        lemma_xor_byte(chunk[i], 0, 0);
    }
    let n = len as u8;
    if len == 0 {
        lemma_xor_byte(0, 0, 0);
        assert(buffer[0] == 0);
    }
    if len >= 1 {
        let first = message[0];
        assert(chunk[0] == first);
        assert(buffer[0] == n ^ first);
        assert((n ^ first) ^ n == first) by (bit_vector);
        if len == 1 {
            assert(n == 1);
            assert(first != 1 ==> 1u8 ^ first != 0) by (bit_vector);
        }
    }
    lemma_significant_len(buffer, len);
    assert(recovered_message(glyph_hash(message)) =~= message);
}

} // verus!
