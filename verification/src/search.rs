//! The search for a filler that makes the forged block a block of digits and letters.

use crate::attacks::{
    lemma_preimage_message, preimage_message, preimage_prefix_hash, single_prefix, suffix_chunks,
};
use crate::block::{chunk_at, xor, zero_block, Block};
use crate::cancel::{is_cancelled, request_cancel};
use crate::charset::{all_alphanumeric, check_alphanum, is_alphanumeric};
use crate::hash::glyph_hash;
use crate::inversion::{inv_aes_decx4, lemma_unabsorb_shift, unabsorb};
use crate::srng::{
    alphanum_chars, lemma_char_classes, lemma_xorshift_injective, next_state, word_at, xorshift,
    SRng,
};
use std::sync::atomic::AtomicBool;
use vstd::prelude::*;
use vstd::slice::{slice_subrange, slice_to_vec};

verus! {

/// Number of bytes after the forged block that the search fills with random digits and
/// letters.
pub const ATTACK_BYTES: usize = 6;

/// The seed that each worker multiplies, lane by lane, by its number plus one.
pub const SEARCH_SEED: [u64; 4] = [17820195240, 4041143216, 22093178114, 2324176188];

/// Why a search gave no message.
#[derive(Clone, Copy, Debug, PartialEq, Eq, Structural)]
pub enum SearchError {
    /// Another worker of the search had set the flag.
    Cancelled,
    /// None of the draws that the worker was allowed gave a message.
    SearchExhausted,
    /// The message to build would be longer than a length can say.
    MalformedInput,
}

/// What one draw of a worker came to.
#[derive(Debug)]
pub enum SearchStep {
    /// The draw gave this message.
    Found(Vec<u8>),
    /// The draw gave no message.
    Continue,
    /// The flag was set: nothing was drawn.
    Cancelled,
}

/// The state that worker number `worker` starts from.
pub open spec fn worker_seed(worker: u64) -> Seq<u64> {
    Seq::new(4, |i: int| SEARCH_SEED[i].wrapping_mul(worker.wrapping_add(1)))
}

/// The state of worker number `worker` after `draws` draws.
pub open spec fn lane_state(worker: u64, draws: nat) -> Seq<u64>
    decreases draws,
{
    if draws == 0 {
        worker_seed(worker)
    } else {
        next_state(lane_state(worker, (draws - 1) as nat))
    }
}

/// The filler that a state gives: the first six of its digits and letters.
pub open spec fn filler_of(state: Seq<u64>) -> Seq<u8> {
    alphanum_chars(state).subrange(0, 6)
}

/// The filler of draw number `k`, counted from zero, of worker number `worker`.
pub open spec fn filler_at(worker: u64, k: nat) -> Seq<u8> {
    filler_of(lane_state(worker, k + 1))
}

/// The message that a filler gives: the one that ends with the filler and the suffix and
/// hashes to the all-zero block.
pub open spec fn forged_message(filler: Seq<u8>, suffix: Seq<u8>) -> Seq<u8> {
    preimage_message(zero_block(), filler + suffix)
}

/// The first block of the forged message.
pub open spec fn forged_prefix(filler: Seq<u8>, suffix: Seq<u8>) -> Seq<u8> {
    forged_message(filler, suffix).subrange(0, 16)
}

/// The filler gives a forged block of digits and letters only.
pub open spec fn is_hit(filler: Seq<u8>, suffix: Seq<u8>) -> bool {
    all_alphanumeric(forged_prefix(filler, suffix))
}

/// The part of the suffix that follows the chunk which holds the filler: that chunk holds the
/// six bytes of the filler and the first ten of the suffix.
pub open spec fn suffix_rest(suffix: Seq<u8>) -> Seq<u8> {
    if suffix.len() < 10 {
        Seq::empty()
    } else {
        suffix.subrange(10, suffix.len() as int)
    }
}

/// Two workers with different numbers are never in the same state after the same number of
/// draws. It holds for the numbers whose seed does not wrap round in the first lane.
pub proof fn lemma_workers_differ(a: u64, b: u64, draws: nat)
    requires
        a != b,
        SEARCH_SEED[0] * (a + 1) <= u64::MAX,
        SEARCH_SEED[0] * (b + 1) <= u64::MAX,
    ensures
        lane_state(a, draws)[0] != lane_state(b, draws)[0],
        lane_state(a, draws) != lane_state(b, draws),
    decreases draws,
{
    if draws == 0 {
        assert(worker_seed(a)[0] == SEARCH_SEED[0] * (a + 1));
        assert(worker_seed(b)[0] == SEARCH_SEED[0] * (b + 1));
    } else {
        let before_a = lane_state(a, (draws - 1) as nat);
        let before_b = lane_state(b, (draws - 1) as nat);
        lemma_workers_differ(a, b, (draws - 1) as nat);
        if xorshift(before_a[0]) == xorshift(before_b[0]) {
            lemma_xorshift_injective(before_a[0], before_b[0]);
        }
    }
}

/// Whatever the filler, the forged message hashes to the all-zero block. It ends with the
/// suffix, and where the filler is of digits and letters and gives a hit, so are its first 22
/// bytes, and the whole message where the suffix is so too.
pub proof fn lemma_forged_message(filler: Seq<u8>, suffix: Seq<u8>)
    requires
        filler.len() == 6,
    ensures
        glyph_hash(forged_message(filler, suffix)) == zero_block(),
        forged_message(filler, suffix).len() == 22 + suffix.len(),
        forged_message(filler, suffix).subrange(16, 22) == filler,
        forged_message(filler, suffix).subrange(22, 22 + suffix.len() as int) == suffix,
        is_hit(filler, suffix) && all_alphanumeric(filler) ==> all_alphanumeric(
            forged_message(filler, suffix).subrange(0, 22),
        ),
        is_hit(filler, suffix) && all_alphanumeric(filler) && all_alphanumeric(suffix)
            ==> all_alphanumeric(forged_message(filler, suffix)),
{
    let tail = filler + suffix;
    let block = forged_prefix(filler, suffix);
    let message = forged_message(filler, suffix);
    lemma_preimage_message(zero_block(), tail);
    assert(message.subrange(16, 22) =~= filler);
    assert(message.subrange(22, 22 + suffix.len() as int) =~= suffix);
    if is_hit(filler, suffix) && all_alphanumeric(filler) {
        let head = message.subrange(0, 22);
        assert forall|i: int| 0 <= i < head.len() implies is_alphanumeric(#[trigger] head[i]) by {
            if i < 16 {
                assert(head[i] == block[i]);
            } else {
                assert(head[i] == filler[i - 16]);
            }
        }
        if all_alphanumeric(suffix) {
            assert forall|i: int| 0 <= i < message.len() implies is_alphanumeric(
                #[trigger] message[i],
            ) by {
                if i < 22 {
                    assert(message[i] == head[i]);
                } else {
                    assert(message[i] == suffix[i - 22]);
                }
            }
        }
    }
}

/// One worker of a search: its generator, and what of the inversion does not depend on the
/// filler.
pub struct SearchLane {
    rng: SRng,
    /// The state after the chunk that holds the filler.
    target_hash: Block,
    /// The chunk that holds the filler, whose first six bytes each draw overwrites.
    controlled: Block,
    suffix: Vec<u8>,
}

impl SearchLane {
    /// The fields that do not depend on the filler hold what they are named for.
    pub closed spec fn wf(self) -> bool {
        let rest = suffix_rest(self.suffix@);
        &&& self.suffix@.len() + 22 <= usize::MAX
        &&& self.target_hash@ == unabsorb(zero_block(), rest, 0, suffix_chunks(rest.len()))
        &&& forall|k: int|
            6 <= k < 16 ==> self.controlled@[k] == if k - 6 < self.suffix@.len() {
                self.suffix@[k - 6]
            } else {
                0u8
            }
    }

    /// The suffix that the worker searches a message for.
    pub closed spec fn suffix(self) -> Seq<u8> {
        self.suffix@
    }

    /// The state of the worker's generator.
    pub closed spec fn rng_state(self) -> Seq<u64> {
        self.rng@
    }

    /// Worker number `worker` of the search for `suffix`, before its first draw. It is refused
    /// where the message would be longer than a length can say.
    pub fn new(suffix: &[u8], worker: u64) -> (r: Result<SearchLane, SearchError>)
        ensures
            match r {
                Ok(lane) => {
                    &&& suffix@.len() + 22 <= usize::MAX
                    &&& lane.wf()
                    &&& lane.suffix() == suffix@
                    &&& lane.rng_state() == worker_seed(worker)
                },
                Err(e) => e == SearchError::MalformedInput && suffix@.len() + 22 > usize::MAX,
            },
    {
        let len: usize = suffix.len();
        if len > usize::MAX - 22 {
            return Err(SearchError::MalformedInput);
        }
        let head: usize = if len < 10 { len } else { 10 };
        let rest = slice_subrange(suffix, head, len);
        assert(rest@ =~= suffix_rest(suffix@));
        let zero: Block = [0u8; 16];
        assert(zero@ =~= zero_block());
        let target_hash = preimage_prefix_hash(zero, rest);
        let mut controlled: Block = [0u8; 16];
        let mut k: usize = 0;
        while k < head
            invariant
                k <= head <= 10,
                head <= suffix@.len(),
                forall|j: int| 6 <= j < 6 + k ==> controlled@[j] == suffix@[j - 6],
                forall|j: int| 6 + k <= j < 16 ==> controlled@[j] == 0u8,
            decreases head - k,
        {
            controlled[ATTACK_BYTES + k] = suffix[k];
            k += 1;
        }
        let factor: u64 = worker.wrapping_add(1);
        let mut seed: [u64; 4] = [0u64; 4];
        let mut i: usize = 0;
        while i < 4
            invariant
                i <= 4,
                factor == worker.wrapping_add(1),
                forall|j: int| 0 <= j < i ==> seed@[j] == SEARCH_SEED[j].wrapping_mul(factor),
            decreases 4 - i,
        {
            seed[i] = SEARCH_SEED[i].wrapping_mul(factor);
            i += 1;
        }
        assert(seed@ =~= worker_seed(worker));
        Ok(SearchLane { rng: SRng::new(seed), target_hash, controlled, suffix: slice_to_vec(suffix) })
    }

    /// The forged message of `filler`, where the filler is a hit: where the block that makes
    /// the message hash to the all-zero block is of digits and letters only.
    pub fn try_filler(&mut self, filler: [u8; 6]) -> (r: Option<Vec<u8>>)
        requires
            old(self).wf(),
        ensures
            final(self).wf(),
            final(self).suffix() == old(self).suffix(),
            final(self).rng_state() == old(self).rng_state(),
            match r {
                Some(message) => is_hit(filler@, old(self).suffix()) && message@ == forged_message(
                    filler@,
                    old(self).suffix(),
                ),
                None => !is_hit(filler@, old(self).suffix()),
            },
    {
        let mut k: usize = 0;
        while k < ATTACK_BYTES
            invariant
                k <= 6,
                self.suffix == old(self).suffix,
                self.rng == old(self).rng,
                self.target_hash == old(self).target_hash,
                forall|j: int| 0 <= j < k ==> self.controlled@[j] == filler@[j],
                forall|j: int| 6 <= j < 16 ==> self.controlled@[j] == old(self).controlled@[j],
            decreases 6 - k,
        {
            self.controlled[k] = filler[k];
            k += 1;
        }
        let ghost suffix = self.suffix@;
        let ghost tail = filler@ + suffix;
        let ghost rest = suffix_rest(suffix);
        let len: usize = self.suffix.len();
        let prefix_hash = xor(inv_aes_decx4(self.target_hash), self.controlled);
        let prefix = single_prefix(len + 22, prefix_hash);
        proof {
            let chunks = suffix_chunks(tail.len());
            assert(self.controlled@ =~= chunk_at(tail, 0));
            assert(suffix_chunks(rest.len()) + 1 == chunks);
            assert forall|j: int| 0 <= j < chunks - 1 implies chunk_at(tail, 1 + j) == chunk_at(
                rest,
                j,
            ) by {
                assert(chunk_at(tail, 1 + j) =~= chunk_at(rest, j));
            }
            lemma_unabsorb_shift(zero_block(), tail, rest, 1, 0, (chunks - 1) as nat);
            assert(prefix_hash@ == unabsorb(zero_block(), tail, 0, chunks));
            assert(prefix@ =~= forged_prefix(filler@, suffix));
        }
        if !check_alphanum(prefix) {
            return None;
        }
        let mut message: Vec<u8> = Vec::new();
        let mut i: usize = 0;
        while i < 16
            invariant
                i <= 16,
                message@ == prefix@.subrange(0, i as int),
            decreases 16 - i,
        {
            message.push(prefix[i]);
            assert(message@ =~= prefix@.subrange(0, i + 1));
            i += 1;
        }
        assert(prefix@.subrange(0, 16) =~= prefix@);
        let mut f: usize = 0;
        while f < ATTACK_BYTES
            invariant
                f <= 6,
                message@ == prefix@ + filler@.subrange(0, f as int),
            decreases 6 - f,
        {
            message.push(filler[f]);
            assert(message@ =~= prefix@ + filler@.subrange(0, f + 1));
            f += 1;
        }
        assert(filler@.subrange(0, 6) =~= filler@);
        let mut s: usize = 0;
        while s < len
            invariant
                s <= len,
                len == self.suffix@.len(),
                suffix == self.suffix@,
                message@ == prefix@ + filler@ + suffix.subrange(0, s as int),
            decreases len - s,
        {
            message.push(self.suffix[s]);
            assert(message@ =~= prefix@ + filler@ + suffix.subrange(0, s + 1));
            s += 1;
        }
        assert(suffix.subrange(0, len as int) =~= suffix);
        assert(message@ =~= forged_message(filler@, suffix));
        Some(message)
    }

    /// One turn of the worker. With the flag set it draws nothing. Else it makes one draw, and
    /// gives the forged message of that draw's filler where it is a hit.
    pub fn step(&mut self, cancelled: bool) -> (r: SearchStep)
        requires
            old(self).wf(),
        ensures
            final(self).wf(),
            final(self).suffix() == old(self).suffix(),
            cancelled ==> r is Cancelled && final(self).rng_state() == old(self).rng_state(),
            !cancelled ==> final(self).rng_state() == next_state(old(self).rng_state()),
            !cancelled ==> match r {
                SearchStep::Found(message) => {
                    &&& is_hit(filler_of(final(self).rng_state()), old(self).suffix())
                    &&& message@ == forged_message(
                        filler_of(final(self).rng_state()),
                        old(self).suffix(),
                    )
                },
                SearchStep::Continue => !is_hit(
                    filler_of(final(self).rng_state()),
                    old(self).suffix(),
                ),
                SearchStep::Cancelled => false,
            },
    {
        if cancelled {
            return SearchStep::Cancelled;
        }
        let chars = self.rng.random_alphanum();
        let filler: [u8; 6] = [chars[0], chars[1], chars[2], chars[3], chars[4], chars[5]];
        assert(filler@ =~= filler_of(self.rng@));
        match self.try_filler(filler) {
            Some(message) => SearchStep::Found(message),
            None => SearchStep::Continue,
        }
    }
}

/// Draw number `k` of worker number `worker` is the first that gives a hit.
pub open spec fn first_hit(worker: u64, suffix: Seq<u8>, k: nat) -> bool {
    &&& is_hit(filler_at(worker, k), suffix)
    &&& forall|j: nat| j < k ==> !is_hit(#[trigger] filler_at(worker, j), suffix)
}

/// Searches, as worker number `worker`, a message that ends with `suffix`, hashes to the
/// all-zero block and begins with 22 digits and letters. Before each draw the worker reads the
/// flag and stops where it is set; with a hit it sets the flag and returns the message. It
/// makes at most `max_iterations` draws. The message is that of the worker's first hit.
pub fn find_ascii_zeros(suffix: &[u8], worker: u64, found: &AtomicBool, max_iterations: u64) -> (r:
    Result<Vec<u8>, SearchError>)
    ensures
        suffix@.len() + 22 > usize::MAX <==> r == Err::<Vec<u8>, SearchError>(
            SearchError::MalformedInput,
        ),
        match r {
            Ok(message) => {
                &&& exists|k: nat|
                    k < max_iterations && first_hit(worker, suffix@, k) && message@
                        == forged_message(#[trigger] filler_at(worker, k), suffix@)
                &&& message@.len() == 22 + suffix@.len()
                &&& message@.subrange(22, message@.len() as int) == suffix@
                &&& all_alphanumeric(message@.subrange(0, 22))
                &&& all_alphanumeric(suffix@) ==> all_alphanumeric(message@)
                &&& glyph_hash(message@) == zero_block()
            },
            Err(SearchError::SearchExhausted) => forall|k: nat|
                k < max_iterations ==> !is_hit(#[trigger] filler_at(worker, k), suffix@),
            Err(_) => true,
        },
{
    let mut lane = match SearchLane::new(suffix, worker) {
        Ok(lane) => lane,
        Err(e) => {
            return Err(e);
        },
    };
    let mut i: u64 = 0;
    while i < max_iterations
        invariant
            i <= max_iterations,
            lane.wf(),
            lane.suffix() == suffix@,
            lane.rng_state() == lane_state(worker, i as nat),
            forall|k: nat| k < i ==> !is_hit(#[trigger] filler_at(worker, k), suffix@),
        decreases max_iterations - i,
    {
        let cancelled = is_cancelled(found);
        match lane.step(cancelled) {
            SearchStep::Found(message) => {
                request_cancel(found);
                proof {
                    let filler = filler_at(worker, i as nat);
                    assert(first_hit(worker, suffix@, i as nat));
                    lemma_char_classes_of_filler(lane_state(worker, (i + 1) as nat));
                    lemma_forged_message(filler, suffix@);
                }
                return Ok(message);
            },
            SearchStep::Cancelled => {
                return Err(SearchError::Cancelled);
            },
            SearchStep::Continue => {},
        }
        i += 1;
    }
    Err(SearchError::SearchExhausted)
}

/// The filler that a state gives is six digits and letters.
pub proof fn lemma_char_classes_of_filler(state: Seq<u64>)
    ensures
        filler_of(state).len() == 6,
        all_alphanumeric(filler_of(state)),
{
    assert forall|i: int| 0 <= i < 6 implies is_alphanumeric(#[trigger] filler_of(state)[i]) by {
        lemma_char_classes(word_at(state, i), 0);
    }
}

} // verus!
