//! A seedable generator of random characters.

use crate::charset::{is_alphanumeric, is_base64, is_printable, is_url_base64};
use vstd::prelude::*;

verus! {

/// Number of 64-bit lanes in the generator's state.
pub const LANES: usize = 4;

/// A random number generator: four lanes of xorshift, each with 64 bits of state.
pub struct SRng {
    /// The seed and state of each lane.
    seed: [u64; 4],
}

impl View for SRng {
    type V = Seq<u64>;

    closed spec fn view(&self) -> Seq<u64> {
        self.seed@
    }
}

/// One step of a lane.
pub open spec fn xorshift(s: u64) -> u64 {
    let a = s ^ (s << 13);
    let b = a ^ (a >> 17);
    b ^ (b << 43)
}

/// The state after one step: every lane has made its step.
pub open spec fn next_state(state: Seq<u64>) -> Seq<u64> {
    Seq::new(4, |i: int| xorshift(state[i]))
}

/// The `j`-th of the sixteen 16-bit words of the state, the low word of a lane first.
pub open spec fn word_at(state: Seq<u64>, j: int) -> u16 {
    (state[j / 4] >> ((16 * (j % 4)) as u64)) as u16
}

/// The `j`-th of the thirty-two bytes of the state, the low byte of a lane first.
pub open spec fn byte_at(state: Seq<u64>, j: int) -> u8 {
    (state[j / 8] >> ((8 * (j % 8)) as u64)) as u8
}

/// A 16-bit word scaled down to a number below `range`.
pub open spec fn scale(word: u16, range: u32) -> u8 {
    ((word as int * range as int) / 65536) as u8
}

/// The value moved up by `shift` where it lies above `start`.
pub open spec fn skip(v: u8, start: u8, shift: u8) -> u8 {
    if v > start {
        (v + shift) as u8
    } else {
        v
    }
}

/// The printable character that a word gives.
pub open spec fn ascii_char(word: u16) -> u8 {
    (scale(word, 95) + 0x20) as u8
}

/// The digit or letter that a word gives: the digits, the capital letters, the small letters.
pub open spec fn alphanum_char(word: u16) -> u8 {
    skip(skip((scale(word, 62) + 0x30) as u8, 0x39, 7), 0x5a, 6)
}

/// The digit of base64 that the low six bits of a byte give: `+`, `/`, the digits, the capital
/// letters, the small letters.
pub open spec fn base64_char(byte: u8) -> u8 {
    skip(skip(skip(((byte & 0x3f) + 0x2b) as u8, 0x2b, 3), 0x39, 7), 0x5a, 6)
}

/// The digit of base64 for URLs that the low six bits of a byte give: `-`, the digits, the
/// capital letters, `_`, the small letters.
pub open spec fn url_base64_char(byte: u8) -> u8 {
    skip(skip(skip(skip(((byte & 0x3f) + 0x2d) as u8, 0x2d, 2), 0x39, 7), 0x5a, 4), 0x5f, 1)
}

/// The sixteen printable characters that a state gives.
pub open spec fn ascii_chars(state: Seq<u64>) -> Seq<u8> {
    Seq::new(16, |j: int| ascii_char(word_at(state, j)))
}

/// The sixteen digits and letters that a state gives.
pub open spec fn alphanum_chars(state: Seq<u64>) -> Seq<u8> {
    Seq::new(16, |j: int| alphanum_char(word_at(state, j)))
}

/// The thirty-two digits of base64 that a state gives.
pub open spec fn base64_chars(state: Seq<u64>) -> Seq<u8> {
    Seq::new(32, |j: int| base64_char(byte_at(state, j)))
}

/// The thirty-two digits of base64 for URLs that a state gives.
pub open spec fn url_base64_chars(state: Seq<u64>) -> Seq<u8> {
    Seq::new(32, |j: int| url_base64_char(byte_at(state, j)))
}

/// A step of a lane loses nothing: two states that step to the same state are the same.
pub proof fn lemma_xorshift_injective(a: u64, b: u64)
    requires
        xorshift(a) == xorshift(b),
    ensures
        a == b,
{
    assert(xorshift(a) == xorshift(b) ==> a == b) by (bit_vector);
}

/// A scaled word lies below the range.
pub proof fn lemma_scale_bound(word: u16, range: u32)
    requires
        0 < range <= 256,
    ensures
        (word as int * range as int) / 65536 < range,
        word as int * range as int <= 0xffff_ffff,
{
    assert(word as int * range as int <= 65535 * range as int) by (nonlinear_arith)
        requires
            word <= 65535,
            range > 0,
    ;
}

/// Each character that a word or a byte gives lies in its class.
pub proof fn lemma_char_classes(word: u16, byte: u8)
    ensures
        is_printable(ascii_char(word)),
        is_alphanumeric(alphanum_char(word)),
        is_base64(base64_char(byte)),
        is_url_base64(url_base64_char(byte)),
{
    lemma_scale_bound(word, 95);
    lemma_scale_bound(word, 62);
    assert(byte & 0x3f <= 63) by (bit_vector);
}

fn scale_word(word: u16, range: u32) -> (r: u8)
    requires
        0 < range <= 256,
    ensures
        r == scale(word, range),
        r < range,
{
    proof {
        lemma_scale_bound(word, range);
    }
    ((word as u32 * range) / 65536) as u8
}

fn skip_range(v: u8, start: u8, shift: u8) -> (r: u8)
    requires
        v + shift <= u8::MAX,
    ensures
        r == skip(v, start, shift),
{
    if v > start {
        v + shift
    } else {
        v
    }
}

impl SRng {
    /// A generator whose state is `seed`.
    pub fn new(seed: [u64; 4]) -> (rng: Self)
        ensures
            rng@ == seed@,
    {
        Self { seed }
    }

    /// Makes one step in every lane and returns the new state.
    pub fn next(&mut self) -> (r: [u64; 4])
        ensures
            final(self)@ == next_state(old(self)@),
            r@ == final(self)@,
    {
        let mut i: usize = 0;
        while i < LANES
            invariant
                i <= 4,
                forall|k: int| 0 <= k < i ==> self.seed@[k] == xorshift(old(self).seed@[k]),
                forall|k: int| i <= k < 4 ==> self.seed@[k] == old(self).seed@[k],
            decreases 4 - i,
        {
            let mut s: u64 = self.seed[i];
            s ^= s << 13;
            s ^= s >> 17;
            s ^= s << 43;
            self.seed[i] = s;
            i += 1;
        }
        assert(self.seed@ =~= next_state(old(self).seed@));
        self.seed
    }

    /// Makes one step and returns sixteen printable characters of ASCII.
    pub fn random_ascii(&mut self) -> (r: [u8; 16])
        ensures
            final(self)@ == next_state(old(self)@),
            r@ == ascii_chars(final(self)@),
            forall|j: int| 0 <= j < 16 ==> is_printable(#[trigger] r@[j]),
    {
        let state = self.next();
        let mut r: [u8; 16] = [0u8; 16];
        let mut j: usize = 0;
        while j < 16
            invariant
                j <= 16,
                forall|k: int| 0 <= k < j ==> r@[k] == ascii_char(word_at(state@, k)),
            decreases 16 - j,
        {
            let word: u16 = (state[j / 4] >> (16 * (j % 4) as u64)) as u16;
            r[j] = scale_word(word, 95) + 0x20;
            j += 1;
        }
        assert(r@ =~= ascii_chars(state@));
        assert forall|k: int| 0 <= k < 16 implies is_printable(#[trigger] r@[k]) by {
            lemma_char_classes(word_at(state@, k), 0);
        }
        r
    }

    /// Makes one step and returns sixteen digits and letters.
    pub fn random_alphanum(&mut self) -> (r: [u8; 16])
        ensures
            final(self)@ == next_state(old(self)@),
            r@ == alphanum_chars(final(self)@),
            forall|j: int| 0 <= j < 16 ==> is_alphanumeric(#[trigger] r@[j]),
    {
        let state = self.next();
        let mut r: [u8; 16] = [0u8; 16];
        let mut j: usize = 0;
        while j < 16
            invariant
                j <= 16,
                forall|k: int| 0 <= k < j ==> r@[k] == alphanum_char(word_at(state@, k)),
            decreases 16 - j,
        {
            let word: u16 = (state[j / 4] >> (16 * (j % 4) as u64)) as u16;
            let v: u8 = scale_word(word, 62) + 0x30;
            r[j] = skip_range(skip_range(v, 0x39, 7), 0x5a, 6);
            j += 1;
        }
        assert(r@ =~= alphanum_chars(state@));
        assert forall|k: int| 0 <= k < 16 implies is_alphanumeric(#[trigger] r@[k]) by {
            lemma_char_classes(word_at(state@, k), 0);
        }
        r
    }

    /// Makes one step and returns thirty-two digits of base64 in its form for URLs.
    pub fn random_ub64(&mut self) -> (r: [u8; 32])
        ensures
            final(self)@ == next_state(old(self)@),
            r@ == url_base64_chars(final(self)@),
            forall|j: int| 0 <= j < 32 ==> is_url_base64(#[trigger] r@[j]),
    {
        let state = self.next();
        let mut r: [u8; 32] = [0u8; 32];
        let mut j: usize = 0;
        while j < 32
            invariant
                j <= 32,
                forall|k: int| 0 <= k < j ==> r@[k] == url_base64_char(byte_at(state@, k)),
            decreases 32 - j,
        {
            let byte: u8 = (state[j / 8] >> (8 * (j % 8) as u64)) as u8;
            let low: u8 = byte & 0x3f;
            assert(byte & 0x3f <= 63) by (bit_vector);
            let v: u8 = low + 0x2d;
            r[j] = skip_range(skip_range(skip_range(skip_range(v, 0x2d, 2), 0x39, 7), 0x5a, 4), 0x5f, 1);
            j += 1;
        }
        assert(r@ =~= url_base64_chars(state@));
        assert forall|k: int| 0 <= k < 32 implies is_url_base64(#[trigger] r@[k]) by {
            lemma_char_classes(0, byte_at(state@, k));
        }
        r
    }

    /// Makes one step and returns thirty-two digits of base64.
    pub fn random_b64(&mut self) -> (r: [u8; 32])
        ensures
            final(self)@ == next_state(old(self)@),
            r@ == base64_chars(final(self)@),
            forall|j: int| 0 <= j < 32 ==> is_base64(#[trigger] r@[j]),
    {
        let state = self.next();
        let mut r: [u8; 32] = [0u8; 32];
        let mut j: usize = 0;
        while j < 32
            invariant
                j <= 32,
                forall|k: int| 0 <= k < j ==> r@[k] == base64_char(byte_at(state@, k)),
            decreases 32 - j,
        {
            let byte: u8 = (state[j / 8] >> (8 * (j % 8) as u64)) as u8;
            let low: u8 = byte & 0x3f;
            assert(byte & 0x3f <= 63) by (bit_vector);
            let v: u8 = low + 0x2b;
            r[j] = skip_range(skip_range(skip_range(v, 0x2b, 3), 0x39, 7), 0x5a, 6);
            j += 1;
        }
        assert(r@ =~= base64_chars(state@));
        assert forall|k: int| 0 <= k < 32 implies is_base64(#[trigger] r@[k]) by {
            lemma_char_classes(0, byte_at(state@, k));
        }
        r
    }
}

} // verus!
