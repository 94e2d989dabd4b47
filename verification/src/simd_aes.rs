//! One round of a 128-bit block cipher in its four forms, computed on bytes.

use crate::block::{xor, xor_blocks, Block};
use crate::gf256::{inv_mix, inv_mix_byte, lemma_mix_unmix, lemma_unmix_mix, mix, mix_byte};
use crate::sbox::{inv_sbox, inv_sub_byte, lemma_sub_byte_inverse, sbox, sub_byte};
use vstd::prelude::*;

verus! {

/// For each byte of the state after the row shift, the position it is taken from. The state is
/// held column by column, so row `r` of column `c` is byte `4 * c + r`; row `r` moves left by
/// `r` columns.
pub const SHIFT_ROWS: [usize; 16] = [0, 5, 10, 15, 4, 9, 14, 3, 8, 13, 2, 7, 12, 1, 6, 11];

/// For each byte of the state after the inverse row shift, the position it is taken from.
pub const INV_SHIFT_ROWS: [usize; 16] = [0, 13, 10, 7, 4, 1, 14, 11, 8, 5, 2, 15, 12, 9, 6, 3];

/// The state with every row `r` rotated left by `r` columns.
pub open spec fn shift_rows(s: Seq<u8>) -> Seq<u8> {
    Seq::new(16, |i: int| s[SHIFT_ROWS[i] as int])
}

/// The state with every row `r` rotated right by `r` columns.
pub open spec fn inv_shift_rows(s: Seq<u8>) -> Seq<u8> {
    Seq::new(16, |i: int| s[INV_SHIFT_ROWS[i] as int])
}

/// The state with every byte substituted.
pub open spec fn sub_bytes(s: Seq<u8>) -> Seq<u8> {
    Seq::new(16, |i: int| sub_byte(s[i]))
}

/// The state with every byte substituted backwards.
pub open spec fn inv_sub_bytes(s: Seq<u8>) -> Seq<u8> {
    Seq::new(16, |i: int| inv_sub_byte(s[i]))
}

/// The state with each of its four columns mixed.
pub open spec fn mix_columns(s: Seq<u8>) -> Seq<u8> {
    Seq::new(
        16,
        |i: int|
            {
                let c = 4 * (i / 4);
                let r = i % 4;
                mix_byte(s[c + r], s[c + (r + 1) % 4], s[c + (r + 2) % 4], s[c + (r + 3) % 4])
            },
    )
}

/// The state with each of its four columns unmixed.
pub open spec fn inv_mix_columns(s: Seq<u8>) -> Seq<u8> {
    Seq::new(
        16,
        |i: int|
            {
                let c = 4 * (i / 4);
                let r = i % 4;
                inv_mix_byte(
                    s[c + r],
                    s[c + (r + 1) % 4],
                    s[c + (r + 2) % 4],
                    s[c + (r + 3) % 4],
                )
            },
    )
}

/// The forward round: shift the rows, substitute the bytes, mix the columns, add the key.
pub open spec fn round_forward(s: Seq<u8>, key: Seq<u8>) -> Seq<u8> {
    xor_blocks(mix_columns(sub_bytes(shift_rows(s))), key)
}

/// The last forward round: as the forward round, without the column mixing.
pub open spec fn round_forward_last(s: Seq<u8>, key: Seq<u8>) -> Seq<u8> {
    xor_blocks(sub_bytes(shift_rows(s)), key)
}

/// The backward round: shift the rows back, substitute the bytes backwards, unmix the columns,
/// add the key.
pub open spec fn round_backward(s: Seq<u8>, key: Seq<u8>) -> Seq<u8> {
    xor_blocks(inv_mix_columns(inv_sub_bytes(inv_shift_rows(s))), key)
}

/// The last backward round: as the backward round, without the column unmixing.
pub open spec fn round_backward_last(s: Seq<u8>, key: Seq<u8>) -> Seq<u8> {
    xor_blocks(inv_sub_bytes(inv_shift_rows(s)), key)
}

/// The four rounds of a 128-bit block cipher and the row shifts they are built on, on a value
/// whose view is the sixteen bytes of the state.
pub trait SimdAes: Sized + View<V = Seq<u8>> {
    fn shift_rows(self) -> (r: Self)
        ensures
            r@ == shift_rows(self@),
    ;

    fn inv_shift_rows(self) -> (r: Self)
        ensures
            r@ == inv_shift_rows(self@),
    ;

    fn aes_enc(self, key: Self) -> (r: Self)
        ensures
            r@ == round_forward(self@, key@),
    ;

    fn aes_enc_last(self, key: Self) -> (r: Self)
        ensures
            r@ == round_forward_last(self@, key@),
    ;

    fn aes_dec(self, key: Self) -> (r: Self)
        ensures
            r@ == round_backward(self@, key@),
    ;

    fn aes_dec_last(self, key: Self) -> (r: Self)
        ensures
            r@ == round_backward_last(self@, key@),
    ;
}

fn substitute(s: Block) -> (r: Block)
    ensures
        r@ == sub_bytes(s@),
{
    let mut r: Block = [0u8; 16];
    let mut i: usize = 0;
    while i < 16
        invariant
            i <= 16,
            forall|k: int| 0 <= k < i ==> r@[k] == sub_byte(s@[k]),
        decreases 16 - i,
    {
        r[i] = sbox(s[i]);
        i += 1;
    }
    assert(r@ =~= sub_bytes(s@));
    r
}

fn inv_substitute(s: Block) -> (r: Block)
    ensures
        r@ == inv_sub_bytes(s@),
{
    let mut r: Block = [0u8; 16];
    let mut i: usize = 0;
    while i < 16
        invariant
            i <= 16,
            forall|k: int| 0 <= k < i ==> r@[k] == inv_sub_byte(s@[k]),
        decreases 16 - i,
    {
        r[i] = inv_sbox(s[i]);
        i += 1;
    }
    assert(r@ =~= inv_sub_bytes(s@));
    r
}

fn mix_state(s: Block) -> (r: Block)
    ensures
        r@ == mix_columns(s@),
{
    let mut r: Block = [0u8; 16];
    let mut i: usize = 0;
    while i < 16
        invariant
            i <= 16,
            forall|k: int| 0 <= k < i ==> r@[k] == mix_columns(s@)[k],
        decreases 16 - i,
    {
        let c: usize = 4 * (i / 4);
        let row: usize = i % 4;
        r[i] = mix(s[c + row], s[c + (row + 1) % 4], s[c + (row + 2) % 4], s[c + (row + 3) % 4]);
        i += 1;
    }
    assert(r@ =~= mix_columns(s@));
    r
}

fn inv_mix_state(s: Block) -> (r: Block)
    ensures
        r@ == inv_mix_columns(s@),
{
    let mut r: Block = [0u8; 16];
    let mut i: usize = 0;
    while i < 16
        invariant
            i <= 16,
            forall|k: int| 0 <= k < i ==> r@[k] == inv_mix_columns(s@)[k],
        decreases 16 - i,
    {
        let c: usize = 4 * (i / 4);
        let row: usize = i % 4;
        r[i] =
        inv_mix(s[c + row], s[c + (row + 1) % 4], s[c + (row + 2) % 4], s[c + (row + 3) % 4]);
        i += 1;
    }
    assert(r@ =~= inv_mix_columns(s@));
    r
}

impl SimdAes for [u8; 16] {
    fn shift_rows(self) -> (r: Self) {
        let mut r: Block = [0u8; 16];
        let mut i: usize = 0;
        while i < 16
            invariant
                i <= 16,
                forall|k: int| 0 <= k < i ==> r@[k] == self@[SHIFT_ROWS[k] as int],
            decreases 16 - i,
        {
            r[i] = self[SHIFT_ROWS[i]];
            i += 1;
        }
        assert(r@ =~= shift_rows(self@));
        r
    }

    fn inv_shift_rows(self) -> (r: Self) {
        let mut r: Block = [0u8; 16];
        let mut i: usize = 0;
        while i < 16
            invariant
                i <= 16,
                forall|k: int| 0 <= k < i ==> r@[k] == self@[INV_SHIFT_ROWS[k] as int],
            decreases 16 - i,
        {
            r[i] = self[INV_SHIFT_ROWS[i]];
            i += 1;
        }
        assert(r@ =~= inv_shift_rows(self@));
        r
    }

    fn aes_enc(self, key: Self) -> (r: Self) {
        xor(mix_state(substitute(self.shift_rows())), key)
    }

    fn aes_enc_last(self, key: Self) -> (r: Self) {
        xor(substitute(self.shift_rows()), key)
    }

    fn aes_dec(self, key: Self) -> (r: Self) {
        xor(inv_mix_state(inv_substitute(self.inv_shift_rows())), key)
    }

    fn aes_dec_last(self, key: Self) -> (r: Self) {
        xor(inv_substitute(self.inv_shift_rows()), key)
    }
}

/// The two row shifts undo each other.
pub proof fn lemma_shift_rows_inverse(s: Seq<u8>)
    requires
        s.len() == 16,
    ensures
        inv_shift_rows(shift_rows(s)) == s,
        shift_rows(inv_shift_rows(s)) == s,
{
    assert forall|i: int| 0 <= i < 16 implies SHIFT_ROWS[INV_SHIFT_ROWS[i] as int] == i
        && INV_SHIFT_ROWS[SHIFT_ROWS[i] as int] == i by {}
    assert(inv_shift_rows(shift_rows(s)) =~= s);
    assert(shift_rows(inv_shift_rows(s)) =~= s);
}

/// The two byte substitutions undo each other.
pub proof fn lemma_sub_bytes_inverse(s: Seq<u8>)
    requires
        s.len() == 16,
    ensures
        inv_sub_bytes(sub_bytes(s)) == s,
        sub_bytes(inv_sub_bytes(s)) == s,
{
    assert forall|i: int| 0 <= i < 16 implies inv_sub_byte(sub_byte(s[i])) == s[i] && sub_byte(
        inv_sub_byte(s[i]),
    ) == s[i] by {
        lemma_sub_byte_inverse(s[i]);
    }
    assert(inv_sub_bytes(sub_bytes(s)) =~= s);
    assert(sub_bytes(inv_sub_bytes(s)) =~= s);
}

/// The two column mixings undo each other.
pub proof fn lemma_mix_columns_inverse(s: Seq<u8>)
    requires
        s.len() == 16,
    ensures
        inv_mix_columns(mix_columns(s)) == s,
        mix_columns(inv_mix_columns(s)) == s,
{
    let m = mix_columns(s);
    let u = inv_mix_columns(s);
    assert forall|i: int| 0 <= i < 16 implies inv_mix_columns(m)[i] == s[i] && mix_columns(u)[i]
        == s[i] by {
        let c = 4 * (i / 4);
        let r = i % 4;
        let a0 = s[c + r];
        let a1 = s[c + (r + 1) % 4];
        let a2 = s[c + (r + 2) % 4];
        let a3 = s[c + (r + 3) % 4];
        lemma_unmix_mix(a0, a1, a2, a3);
        lemma_mix_unmix(a0, a1, a2, a3);
        assert(m[c + r] == mix_byte(a0, a1, a2, a3));
        assert(m[c + (r + 1) % 4] == mix_byte(a1, a2, a3, a0));
        assert(m[c + (r + 2) % 4] == mix_byte(a2, a3, a0, a1));
        assert(m[c + (r + 3) % 4] == mix_byte(a3, a0, a1, a2));
        assert(u[c + r] == inv_mix_byte(a0, a1, a2, a3));
        assert(u[c + (r + 1) % 4] == inv_mix_byte(a1, a2, a3, a0));
        assert(u[c + (r + 2) % 4] == inv_mix_byte(a2, a3, a0, a1));
        assert(u[c + (r + 3) % 4] == inv_mix_byte(a3, a0, a1, a2));
    }
    assert(inv_mix_columns(m) =~= s);
    assert(mix_columns(u) =~= s);
}

/// A substitution of every byte and a row shift can be applied in either order.
pub proof fn lemma_sub_shift_commute(s: Seq<u8>)
    requires
        s.len() == 16,
    ensures
        sub_bytes(shift_rows(s)) == shift_rows(sub_bytes(s)),
        sub_bytes(inv_shift_rows(s)) == inv_shift_rows(sub_bytes(s)),
        inv_sub_bytes(shift_rows(s)) == shift_rows(inv_sub_bytes(s)),
        inv_sub_bytes(inv_shift_rows(s)) == inv_shift_rows(inv_sub_bytes(s)),
{
    assert(sub_bytes(shift_rows(s)) =~= shift_rows(sub_bytes(s)));
    assert(sub_bytes(inv_shift_rows(s)) =~= inv_shift_rows(sub_bytes(s)));
    assert(inv_sub_bytes(shift_rows(s)) =~= shift_rows(inv_sub_bytes(s)));
    assert(inv_sub_bytes(inv_shift_rows(s)) =~= inv_shift_rows(inv_sub_bytes(s)));
}

} // verus!
