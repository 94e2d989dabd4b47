//! Arithmetic in the field of 256 elements, as far as the column mixing of the rounds needs
//! it.

use vstd::prelude::*;

verus! {

/// Multiplication by the polynomial `x` in the field of 256 elements, reduced by
/// `x^8 + x^4 + x^3 + x + 1`.
pub open spec fn xtime(a: u8) -> u8 {
    (a << 1) ^ (if a & 0x80 != 0 { 0x1bu8 } else { 0u8 })
}

/// Multiplication by 3 in the field.
pub open spec fn times3(a: u8) -> u8 {
    xtime(a) ^ a
}

/// Multiplication by 9 in the field.
pub open spec fn times9(a: u8) -> u8 {
    xtime(xtime(xtime(a))) ^ a
}

/// Multiplication by 11 in the field.
pub open spec fn times11(a: u8) -> u8 {
    xtime(xtime(xtime(a))) ^ xtime(a) ^ a
}

/// Multiplication by 13 in the field.
pub open spec fn times13(a: u8) -> u8 {
    xtime(xtime(xtime(a))) ^ xtime(xtime(a)) ^ a
}

/// Multiplication by 14 in the field.
pub open spec fn times14(a: u8) -> u8 {
    xtime(xtime(xtime(a))) ^ xtime(xtime(a)) ^ xtime(a)
}

/// One output byte of the column mixing: the column is read starting at the output's row.
pub open spec fn mix_byte(a: u8, b: u8, c: u8, d: u8) -> u8 {
    xtime(a) ^ times3(b) ^ c ^ d
}

/// One output byte of the inverse column mixing, the column read as for `mix_byte`.
pub open spec fn inv_mix_byte(a: u8, b: u8, c: u8, d: u8) -> u8 {
    times14(a) ^ times11(b) ^ times13(c) ^ times9(d)
}

/// Mixing a column and then unmixing it gives the column back.
pub proof fn lemma_unmix_mix(a: u8, b: u8, c: u8, d: u8)
    ensures
        inv_mix_byte(
            mix_byte(a, b, c, d),
            mix_byte(b, c, d, a),
            mix_byte(c, d, a, b),
            mix_byte(d, a, b, c),
        ) == a,
{
    assert(inv_mix_byte(
        mix_byte(a, b, c, d),
        mix_byte(b, c, d, a),
        mix_byte(c, d, a, b),
        mix_byte(d, a, b, c),
    ) == a) by (bit_vector);
}

/// Unmixing a column and then mixing it gives the column back.
pub proof fn lemma_mix_unmix(a: u8, b: u8, c: u8, d: u8)
    ensures
        mix_byte(
            inv_mix_byte(a, b, c, d),
            inv_mix_byte(b, c, d, a),
            inv_mix_byte(c, d, a, b),
            inv_mix_byte(d, a, b, c),
        ) == a,
{
    assert(mix_byte(
        inv_mix_byte(a, b, c, d),
        inv_mix_byte(b, c, d, a),
        inv_mix_byte(c, d, a, b),
        inv_mix_byte(d, a, b, c),
    ) == a) by (bit_vector);
}

pub fn gf_double(a: u8) -> (r: u8)
    ensures
        r == xtime(a),
{
    let reduce: u8 = if a & 0x80 != 0 { 0x1b } else { 0 };
    (a << 1) ^ reduce
}

pub fn mix(a: u8, b: u8, c: u8, d: u8) -> (r: u8)
    ensures
        r == mix_byte(a, b, c, d),
{
    gf_double(a) ^ (gf_double(b) ^ b) ^ c ^ d
}

pub fn inv_mix(a: u8, b: u8, c: u8, d: u8) -> (r: u8)
    ensures
        r == inv_mix_byte(a, b, c, d),
{
    let a2: u8 = gf_double(a);
    let a4: u8 = gf_double(a2);
    let a8: u8 = gf_double(a4);
    let b2: u8 = gf_double(b);
    let b8: u8 = gf_double(gf_double(b2));
    let c4: u8 = gf_double(gf_double(c));
    let c8: u8 = gf_double(c4);
    let d8: u8 = gf_double(gf_double(gf_double(d)));
    (a8 ^ a4 ^ a2) ^ (b8 ^ b2 ^ b) ^ (c8 ^ c4 ^ c) ^ (d8 ^ d)
}

} // verus!
