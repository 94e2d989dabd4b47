use glyph_hash::block::{load_chunk, xor};
use glyph_hash::gf256::{gf_double, inv_mix, mix};
use glyph_hash::hash::dec_x4;
use glyph_hash::inversion::{inv_aes_dec, inv_aes_decx4};
use glyph_hash::sbox::{inv_sbox, sbox};
use glyph_hash::simd_aes::SimdAes;

const ZERO: [u8; 16] = [0; 16];

const COUNTING: [u8; 16] = [0, 1, 2, 3, 4, 5, 6, 7, 8, 9, 10, 11, 12, 13, 14, 15];

const KEY: [u8; 16] = [
    0xa0, 0xa1, 0xa2, 0xa3, 0xa4, 0xa5, 0xa6, 0xa7, 0xa8, 0xa9, 0xaa, 0xab, 0xac, 0xad, 0xae, 0xaf,
];

// The state and the round key of the examples that the processor manual gives for the four
// round instructions, lowest byte first.
const MANUAL_STATE: [u8; 16] = [
    0x5d, 0x47, 0x53, 0x5d, 0x72, 0x6f, 0x74, 0x63, 0x65, 0x56, 0x74, 0x73, 0x65, 0x54, 0x5b, 0x7b,
];

const MANUAL_KEY: [u8; 16] = [
    0x5d, 0x6e, 0x6f, 0x72, 0x65, 0x75, 0x47, 0x5b, 0x29, 0x79, 0x61, 0x68, 0x53, 0x28, 0x69, 0x48,
];

#[test]
fn sbox_known_entries() {
    assert_eq!(sbox(0x00), 0x63);
    assert_eq!(sbox(0x01), 0x7c);
    assert_eq!(sbox(0x53), 0xed);
    assert_eq!(sbox(0xff), 0x16);
    assert_eq!(inv_sbox(0x63), 0x00);
    assert_eq!(inv_sbox(0x00), 0x52);
    assert_eq!(inv_sbox(0x16), 0xff);
}

#[test]
fn sbox_tables_are_inverse() {
    for b in 0..=255u8 {
        assert_eq!(inv_sbox(sbox(b)), b);
        assert_eq!(sbox(inv_sbox(b)), b);
    }
}

#[test]
fn field_doubling() {
    assert_eq!(gf_double(0x01), 0x02);
    assert_eq!(gf_double(0x57), 0xae);
    assert_eq!(gf_double(0x80), 0x1b);
    assert_eq!(gf_double(0xae), 0x47);
}

#[test]
fn column_mixing_known_column() {
    let c = [0xdbu8, 0x13, 0x53, 0x45];
    let m = [
        mix(c[0], c[1], c[2], c[3]),
        mix(c[1], c[2], c[3], c[0]),
        mix(c[2], c[3], c[0], c[1]),
        mix(c[3], c[0], c[1], c[2]),
    ];
    assert_eq!(m, [0x8e, 0x4d, 0xa1, 0xbc]);
    assert_eq!(mix(1, 2, 3, 4), 0x03);
    assert_eq!(inv_mix(1, 2, 3, 4), 0x2b);
    let back = [
        inv_mix(m[0], m[1], m[2], m[3]),
        inv_mix(m[1], m[2], m[3], m[0]),
        inv_mix(m[2], m[3], m[0], m[1]),
        inv_mix(m[3], m[0], m[1], m[2]),
    ];
    assert_eq!(back, c);
}

#[test]
fn xor_is_lane_wise() {
    assert_eq!(xor(COUNTING, KEY), [0xa0; 16]);
    assert_eq!(xor(COUNTING, ZERO), COUNTING);
    assert_eq!(xor(xor(COUNTING, KEY), KEY), COUNTING);
}

#[test]
fn load_chunk_pads_with_zero() {
    let data: Vec<u8> = (1..=20).collect();
    assert_eq!(load_chunk(&data, 0), [1, 2, 3, 4, 5, 6, 7, 8, 9, 10, 11, 12, 13, 14, 15, 16]);
    assert_eq!(load_chunk(&data, 1), [17, 18, 19, 20, 0, 0, 0, 0, 0, 0, 0, 0, 0, 0, 0, 0]);
    assert_eq!(load_chunk(&[], 0), ZERO);
    assert_eq!(load_chunk(&data[..16], 1), ZERO);
}

#[test]
fn shift_rows_moves_row_r_by_r_columns() {
    assert_eq!(COUNTING.shift_rows(), [0, 5, 10, 15, 4, 9, 14, 3, 8, 13, 2, 7, 12, 1, 6, 11]);
    assert_eq!(COUNTING.inv_shift_rows(), [0, 13, 10, 7, 4, 1, 14, 11, 8, 5, 2, 15, 12, 9, 6, 3]);
    assert_eq!(COUNTING.shift_rows().inv_shift_rows(), COUNTING);
    assert_eq!(COUNTING.inv_shift_rows().shift_rows(), COUNTING);
}

#[test]
fn forward_round_of_the_standard_example() {
    let state = [
        0x19, 0x3d, 0xe3, 0xbe, 0xa0, 0xf4, 0xe2, 0x2b, 0x9a, 0xc6, 0x8d, 0x2a, 0xe9, 0xf8, 0x48,
        0x08,
    ];
    let key = [
        0xa0, 0xfa, 0xfe, 0x17, 0x88, 0x54, 0x2c, 0xb1, 0x23, 0xa3, 0x39, 0x39, 0x2a, 0x6c, 0x76,
        0x05,
    ];
    let next = [
        0xa4, 0x9c, 0x7f, 0xf2, 0x68, 0x9f, 0x35, 0x2b, 0x6b, 0x5b, 0xea, 0x43, 0x02, 0x6a, 0x50,
        0x49,
    ];
    assert_eq!(state.aes_enc(key), next);
}

#[test]
fn rounds_match_the_processor_manual() {
    assert_eq!(
        MANUAL_STATE.aes_enc(MANUAL_KEY),
        [
            0x95, 0xe5, 0xd7, 0xde, 0x58, 0x4b, 0x10, 0x8b, 0xc5, 0xa3, 0xdb, 0x9f, 0x2f, 0x1c,
            0x31, 0xa8
        ]
    );
    assert_eq!(
        MANUAL_STATE.aes_enc_last(MANUAL_KEY),
        [
            0x11, 0xc6, 0xfd, 0x53, 0x25, 0xc4, 0x7e, 0x17, 0x64, 0x59, 0x8c, 0x93, 0x1e, 0x88,
            0xfb, 0xc7
        ]
    );
    assert_eq!(
        MANUAL_STATE.aes_dec(MANUAL_KEY),
        [
            0x2a, 0x39, 0x30, 0xb7, 0x5e, 0xb9, 0x8e, 0xb5, 0x87, 0x27, 0xea, 0xfa, 0x42, 0xc3,
            0x8a, 0x13
        ]
    );
    assert_eq!(
        MANUAL_STATE.aes_dec_last(MANUAL_KEY),
        [
            0xd0, 0x93, 0xa5, 0x72, 0x7b, 0x63, 0x10, 0xd4, 0x95, 0x7f, 0x31, 0x6b, 0xef, 0x91,
            0xa3, 0xc5
        ]
    );
}

#[test]
fn last_rounds_without_key_undo_each_other() {
    for x in [ZERO, COUNTING, KEY, MANUAL_STATE] {
        assert_eq!(x.aes_dec_last(ZERO).aes_enc_last(ZERO), x);
        assert_eq!(x.aes_enc_last(ZERO).aes_dec_last(ZERO), x);
    }
}

#[test]
fn last_rounds_with_a_key_need_not_undo_each_other() {
    let back = COUNTING.aes_dec_last(KEY).aes_enc_last(KEY);
    assert_eq!(
        back,
        [
            0x29, 0x30, 0x18, 0x79, 0x86, 0x7e, 0x8d, 0xb3, 0x58, 0xfc, 0xd6, 0xb9, 0x74, 0xad,
            0x0d, 0xfc
        ]
    );
    assert_ne!(back, COUNTING);
}

#[test]
fn backward_round_does_not_undo_forward_round() {
    let back = COUNTING.aes_enc(ZERO).aes_dec(ZERO);
    assert_eq!(
        back,
        [
            0xaf, 0x88, 0x13, 0x8d, 0x94, 0x2e, 0xc4, 0xc7, 0x14, 0xca, 0xd1, 0x40, 0xdd, 0xc6,
            0x31, 0xfc
        ]
    );
    assert_ne!(back, COUNTING);
    // a block of equal bytes is among those on which it does
    assert_eq!(ZERO.aes_enc(ZERO).aes_dec(ZERO), ZERO);
}

#[test]
fn inv_aes_dec_undoes_backward_round_with_any_key() {
    assert_eq!(inv_aes_dec(COUNTING, KEY), [0xe0; 16]);
    for (x, k) in [(COUNTING, KEY), (MANUAL_STATE, MANUAL_KEY), (ZERO, ZERO), (KEY, COUNTING)] {
        assert_eq!(inv_aes_dec(x, k).aes_dec(k), x);
        assert_eq!(inv_aes_dec(x.aes_dec(k), k), x);
    }
}

#[test]
fn four_rounds_known_values() {
    assert_eq!(
        dec_x4(COUNTING),
        [
            0xd0, 0xb3, 0x2f, 0xa4, 0xc0, 0xf2, 0xf3, 0xa2, 0xdd, 0x46, 0x8d, 0xdf, 0x73, 0x08,
            0x6d, 0x27
        ]
    );
    assert_eq!(
        inv_aes_decx4(COUNTING),
        [
            0xa9, 0x3e, 0xe1, 0xce, 0x45, 0x5d, 0x7f, 0xbc, 0x96, 0xec, 0xd2, 0x00, 0x33, 0xff,
            0x4a, 0x10
        ]
    );
    assert_eq!(dec_x4(COUNTING), COUNTING.aes_dec(ZERO).aes_dec(ZERO).aes_dec(ZERO).aes_dec(ZERO));
}

#[test]
fn four_rounds_and_their_inverse_undo_each_other() {
    for x in [ZERO, COUNTING, KEY, MANUAL_STATE, MANUAL_KEY] {
        assert_eq!(dec_x4(inv_aes_decx4(x)), x);
        assert_eq!(inv_aes_decx4(dec_x4(x)), x);
    }
}
