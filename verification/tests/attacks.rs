use glyph_hash::attacks;
use glyph_hash::attacks::{
    chosen_prefix, invert_attack, preimage_attack, preimage_prefix_hash, prefix_collision_attack,
    single_prefix, AttackError,
};
use glyph_hash::hash::compute_glyph_hash;
use glyph_hash::inversion::{invert_block, invert_last};

const ZERO: [u8; 16] = [0; 16];

const TARGET: [u8; 16] = [
    0x00, 0x11, 0x22, 0x33, 0x44, 0x55, 0x66, 0x77, 0x88, 0x99, 0xaa, 0xbb, 0xcc, 0xdd, 0xee, 0xff,
];

#[test]
fn single_prefix_known_values() {
    assert_eq!(
        single_prefix(16, TARGET),
        [
            0x79, 0xcb, 0xdb, 0x33, 0x9a, 0x0a, 0x32, 0x57, 0x9e, 0x97, 0x4e, 0x9b, 0x69, 0x8a,
            0x30, 0xb8
        ]
    );
    assert_eq!(
        single_prefix(5, TARGET),
        [
            0x6c, 0xcb, 0xdb, 0x33, 0x9a, 0x0a, 0x32, 0x57, 0x9e, 0x97, 0x4e, 0x9b, 0x69, 0x8a,
            0x30, 0xb8
        ]
    );
}

#[test]
fn single_prefix_as_one_block_message_hashes_to_target() {
    for target in [ZERO, TARGET, compute_glyph_hash(b"hello")] {
        let block = single_prefix(16, target);
        assert_eq!(compute_glyph_hash(&block), target);
    }
}

#[test]
fn invert_block_and_invert_last_known_values() {
    assert_eq!(
        invert_block(TARGET, b"0123456789abcdef"),
        [
            0xeb, 0x33, 0xb6, 0xf0, 0x86, 0x16, 0x8b, 0xb8, 0xa4, 0x7f, 0x9d, 0x8b, 0xe2, 0xea,
            0xe5, 0x62
        ]
    );
    assert_eq!(
        invert_last(b"hel", TARGET),
        [
            0xb3, 0x67, 0xe8, 0xc3, 0xb2, 0x23, 0xbd, 0x8f, 0x9c, 0x46, 0xfc, 0xe9, 0x81, 0x8e,
            0x80, 0x04
        ]
    );
    assert_eq!(invert_last(b"0123456789abcdef", TARGET), invert_block(TARGET, b"0123456789abcdef"));
}

#[test]
fn preimage_prefix_hash_known_values() {
    let forty: Vec<u8> = (0..40).collect();
    assert_eq!(
        preimage_prefix_hash(TARGET, &forty),
        [
            0x9d, 0x6f, 0xa6, 0x21, 0xee, 0x34, 0x55, 0xf7, 0xff, 0x1b, 0x18, 0x18, 0x6d, 0x7a,
            0xfc, 0x96
        ]
    );
    assert_eq!(preimage_prefix_hash(TARGET, b""), TARGET);
    assert_eq!(preimage_prefix_hash(TARGET, b"hel"), invert_last(b"hel", TARGET));
}

#[test]
fn concat_joins_block_and_bytes() {
    let got = attacks::concat(TARGET, b"xyz");
    let mut want = TARGET.to_vec();
    want.extend_from_slice(b"xyz");
    assert_eq!(got, want);
    assert_eq!(attacks::concat(ZERO, b""), ZERO.to_vec());
}

#[test]
fn preimage_for_suffix_hello() {
    let message = preimage_attack(ZERO, b"hello").unwrap();
    assert_eq!(
        message,
        vec![
            0xf4, 0x47, 0xd8, 0xc8, 0x25, 0x21, 0x17, 0x41, 0x91, 0x82, 0x83, 0x31, 0xca, 0x60,
            0x37, 0x4b, 0x68, 0x65, 0x6c, 0x6c, 0x6f
        ]
    );
    assert!(message.ends_with(b"hello"));
    assert_eq!(compute_glyph_hash(&message), ZERO);
}

#[test]
fn preimage_for_any_target_and_suffix_length() {
    let forty: Vec<u8> = (0..40).collect();
    let suffixes: [&[u8]; 6] =
        [b"", b"h", b"hello", b"0123456789abcdef", b"0123456789abcdefg", &forty];
    for target in [ZERO, TARGET] {
        for suffix in suffixes {
            let message = preimage_attack(target, suffix).unwrap();
            assert_eq!(message.len(), 16 + suffix.len());
            assert_eq!(&message[16..], suffix);
            assert_eq!(compute_glyph_hash(&message), target);
        }
    }
    assert_eq!(
        preimage_attack(TARGET, &forty).unwrap()[..16],
        [
            0x9c, 0xfc, 0x99, 0xf8, 0x26, 0x1e, 0x11, 0x05, 0x77, 0xef, 0x5c, 0xb9, 0xf7, 0x25,
            0x94, 0x15
        ]
    );
}

#[test]
fn preimage_of_known_zero_hash_strings() {
    assert_eq!(preimage_attack(ZERO, b"lZlFEU").unwrap(), b"xvD7FsaUdGy9UyjalZlFEU".to_vec());
    assert_eq!(preimage_attack(ZERO, b"gsn0su").unwrap(), b"0XXPpB0wpVszsvSxgsn0su".to_vec());
}

#[test]
fn chosen_prefix_collision_hello() {
    let message = chosen_prefix(b"hello").unwrap();
    assert_eq!(
        message,
        vec![
            0x68, 0x65, 0x6c, 0x6c, 0x6f, 0x41, 0x41, 0x41, 0x41, 0x41, 0x41, 0x41, 0x41, 0x41,
            0x41, 0x41, 0x6e, 0x12, 0xf1, 0x20, 0x53, 0x4d, 0x76, 0xd0, 0xb1, 0x88, 0xfc, 0x7c,
            0x27, 0xe3, 0xa4, 0x62
        ]
    );
    assert!(message.starts_with(b"hello"));
    assert_eq!(compute_glyph_hash(&message), ZERO);
}

#[test]
fn chosen_prefix_collision_on_block_boundaries() {
    let aligned = chosen_prefix(b"0123456789abcdef").unwrap();
    assert_eq!(aligned.len(), 48);
    assert_eq!(&aligned[..16], b"0123456789abcdef");
    assert_eq!(&aligned[16..32], &[b'A'; 16]);
    assert_eq!(
        aligned[32..],
        [
            0x67, 0x9b, 0x4a, 0x28, 0xad, 0x7a, 0xef, 0x50, 0x4e, 0x55, 0xc2, 0xeb, 0x6d, 0xb1,
            0xc0, 0x1a
        ]
    );
    assert_eq!(compute_glyph_hash(&aligned), ZERO);
    let empty = chosen_prefix(b"").unwrap();
    assert_eq!(empty.len(), 32);
    assert_eq!(&empty[..16], &[b'A'; 16]);
    assert_eq!(compute_glyph_hash(&empty), ZERO);
}

#[test]
fn chosen_prefix_collision_for_many_prefixes() {
    let long: Vec<u8> = (0..100).collect();
    for len in 0..long.len() {
        let prefix = &long[..len];
        let message = chosen_prefix(prefix).unwrap();
        assert_eq!(message.len(), len + (16 - len % 16) + 16);
        assert!(message.starts_with(prefix));
        assert!(message[len..message.len() - 16].iter().all(|&b| b == b'A'));
        assert_eq!(compute_glyph_hash(&message), ZERO);
    }
}

#[test]
fn prefix_collision_hello() {
    let forgery = prefix_collision_attack(b"hello").unwrap();
    assert_eq!(
        forgery,
        vec![
            0x1d, 0xa4, 0x56, 0xe6, 0xe9, 0xc3, 0x64, 0x70, 0x5c, 0xe2, 0x8e, 0x11, 0xab, 0x23,
            0xa7, 0x9c, 0x68, 0x65, 0x6c, 0x6c, 0x6f
        ]
    );
    assert_eq!(compute_glyph_hash(&forgery), compute_glyph_hash(b"hello"));
}

#[test]
fn prefix_collision_for_every_length() {
    let long: Vec<u8> = (0..50).collect();
    for len in 0..long.len() {
        let message = &long[..len];
        let forgery = prefix_collision_attack(message).unwrap();
        assert_eq!(forgery.len(), len + 16);
        assert_eq!(&forgery[16..], message);
        assert_eq!(compute_glyph_hash(&forgery), compute_glyph_hash(message));
    }
    assert_eq!(
        prefix_collision_attack(b"").unwrap(),
        vec![0x10, 0, 0, 0, 0, 0, 0, 0, 0, 0, 0, 0, 0, 0, 0, 0]
    );
}

#[test]
fn single_block_preimage_round_trip() {
    assert_eq!(invert_attack(compute_glyph_hash(b"Qwerty123")), Ok(b"Qwerty123".to_vec()));
    let letters = b"abcdefghijklmno";
    for len in 0..=15 {
        let message = &letters[..len];
        assert_eq!(invert_attack(compute_glyph_hash(message)), Ok(message.to_vec()));
    }
    assert_eq!(invert_attack(compute_glyph_hash(b"\x00")), Ok(vec![0]));
}

#[test]
fn single_block_preimage_gives_the_shorter_message_of_a_padding_collision() {
    assert_eq!(invert_attack(compute_glyph_hash(b"\x01")), Ok(vec![]));
    assert_eq!(invert_attack(compute_glyph_hash(b"B\x00")), Ok(b"A".to_vec()));
}

#[test]
fn single_block_preimage_refuses_a_full_block() {
    assert_eq!(
        invert_attack(compute_glyph_hash(b"BAAAAAAAAAAAAAAA")),
        Err(AttackError::NotInvertibleSingleBlock)
    );
}
