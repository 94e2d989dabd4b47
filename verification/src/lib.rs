//! A hash of 16-byte blocks whose every step can be undone, and what follows from that: the
//! hash, its exact inverse, the messages that the inverse forges, and the search for a forged
//! message of digits and letters.

pub mod attacks;
pub mod block;
pub mod cancel;
pub mod charset;
pub mod gf256;
pub mod hash;
pub mod inversion;
pub mod sbox;
pub mod search;
pub mod simd_aes;
pub mod srng;
