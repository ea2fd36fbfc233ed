//! Verified building blocks for a set of classic cipher experiments:
//! PKCS#7-style padding and AES-128 block modes (ECB and CBC) over byte
//! buffers, affine and Caesar substitution ciphers over text with
//! known-plaintext key recovery, and a XOR stream utility.

pub mod aes128;
pub mod affine;
pub mod alphabet;
pub mod analysis;
pub mod caesar;
pub mod cbc;
pub mod config;
pub mod ecb;
pub mod padding;
pub mod stream;
