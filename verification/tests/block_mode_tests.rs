use ciphers::cbc::{cbc, xor};
use ciphers::ecb::ecb;
use ciphers::padding::BlockCipherError;

#[test]
fn xor_combines_byte_wise() {
    let a: Vec<u8> = vec![0xFF, 0x00, 0xAA, 0x0F];
    let b: Vec<u8> = vec![0x0F, 0xF0, 0x55, 0x0F];
    assert_eq!(xor(&a, &b), vec![0xF0, 0xF0, 0xFF, 0x00]);
}

#[test]
fn ecb_matches_published_aes_vector() {
    // FIPS-197, appendix B: one-block plaintext and its AES-128 ciphertext.
    let key: Vec<u8> = (0x00..0x10).collect();
    let plaintext: Vec<u8> = vec![
        0x00, 0x11, 0x22, 0x33, 0x44, 0x55, 0x66, 0x77, 0x88, 0x99, 0xAA, 0xBB, 0xCC, 0xDD, 0xEE,
        0xFF,
    ];
    let expected_first_block: Vec<u8> = vec![
        0x69, 0xC4, 0xE0, 0xD8, 0x6A, 0x7B, 0x04, 0x30, 0xD8, 0xCD, 0xB7, 0x80, 0x70, 0xB4, 0xC5,
        0x5A,
    ];
    let ciphertext = ecb(&plaintext, &key).unwrap();
    assert_eq!(ciphertext.len(), 32);
    assert_eq!(&ciphertext[..16], &expected_first_block[..]);
}

#[test]
fn ecb_is_deterministic() {
    let key = [0x42u8; 16];
    let plaintext: Vec<u8> = (0..40u8).collect();
    let first = ecb(&plaintext, &key).unwrap();
    let second = ecb(&plaintext, &key).unwrap();
    assert_eq!(first, second);
}

#[test]
fn cbc_is_deterministic() {
    let key = [0x42u8; 16];
    let iv = [0x24u8; 16];
    let plaintext: Vec<u8> = (0..40u8).collect();
    let first = cbc(&plaintext, &key, &iv).unwrap();
    let second = cbc(&plaintext, &key, &iv).unwrap();
    assert_eq!(first, second);
}

#[test]
fn ecb_equal_plaintext_blocks_give_equal_ciphertext_blocks() {
    let key = [0x0Fu8; 16];
    let plaintext = [0u8; 32];
    let ciphertext = ecb(&plaintext, &key).unwrap();
    assert_eq!(ciphertext.len(), 48);
    assert_eq!(&ciphertext[..16], &ciphertext[16..32]);
}

#[test]
fn cbc_equal_plaintext_blocks_give_different_ciphertext_blocks() {
    let key = [0x0Fu8; 16];
    let iv = [0x77u8; 16];
    let plaintext = [0u8; 32];
    let ciphertext = cbc(&plaintext, &key, &iv).unwrap();
    assert_eq!(ciphertext.len(), 48);
    assert_ne!(&ciphertext[..16], &ciphertext[16..32]);

    let ecb_ciphertext = ecb(&plaintext, &key).unwrap();
    assert_eq!(&ecb_ciphertext[..16], &ecb_ciphertext[16..32]);
}

#[test]
fn cbc_differs_from_ecb_on_repeating_plaintext() {
    let key = [0x31u8; 16];
    let iv = [0x00u8; 16];
    let plaintext = [0x5Au8; 48];
    let from_cbc = cbc(&plaintext, &key, &iv).unwrap();
    let from_ecb = ecb(&plaintext, &key).unwrap();
    assert_ne!(from_cbc, from_ecb);
}

#[test]
fn cbc_is_sensitive_to_the_iv() {
    let key = [0x99u8; 16];
    let iv1 = [0x00u8; 16];
    let iv2 = [0x01u8; 16];
    let plaintext: Vec<u8> = (0..24u8).collect();
    let first = cbc(&plaintext, &key, &iv1).unwrap();
    let second = cbc(&plaintext, &key, &iv2).unwrap();
    assert_ne!(first, second);
}

#[test]
fn cbc_changes_only_from_the_changed_block_onwards() {
    let key = [0x13u8; 16];
    let iv = [0xC4u8; 16];
    let mut p1 = vec![0u8; 64];
    let mut p2 = vec![0u8; 64];
    p1[35] = 1;
    p2[35] = 2;
    let c1 = cbc(&p1, &key, &iv).unwrap();
    let c2 = cbc(&p2, &key, &iv).unwrap();
    // The changed byte sits in block 2: blocks 0 and 1 agree...
    assert_eq!(&c1[..32], &c2[..32]);
    // ...and block 2 and everything after it diverge.
    assert_ne!(&c1[32..48], &c2[32..48]);
    assert_ne!(&c1[48..64], &c2[48..64]);
    assert_ne!(&c1[64..80], &c2[64..80]);
}

#[test]
fn both_modes_preserve_the_padded_length() {
    let key = [0x08u8; 16];
    let iv = [0x80u8; 16];
    for n in [0usize, 1, 15, 16, 17, 31, 32, 100] {
        let plaintext = vec![0x33u8; n];
        let padded_len = (n / 16 + 1) * 16;
        assert_eq!(ecb(&plaintext, &key).unwrap().len(), padded_len);
        assert_eq!(cbc(&plaintext, &key, &iv).unwrap().len(), padded_len);
    }
}

#[test]
fn wrong_key_length_is_rejected() {
    let plaintext = [0u8; 16];
    assert_eq!(
        ecb(&plaintext, &[0u8; 15]),
        Err(BlockCipherError::InvalidKeyLength)
    );
    assert_eq!(
        cbc(&plaintext, &[0u8; 17], &[0u8; 16]),
        Err(BlockCipherError::InvalidKeyLength)
    );
}

#[test]
fn wrong_iv_length_is_rejected() {
    let plaintext = [0u8; 16];
    assert_eq!(
        cbc(&plaintext, &[0u8; 16], &[0u8; 15]),
        Err(BlockCipherError::InvalidIvLength)
    );
}

#[test]
fn end_to_end_scenario_hits_the_block_permutation() {
    // Plaintext of 16 zero bytes, key of 16 ones, zero IV: the first CBC
    // block is the bare permutation of the zero block, so it must match the
    // first ECB block, and padding adds exactly one more block.
    let plaintext = [0x00u8; 16];
    let key = [0x01u8; 16];
    let iv = [0x00u8; 16];
    let from_cbc = cbc(&plaintext, &key, &iv).unwrap();
    let from_ecb = ecb(&plaintext, &key).unwrap();
    assert_eq!(from_cbc.len(), 32);
    assert_eq!(from_ecb.len(), 32);
    assert_eq!(&from_cbc[..16], &from_ecb[..16]);
    // AES-128 of the all-zero block under the all-ones key.
    let expected_first_block: Vec<u8> = vec![
        0xB6, 0xAE, 0xAF, 0xFA, 0x75, 0x2D, 0xC0, 0x8B, 0x51, 0x63, 0x97, 0x31, 0x76, 0x1A, 0xED,
        0x00,
    ];
    assert_eq!(&from_cbc[..16], &expected_first_block[..]);
}
