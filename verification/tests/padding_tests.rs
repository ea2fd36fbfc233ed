use ciphers::padding::{pad, unpad, BlockCipherError};

#[test]
fn pad_empty_buffer_gets_full_block() {
    let mut data: Vec<u8> = Vec::new();
    pad(&mut data);
    assert_eq!(data, vec![16u8; 16]);
}

#[test]
fn pad_short_buffer() {
    let mut data: Vec<u8> = vec![1, 2, 3, 4, 5];
    pad(&mut data);
    let mut expected = vec![1u8, 2, 3, 4, 5];
    expected.extend(vec![11u8; 11]);
    assert_eq!(data, expected);
}

#[test]
fn pad_aligned_buffer_still_grows() {
    let mut data: Vec<u8> = vec![7u8; 16];
    pad(&mut data);
    assert_eq!(data.len(), 32);
    assert_eq!(&data[16..], &[16u8; 16][..]);
}

#[test]
fn pad_lengths_are_block_multiples_and_grow() {
    for n in 0..64usize {
        let mut data = vec![0xABu8; n];
        pad(&mut data);
        assert_eq!(data.len() % 16, 0);
        assert!(data.len() > n);
        let added = data.len() - n;
        assert!(1 <= added && added <= 16);
    }
}

#[test]
fn unpad_inverts_pad() {
    for n in 0..64usize {
        let original: Vec<u8> = (0..n as u8).collect();
        let mut data = original.clone();
        pad(&mut data);
        let stripped = unpad(&data).unwrap();
        assert_eq!(stripped, original);
    }
}

#[test]
fn unpad_rejects_empty_buffer() {
    let data: Vec<u8> = Vec::new();
    assert_eq!(unpad(&data), Err(BlockCipherError::InvalidPadding));
}

#[test]
fn unpad_rejects_zero_pad_byte() {
    let data: Vec<u8> = vec![1, 2, 3, 0];
    assert_eq!(unpad(&data), Err(BlockCipherError::InvalidPadding));
}

#[test]
fn unpad_rejects_oversized_pad_byte() {
    let data: Vec<u8> = vec![17u8; 17];
    assert_eq!(unpad(&data), Err(BlockCipherError::InvalidPadding));

    let short: Vec<u8> = vec![5, 5, 5];
    assert_eq!(unpad(&short), Err(BlockCipherError::InvalidPadding));
}

#[test]
fn unpad_rejects_inconsistent_trailer() {
    let data: Vec<u8> = vec![9, 9, 2, 3];
    assert_eq!(unpad(&data), Err(BlockCipherError::InvalidPadding));
}
