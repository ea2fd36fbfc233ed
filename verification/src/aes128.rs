//! The single-block AES-128 permutation, the keyed primitive underneath the
//! ECB and CBC modes. The cipher itself comes from the `aes` crate and is
//! treated as an opaque, deterministic function of the key and the block.

use aes::cipher::{BlockEncrypt, KeyInit};
use vstd::prelude::*;

use crate::padding::BLOCK_SIZE;

verus! {

/// Byte `i` of the AES-128 encryption of `block` under `key`; a function of
/// the key and the block alone.
pub uninterp spec fn aes128_byte(key: Seq<u8>, block: Seq<u8>, i: int) -> u8;

/// The AES-128 encryption of one 16-byte `block` under a 16-byte `key`:
/// always exactly `BLOCK_SIZE` bytes.
pub open spec fn aes128_block(key: Seq<u8>, block: Seq<u8>) -> Seq<u8> {
    Seq::new(BLOCK_SIZE as nat, |i: int| aes128_byte(key, block, i))
}

/// Relies on `aes::Aes128` (`cipher::BlockEncrypt::encrypt_block`): encrypts
/// one 16-byte block in place under a 16-byte key. The result is exactly 16
/// bytes and depends on the key and the block alone.
#[verifier::external_body]
pub(crate) fn encrypt_block(key: &[u8], block: &[u8]) -> (r: Vec<u8>)
    requires
        key@.len() == BLOCK_SIZE,
        block@.len() == BLOCK_SIZE,
    ensures
        r@ == aes128_block(key@, block@),
        forall|i: int| 0 <= i < BLOCK_SIZE ==> r@[i] == aes128_byte(key@, block@, i),
{
    let cipher = aes::Aes128::new_from_slice(key).unwrap();
    let mut arr = aes::cipher::generic_array::GenericArray::clone_from_slice(block);
    cipher.encrypt_block(&mut arr);
    arr.to_vec()
}

} // verus!
