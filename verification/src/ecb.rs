//! Electronic-codebook mode: the plaintext is padded and each 16-byte block
//! is encrypted independently under the same key, so equal plaintext blocks
//! produce equal ciphertext blocks.

use vstd::arithmetic::div_mod::{
    lemma_mod_add_multiples_vanish, lemma_small_mod, lemma_sub_mod_noop,
};
use vstd::prelude::*;

use crate::aes128::{aes128_block, encrypt_block};
use crate::padding::{lemma_pad_round_trip, pad, pad_spec, BlockCipherError, BLOCK_SIZE};

verus! {

/// Block-by-block ECB encryption of a buffer whose length is a multiple of
/// `BLOCK_SIZE`: each block is encrypted independently.
pub open spec fn ecb_blocks(s: Seq<u8>, key: Seq<u8>) -> Seq<u8>
    decreases s.len(),
{
    if s.len() < BLOCK_SIZE {
        Seq::empty()
    } else {
        aes128_block(key, s.take(BLOCK_SIZE as int)) + ecb_blocks(
            s.skip(BLOCK_SIZE as int),
            key,
        )
    }
}

/// What `ecb` returns on a 16-byte key: the plaintext is padded, then every
/// block is encrypted independently.
pub open spec fn ecb_spec(plaintext: Seq<u8>, key: Seq<u8>) -> Seq<u8> {
    ecb_blocks(pad_spec(plaintext), key)
}

/// ECB output is exactly as long as its block-aligned input.
pub proof fn lemma_ecb_blocks_len(s: Seq<u8>, key: Seq<u8>)
    requires
        s.len() % (BLOCK_SIZE as nat) == 0,
    ensures
        ecb_blocks(s, key).len() == s.len(),
    decreases s.len(),
{
    if s.len() < BLOCK_SIZE {
        lemma_small_mod(s.len(), BLOCK_SIZE as nat);
    } else {
        assert(s.skip(BLOCK_SIZE as int).len() % (BLOCK_SIZE as nat) == 0) by {
            lemma_sub_mod_noop(s.len() as int, BLOCK_SIZE as int, BLOCK_SIZE as int);
        }
        lemma_ecb_blocks_len(s.skip(BLOCK_SIZE as int), key);
    }
}

/// Appending one more block to a block-aligned buffer appends its encryption
/// to the ECB output.
pub proof fn lemma_ecb_blocks_snoc(s: Seq<u8>, t: Seq<u8>, key: Seq<u8>)
    requires
        s.len() % (BLOCK_SIZE as nat) == 0,
        t.len() == BLOCK_SIZE,
    ensures
        ecb_blocks(s + t, key) == ecb_blocks(s, key) + aes128_block(key, t),
    decreases s.len(),
{
    if s.len() < BLOCK_SIZE {
        lemma_small_mod(s.len(), BLOCK_SIZE as nat);
        assert(s.len() == 0);
        assert((s + t).take(BLOCK_SIZE as int) =~= t);
        assert((s + t).skip(BLOCK_SIZE as int) =~= Seq::<u8>::empty());
        assert(ecb_blocks((s + t).skip(BLOCK_SIZE as int), key) == Seq::<u8>::empty());
        assert(ecb_blocks(s + t, key) == aes128_block(key, t) + Seq::<u8>::empty());
        assert(ecb_blocks(s, key) == Seq::<u8>::empty());
        assert(ecb_blocks(s + t, key) =~= ecb_blocks(s, key) + aes128_block(key, t));
    } else {
        assert((s + t).take(BLOCK_SIZE as int) =~= s.take(BLOCK_SIZE as int));
        assert((s + t).skip(BLOCK_SIZE as int) =~= s.skip(BLOCK_SIZE as int) + t);
        assert(s.skip(BLOCK_SIZE as int).len() % (BLOCK_SIZE as nat) == 0) by {
            lemma_sub_mod_noop(s.len() as int, BLOCK_SIZE as int, BLOCK_SIZE as int);
        }
        lemma_ecb_blocks_snoc(s.skip(BLOCK_SIZE as int), t, key);
        assert(ecb_blocks(s + t, key) =~= ecb_blocks(s, key) + aes128_block(key, t));
    }
}

/// Block `i` of the ECB output is the encryption of block `i` of the
/// block-aligned input.
pub proof fn lemma_ecb_block_at(s: Seq<u8>, key: Seq<u8>, i: int)
    requires
        s.len() % (BLOCK_SIZE as nat) == 0,
        0 <= i,
        BLOCK_SIZE * i + BLOCK_SIZE <= s.len(),
    ensures
        ecb_blocks(s, key).subrange(BLOCK_SIZE * i, BLOCK_SIZE * i + BLOCK_SIZE)
            == aes128_block(key, s.subrange(BLOCK_SIZE * i, BLOCK_SIZE * i + BLOCK_SIZE)),
    decreases i,
{
    lemma_ecb_blocks_len(s, key);
    let b = BLOCK_SIZE as int;
    if i == 0 {
        assert(s.subrange(0, b) =~= s.take(b));
        assert(ecb_blocks(s, key).subrange(0, b) =~= aes128_block(key, s.take(b)));
    } else {
        let rest = s.skip(b);
        assert(rest.len() % (BLOCK_SIZE as nat) == 0) by {
            lemma_sub_mod_noop(s.len() as int, b, b);
        }
        lemma_ecb_block_at(rest, key, i - 1);
        lemma_ecb_blocks_len(rest, key);
        assert(rest.subrange(b * (i - 1), b * (i - 1) + b) =~= s.subrange(b * i, b * i + b));
        assert(ecb_blocks(s, key).subrange(b * i, b * i + b) =~= ecb_blocks(rest, key).subrange(
            b * (i - 1),
            b * (i - 1) + b,
        ));
    }
}

/// The defining ECB weakness: equal 16-byte-aligned plaintext blocks encrypt
/// to equal ciphertext blocks under the same key.
pub proof fn lemma_ecb_block_independence(p: Seq<u8>, key: Seq<u8>, i: int, j: int)
    requires
        0 <= i,
        0 <= j,
        BLOCK_SIZE * i + BLOCK_SIZE <= p.len(),
        BLOCK_SIZE * j + BLOCK_SIZE <= p.len(),
        p.subrange(BLOCK_SIZE * i, BLOCK_SIZE * i + BLOCK_SIZE)
            == p.subrange(BLOCK_SIZE * j, BLOCK_SIZE * j + BLOCK_SIZE),
    ensures
        ecb_spec(p, key).subrange(BLOCK_SIZE * i, BLOCK_SIZE * i + BLOCK_SIZE)
            == ecb_spec(p, key).subrange(BLOCK_SIZE * j, BLOCK_SIZE * j + BLOCK_SIZE),
{
    let b = BLOCK_SIZE as int;
    let s = pad_spec(p);
    lemma_pad_round_trip(p);
    assert(s.subrange(b * i, b * i + b) =~= p.subrange(b * i, b * i + b));
    assert(s.subrange(b * j, b * j + b) =~= p.subrange(b * j, b * j + b));
    lemma_ecb_block_at(s, key, i);
    lemma_ecb_block_at(s, key, j);
}

/// ECB preserves the padded length: the ciphertext is exactly as long as the
/// padded plaintext.
pub proof fn lemma_ecb_length(p: Seq<u8>, key: Seq<u8>)
    ensures
        ecb_spec(p, key).len() == pad_spec(p).len(),
{
    lemma_pad_round_trip(p);
    lemma_ecb_blocks_len(pad_spec(p), key);
}

/// ECB encryption: pads the plaintext, then encrypts every 16-byte block
/// independently under `key`. Fails exactly when the key is not 16 bytes.
pub fn ecb(plaintext: &[u8], key: &[u8]) -> (r: Result<Vec<u8>, BlockCipherError>)
    requires
        plaintext@.len() + BLOCK_SIZE <= usize::MAX,
    ensures
        key@.len() == BLOCK_SIZE ==> (r matches Ok(c) && c@ == ecb_spec(plaintext@, key@)),
        key@.len() != BLOCK_SIZE ==> (r matches Err(e) && e
            == BlockCipherError::InvalidKeyLength),
{
    if key.len() != BLOCK_SIZE {
        return Err(BlockCipherError::InvalidKeyLength);
    }
    let mut padded = vstd::slice::slice_to_vec(plaintext);
    pad(&mut padded);
    proof {
        lemma_pad_round_trip(plaintext@);
    }
    let ghost s = padded@;
    let n = padded.len();
    let mut ciphertext: Vec<u8> = Vec::new();
    let mut i: usize = 0;
    while i < n
        invariant
            padded@ == s,
            s == pad_spec(plaintext@),
            s.len() == n,
            s.len() % (BLOCK_SIZE as nat) == 0,
            key@.len() == BLOCK_SIZE,
            i % BLOCK_SIZE == 0,
            i <= s.len(),
            ciphertext@ == ecb_blocks(s.take(i as int), key@),
        decreases s.len() - i,
    {
        proof {
            assert((s.len() - i as int) % (BLOCK_SIZE as int) == 0) by {
                lemma_sub_mod_noop(s.len() as int, i as int, BLOCK_SIZE as int);
            }
            if s.len() - i < BLOCK_SIZE {
                lemma_small_mod((s.len() - i) as nat, BLOCK_SIZE as nat);
            }
        }
        assert(i + BLOCK_SIZE <= s.len());
        let mut block: Vec<u8> = Vec::new();
        let mut j: usize = 0;
        while j < BLOCK_SIZE
            invariant
                padded@ == s,
                j <= BLOCK_SIZE,
                i + BLOCK_SIZE <= s.len() <= usize::MAX,
                block@ == s.subrange(i as int, i + j),
            decreases BLOCK_SIZE - j,
        {
            block.push(padded[i + j]);
            j = j + 1;
            assert(block@ =~= s.subrange(i as int, i + j));
        }
        let mut enc = encrypt_block(key, block.as_slice());
        proof {
            lemma_ecb_blocks_snoc(s.take(i as int), s.subrange(i as int, i + BLOCK_SIZE), key@);
            assert(s.take(i + BLOCK_SIZE) =~= s.take(i as int) + s.subrange(
                i as int,
                i + BLOCK_SIZE,
            ));
        }
        ciphertext.append(&mut enc);
        i = i + BLOCK_SIZE;
        assert(i % BLOCK_SIZE == 0) by {
            lemma_mod_add_multiples_vanish(i as int - BLOCK_SIZE as int, BLOCK_SIZE as int);
        }
    }
    assert(s.take(i as int) =~= s);
    Ok(ciphertext)
}

} // verus!
