//! Cipher-block-chaining mode: the plaintext is padded, then every 16-byte
//! block is XOR-ed with the previous ciphertext block (the initialization
//! vector for the first block) before encryption, so the blocks must be
//! processed strictly in order and a change diffuses forward through the
//! chain but never backwards.

use vstd::arithmetic::div_mod::{
    lemma_mod_add_multiples_vanish, lemma_small_mod, lemma_sub_mod_noop,
};
use vstd::prelude::*;

use crate::aes128::{aes128_block, encrypt_block};
use crate::padding::{lemma_pad_round_trip, pad, pad_spec, BlockCipherError, BLOCK_SIZE};

verus! {

/// Byte-wise XOR of two equal-length byte buffers.
pub open spec fn xor_spec(a: Seq<u8>, b: Seq<u8>) -> Seq<u8> {
    Seq::new(a.len(), |i: int| a[i] ^ b[i])
}

/// Byte-wise XOR of two equal-length byte buffers.
pub fn xor(a: &[u8], b: &[u8]) -> (r: Vec<u8>)
    requires
        a@.len() == b@.len(),
    ensures
        r@ == xor_spec(a@, b@),
{
    let mut out: Vec<u8> = Vec::new();
    let mut i: usize = 0;
    while i < a.len()
        invariant
            a@.len() == b@.len(),
            i <= a@.len(),
            out@ == xor_spec(a@, b@).take(i as int),
        decreases a@.len() - i,
    {
        out.push(a[i] ^ b[i]);
        i = i + 1;
        assert(out@ =~= xor_spec(a@, b@).take(i as int));
    }
    assert(out@ =~= xor_spec(a@, b@));
    out
}

/// Block-by-block CBC encryption of a block-aligned buffer, with `prev` as
/// the chain state: each block is XOR-ed with the previous ciphertext block
/// before encryption.
pub open spec fn cbc_blocks(s: Seq<u8>, key: Seq<u8>, prev: Seq<u8>) -> Seq<u8>
    decreases s.len(),
{
    if s.len() < BLOCK_SIZE {
        Seq::empty()
    } else {
        let c = aes128_block(key, xor_spec(s.take(BLOCK_SIZE as int), prev));
        c + cbc_blocks(s.skip(BLOCK_SIZE as int), key, c)
    }
}

/// The chain state left after CBC-encrypting a block-aligned buffer: the last
/// ciphertext block, or `prev` itself when there is no block.
pub open spec fn cbc_chain(s: Seq<u8>, key: Seq<u8>, prev: Seq<u8>) -> Seq<u8>
    decreases s.len(),
{
    if s.len() < BLOCK_SIZE {
        prev
    } else {
        cbc_chain(
            s.skip(BLOCK_SIZE as int),
            key,
            aes128_block(key, xor_spec(s.take(BLOCK_SIZE as int), prev)),
        )
    }
}

/// What `cbc` returns on a 16-byte key and a 16-byte initialization vector.
pub open spec fn cbc_spec(plaintext: Seq<u8>, key: Seq<u8>, iv: Seq<u8>) -> Seq<u8> {
    cbc_blocks(pad_spec(plaintext), key, iv)
}

/// CBC output is exactly as long as its block-aligned input.
pub proof fn lemma_cbc_blocks_len(s: Seq<u8>, key: Seq<u8>, prev: Seq<u8>)
    requires
        s.len() % (BLOCK_SIZE as nat) == 0,
    ensures
        cbc_blocks(s, key, prev).len() == s.len(),
    decreases s.len(),
{
    if s.len() < BLOCK_SIZE {
        lemma_small_mod(s.len(), BLOCK_SIZE as nat);
    } else {
        assert(s.skip(BLOCK_SIZE as int).len() % (BLOCK_SIZE as nat) == 0) by {
            lemma_sub_mod_noop(s.len() as int, BLOCK_SIZE as int, BLOCK_SIZE as int);
        }
        let c = aes128_block(key, xor_spec(s.take(BLOCK_SIZE as int), prev));
        lemma_cbc_blocks_len(s.skip(BLOCK_SIZE as int), key, c);
    }
}

/// Appending one more block to a block-aligned buffer appends its chained
/// encryption to the CBC output and advances the chain state to it.
pub proof fn lemma_cbc_blocks_snoc(s: Seq<u8>, t: Seq<u8>, key: Seq<u8>, prev: Seq<u8>)
    requires
        s.len() % (BLOCK_SIZE as nat) == 0,
        t.len() == BLOCK_SIZE,
    ensures
        cbc_blocks(s + t, key, prev) == cbc_blocks(s, key, prev) + aes128_block(
            key,
            xor_spec(t, cbc_chain(s, key, prev)),
        ),
        cbc_chain(s + t, key, prev) == aes128_block(key, xor_spec(t, cbc_chain(s, key, prev))),
    decreases s.len(),
{
    if s.len() < BLOCK_SIZE {
        lemma_small_mod(s.len(), BLOCK_SIZE as nat);
        assert(s.len() == 0);
        assert((s + t).take(BLOCK_SIZE as int) =~= t);
        assert((s + t).skip(BLOCK_SIZE as int) =~= Seq::<u8>::empty());
        let c = aes128_block(key, xor_spec(t, prev));
        assert(cbc_blocks((s + t).skip(BLOCK_SIZE as int), key, c) == Seq::<u8>::empty());
        assert(cbc_blocks(s + t, key, prev) == c + Seq::<u8>::empty());
        assert(cbc_blocks(s, key, prev) == Seq::<u8>::empty());
        assert(cbc_chain(s, key, prev) == prev);
        assert(cbc_blocks(s + t, key, prev) =~= cbc_blocks(s, key, prev) + c);
        assert(cbc_chain(s + t, key, prev) == cbc_chain((s + t).skip(BLOCK_SIZE as int), key, c));
        assert(cbc_chain(s + t, key, prev) == c);
    } else {
        assert((s + t).take(BLOCK_SIZE as int) =~= s.take(BLOCK_SIZE as int));
        assert((s + t).skip(BLOCK_SIZE as int) =~= s.skip(BLOCK_SIZE as int) + t);
        assert(s.skip(BLOCK_SIZE as int).len() % (BLOCK_SIZE as nat) == 0) by {
            lemma_sub_mod_noop(s.len() as int, BLOCK_SIZE as int, BLOCK_SIZE as int);
        }
        let c = aes128_block(key, xor_spec(s.take(BLOCK_SIZE as int), prev));
        lemma_cbc_blocks_snoc(s.skip(BLOCK_SIZE as int), t, key, c);
        assert(cbc_blocks(s + t, key, prev) =~= cbc_blocks(s, key, prev) + aes128_block(
            key,
            xor_spec(t, cbc_chain(s, key, prev)),
        ));
    }
}

/// Two block-aligned buffers that agree on their first `m` bytes produce CBC
/// outputs that agree on their first `m` bytes: a change never propagates
/// backwards through the chain.
pub proof fn lemma_cbc_blocks_prefix(
    s1: Seq<u8>,
    s2: Seq<u8>,
    key: Seq<u8>,
    prev: Seq<u8>,
    m: int,
)
    requires
        s1.len() % (BLOCK_SIZE as nat) == 0,
        s2.len() % (BLOCK_SIZE as nat) == 0,
        m % (BLOCK_SIZE as int) == 0,
        0 <= m <= s1.len(),
        m <= s2.len(),
        s1.take(m) == s2.take(m),
    ensures
        cbc_blocks(s1, key, prev).take(m) == cbc_blocks(s2, key, prev).take(m),
    decreases m,
{
    lemma_cbc_blocks_len(s1, key, prev);
    lemma_cbc_blocks_len(s2, key, prev);
    let b = BLOCK_SIZE as int;
    if m == 0 {
        assert(cbc_blocks(s1, key, prev).take(0) =~= cbc_blocks(s2, key, prev).take(0));
    } else {
        assert(m >= BLOCK_SIZE) by {
            if m < BLOCK_SIZE {
                lemma_small_mod(m as nat, BLOCK_SIZE as nat);
            }
        }
        assert(s1.take(b) =~= s2.take(b)) by {
            assert(forall|k: int| 0 <= k < b ==> s1.take(m)[k] == s2.take(m)[k]);
        }
        let c = aes128_block(key, xor_spec(s1.take(b), prev));
        let r1 = s1.skip(b);
        let r2 = s2.skip(b);
        assert(r1.len() % (BLOCK_SIZE as nat) == 0) by {
            lemma_sub_mod_noop(s1.len() as int, b, b);
        }
        assert(r2.len() % (BLOCK_SIZE as nat) == 0) by {
            lemma_sub_mod_noop(s2.len() as int, b, b);
        }
        assert((m - b) % b == 0) by {
            lemma_sub_mod_noop(m, b, b);
        }
        assert(r1.take(m - b) =~= r2.take(m - b)) by {
            assert(forall|k: int| 0 <= k < m - b ==> r1[k] == s1.take(m)[k + b]);
            assert(forall|k: int| 0 <= k < m - b ==> r2[k] == s2.take(m)[k + b]);
        }
        lemma_cbc_blocks_prefix(r1, r2, key, c, m - b);
        lemma_cbc_blocks_len(r1, key, c);
        lemma_cbc_blocks_len(r2, key, c);
        assert(cbc_blocks(s1, key, prev).take(m) =~= c + cbc_blocks(r1, key, c).take(m - b));
        assert(cbc_blocks(s2, key, prev).take(m) =~= c + cbc_blocks(r2, key, c).take(m - b));
    }
}

/// Cipher-block-chaining never propagates a plaintext change backwards: two
/// equal-length plaintexts that agree on their first `BLOCK_SIZE * n` bytes
/// produce ciphertexts that agree on their first `BLOCK_SIZE * n` bytes.
pub proof fn lemma_cbc_prefix_stability(
    p1: Seq<u8>,
    p2: Seq<u8>,
    key: Seq<u8>,
    iv: Seq<u8>,
    n: int,
)
    requires
        p1.len() == p2.len(),
        0 <= BLOCK_SIZE * n <= p1.len(),
        p1.take(BLOCK_SIZE * n) == p2.take(BLOCK_SIZE * n),
    ensures
        cbc_spec(p1, key, iv).take(BLOCK_SIZE * n) == cbc_spec(p2, key, iv).take(BLOCK_SIZE * n),
{
    let b = BLOCK_SIZE as int;
    let m = b * n;
    lemma_pad_round_trip(p1);
    lemma_pad_round_trip(p2);
    assert(m % b == 0) by {
        vstd::arithmetic::div_mod::lemma_mod_multiples_basic(n, b);
        assert(n * b == b * n) by {
            vstd::arithmetic::mul::lemma_mul_is_commutative(n, b);
        }
    }
    assert(pad_spec(p1).take(m) =~= pad_spec(p2).take(m)) by {
        assert(forall|k: int| 0 <= k < m ==> pad_spec(p1)[k] == p1.take(m)[k]);
        assert(forall|k: int| 0 <= k < m ==> pad_spec(p2)[k] == p2.take(m)[k]);
    }
    lemma_cbc_blocks_prefix(pad_spec(p1), pad_spec(p2), key, iv, m);
}

/// CBC preserves the padded length: the ciphertext is exactly as long as the
/// padded plaintext; the initialization vector is not part of the output.
pub proof fn lemma_cbc_length(p: Seq<u8>, key: Seq<u8>, iv: Seq<u8>)
    ensures
        cbc_spec(p, key, iv).len() == pad_spec(p).len(),
{
    lemma_pad_round_trip(p);
    lemma_cbc_blocks_len(pad_spec(p), key, iv);
}

/// CBC encryption: pads the plaintext, then encrypts every 16-byte block
/// after XOR-ing it with the previous ciphertext block, starting from the
/// initialization vector `iv`. Fails exactly when the key, or otherwise the
/// initialization vector, is not 16 bytes.
pub fn cbc(plaintext: &[u8], key: &[u8], iv: &[u8]) -> (r: Result<Vec<u8>, BlockCipherError>)
    requires
        plaintext@.len() + BLOCK_SIZE <= usize::MAX,
    ensures
        key@.len() == BLOCK_SIZE && iv@.len() == BLOCK_SIZE ==> (r matches Ok(c) && c@
            == cbc_spec(plaintext@, key@, iv@)),
        key@.len() != BLOCK_SIZE ==> (r matches Err(e) && e
            == BlockCipherError::InvalidKeyLength),
        key@.len() == BLOCK_SIZE && iv@.len() != BLOCK_SIZE ==> (r matches Err(e) && e
            == BlockCipherError::InvalidIvLength),
{
    if key.len() != BLOCK_SIZE {
        return Err(BlockCipherError::InvalidKeyLength);
    }
    if iv.len() != BLOCK_SIZE {
        return Err(BlockCipherError::InvalidIvLength);
    }
    let mut padded = vstd::slice::slice_to_vec(plaintext);
    pad(&mut padded);
    proof {
        lemma_pad_round_trip(plaintext@);
    }
    let ghost s = padded@;
    let n = padded.len();
    let mut ciphertext: Vec<u8> = Vec::new();
    let mut previous = vstd::slice::slice_to_vec(iv);
    let mut i: usize = 0;
    while i < n
        invariant
            padded@ == s,
            s == pad_spec(plaintext@),
            s.len() == n,
            s.len() % (BLOCK_SIZE as nat) == 0,
            key@.len() == BLOCK_SIZE,
            iv@.len() == BLOCK_SIZE,
            i % BLOCK_SIZE == 0,
            i <= s.len(),
            previous@ == cbc_chain(s.take(i as int), key@, iv@),
            previous@.len() == BLOCK_SIZE,
            ciphertext@ == cbc_blocks(s.take(i as int), key@, iv@),
        decreases s.len() - i,
    {
        proof {
            assert((s.len() - i as int) % (BLOCK_SIZE as int) == 0) by {
                lemma_sub_mod_noop(s.len() as int, i as int, BLOCK_SIZE as int);
            }
            if s.len() - i < BLOCK_SIZE {
                lemma_small_mod((s.len() - i) as nat, BLOCK_SIZE as nat);
            }
        }
        assert(i + BLOCK_SIZE <= s.len());
        let mut block: Vec<u8> = Vec::new();
        let mut j: usize = 0;
        while j < BLOCK_SIZE
            invariant
                padded@ == s,
                j <= BLOCK_SIZE,
                i + BLOCK_SIZE <= s.len() <= usize::MAX,
                block@ == s.subrange(i as int, i + j),
            decreases BLOCK_SIZE - j,
        {
            block.push(padded[i + j]);
            j = j + 1;
            assert(block@ =~= s.subrange(i as int, i + j));
        }
        let xored = xor(block.as_slice(), previous.as_slice());
        let mut enc = encrypt_block(key, xored.as_slice());
        proof {
            lemma_cbc_blocks_snoc(
                s.take(i as int),
                s.subrange(i as int, i + BLOCK_SIZE),
                key@,
                iv@,
            );
            assert(s.take(i + BLOCK_SIZE) =~= s.take(i as int) + s.subrange(
                i as int,
                i + BLOCK_SIZE,
            ));
        }
        previous = vstd::slice::slice_to_vec(enc.as_slice());
        ciphertext.append(&mut enc);
        i = i + BLOCK_SIZE;
        assert(i % BLOCK_SIZE == 0) by {
            lemma_mod_add_multiples_vanish(i as int - BLOCK_SIZE as int, BLOCK_SIZE as int);
        }
    }
    assert(s.take(i as int) =~= s);
    Ok(ciphertext)
}

} // verus!
