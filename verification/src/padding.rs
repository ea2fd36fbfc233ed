//! PKCS#7-style padding: extends a byte buffer to a positive multiple of the
//! cipher block size by appending `p` copies of the byte `p`, and the inverse
//! operation that validates and strips the padding.

use vstd::prelude::*;

verus! {

/// Number of bytes in one cipher block.
pub const BLOCK_SIZE: usize = 16;

/// Errors reported by the block-mode operations.
#[derive(Debug, PartialEq, Eq, Structural, Clone, Copy)]
pub enum BlockCipherError {
    /// The key is not exactly `BLOCK_SIZE` bytes long.
    InvalidKeyLength,
    /// The initialization vector is not exactly `BLOCK_SIZE` bytes long.
    InvalidIvLength,
    /// The buffer does not end in well-formed padding.
    InvalidPadding,
}

/// Number of padding bytes appended to a buffer of length `n`; always in
/// `[1, BLOCK_SIZE]`, so even a block-aligned buffer gains a full extra block.
pub open spec fn pad_amount(n: nat) -> nat {
    (BLOCK_SIZE - n % (BLOCK_SIZE as nat)) as nat
}

/// The padded form of `s`: `s` followed by `pad_amount(s.len())` copies of
/// the byte `pad_amount(s.len())`.
pub open spec fn pad_spec(s: Seq<u8>) -> Seq<u8> {
    s + Seq::new(pad_amount(s.len()), |i: int| pad_amount(s.len()) as u8)
}

/// Whether `s` ends in well-formed padding: a final byte `p` in
/// `[1, BLOCK_SIZE]` preceded by enough bytes, the last `p` of which all
/// equal `p`.
pub open spec fn padding_ok(s: Seq<u8>) -> bool {
    &&& s.len() > 0
    &&& 1 <= s.last() <= BLOCK_SIZE
    &&& s.last() <= s.len()
    &&& forall|i: int| s.len() - s.last() <= i < s.len() ==> s[i] == s.last()
}

/// The buffer with its padding stripped, or `None` when the padding is not
/// well formed.
pub open spec fn unpad_spec(s: Seq<u8>) -> Option<Seq<u8>> {
    if padding_ok(s) {
        Some(s.take(s.len() - s.last() as int))
    } else {
        None
    }
}

/// Extends `data` with padding so that its length becomes a positive
/// multiple of `BLOCK_SIZE`.
pub fn pad(data: &mut Vec<u8>)
    requires
        old(data)@.len() + BLOCK_SIZE <= usize::MAX,
    ensures
        final(data)@ == pad_spec(old(data)@),
{
    let ghost orig = data@;
    let n = data.len();
    let p: usize = BLOCK_SIZE - (n % BLOCK_SIZE);
    assert(p == pad_amount(orig.len()));
    let mut j: usize = 0;
    while j < p
        invariant
            j <= p,
            p == pad_amount(orig.len()),
            1 <= p <= BLOCK_SIZE,
            orig.len() + BLOCK_SIZE <= usize::MAX,
            data@ == orig + Seq::new(j as nat, |i: int| p as u8),
        decreases p - j,
    {
        data.push(p as u8);
        j = j + 1;
        assert(data@ =~= orig + Seq::new(j as nat, |i: int| p as u8));
    }
    assert(data@ =~= pad_spec(orig));
}

/// Validates and strips the padding from `data`, returning the original
/// buffer, or `InvalidPadding` when the trailing bytes are not well-formed
/// padding.
pub fn unpad(data: &[u8]) -> (r: Result<Vec<u8>, BlockCipherError>)
    ensures
        r matches Ok(v) ==> unpad_spec(data@) == Some(v@),
        r matches Err(e) ==> unpad_spec(data@) is None && e == BlockCipherError::InvalidPadding,
{
    if data.len() == 0 {
        return Err(BlockCipherError::InvalidPadding);
    }
    let p = data[data.len() - 1];
    if p == 0 || p as usize > BLOCK_SIZE || p as usize > data.len() {
        return Err(BlockCipherError::InvalidPadding);
    }
    let start = data.len() - p as usize;
    let mut i: usize = start;
    while i < data.len()
        invariant
            start <= i <= data@.len(),
            start == data@.len() - p,
            data@.len() > 0,
            p == data@.last(),
            1 <= p <= BLOCK_SIZE,
            forall|k: int| start <= k < i ==> data@[k] == p,
        decreases data@.len() - i,
    {
        if data[i] != p {
            return Err(BlockCipherError::InvalidPadding);
        }
        i = i + 1;
    }
    let mut out: Vec<u8> = Vec::new();
    let mut k: usize = 0;
    while k < start
        invariant
            k <= start <= data@.len(),
            out@ == data@.take(k as int),
        decreases start - k,
    {
        out.push(data[k]);
        assert(out@ =~= data@.take(k + 1 as int));
        k = k + 1;
    }
    assert(padding_ok(data@));
    Ok(out)
}

/// Padding makes the length a positive multiple of the block size, and is
/// reversible: stripping the padding restores the original buffer exactly.
pub proof fn lemma_pad_round_trip(b: Seq<u8>)
    ensures
        pad_spec(b).len() % (BLOCK_SIZE as nat) == 0,
        unpad_spec(pad_spec(b)) == Some(b),
{
    let n = b.len();
    let p = pad_amount(n);
    let s = pad_spec(b);
    assert(s.len() == n + p);
    assert((n + p) % (BLOCK_SIZE as nat) == 0) by {
        assert(n % (BLOCK_SIZE as nat) + p == BLOCK_SIZE);
        vstd::arithmetic::div_mod::lemma_mod_add_multiples_vanish(
            n as int,
            BLOCK_SIZE as int,
        );
        assert((n + p) % (BLOCK_SIZE as nat) == (n % (BLOCK_SIZE as nat) + p) % (BLOCK_SIZE as nat))
            by {
            vstd::arithmetic::div_mod::lemma_add_mod_noop(n as int, p as int, BLOCK_SIZE as int);
            vstd::arithmetic::div_mod::lemma_mod_twice(n as int, BLOCK_SIZE as int);
        }
        vstd::arithmetic::div_mod::lemma_mod_self_0(BLOCK_SIZE as int);
    }
    assert(s.last() == p as u8);
    assert(padding_ok(s));
    assert(s.take(s.len() - p as int) =~= b);
}

/// Padding strictly grows a buffer, by at least one byte and by at most one
/// full block.
pub proof fn lemma_pad_grows(b: Seq<u8>)
    ensures
        pad_spec(b).len() > b.len(),
        pad_spec(b).len() - b.len() <= BLOCK_SIZE,
{
}

} // verus!
