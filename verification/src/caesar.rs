//! The Caesar cipher: every ASCII letter is shifted by a fixed key within its
//! case's alphabet; every other character passes through unchanged.

use vstd::prelude::*;
use vstd::string::StrSliceExecFns;

use crate::alphabet::{
    is_letter, is_letter_char, letter_base, letter_pos, SubstitutionError,
};

verus! {

/// One character shifted forward by `key` positions within its case's
/// alphabet; non-letters are unchanged.
pub open spec fn shift_char(c: char, key: int) -> char {
    if is_letter(c) {
        ((letter_pos(c) + key) % 26 + letter_base(c)) as char
    } else {
        c
    }
}

/// A whole text shifted forward by `key` positions, letter by letter.
pub open spec fn caesar_spec(s: Seq<char>, key: int) -> Seq<char> {
    s.map_values(|c: char| shift_char(c, key))
}

/// One character shifted forward by `key` positions.
fn shift_letter(c: char, key: i32) -> (r: char)
    requires
        0 <= key <= 26,
    ensures
        r == shift_char(c, key as int),
{
    if is_letter_char(c) {
        let u = c as u32;
        let base: u32 = if 'A' <= c && c <= 'Z' {
            65
        } else {
            97
        };
        (((u - base + key as u32) % 26 + base) as u8) as char
    } else {
        c
    }
}

/// Caesar encryption: shifts every letter forward by `key`, which must lie in
/// `1..=25`; other characters pass through unchanged.
pub fn encrypt(plaintext: &str, key: i32) -> (r: Result<String, SubstitutionError>)
    ensures
        1 <= key <= 25 ==> (r matches Ok(c) && c@ == caesar_spec(plaintext@, key as int)),
        !(1 <= key <= 25) ==> (r matches Err(e) && e == SubstitutionError::InvalidKey),
{
    if !(1 <= key && key <= 25) {
        return Err(SubstitutionError::InvalidKey);
    }
    let n = plaintext.unicode_len();
    let mut out = String::new();
    let mut i: usize = 0;
    while i < n
        invariant
            1 <= key <= 25,
            i <= n,
            n == plaintext@.len(),
            out@ == caesar_spec(plaintext@.take(i as int), key as int),
        decreases n - i,
    {
        let c = plaintext.get_char(i);
        out.push(shift_letter(c, key));
        i = i + 1;
        assert(out@ =~= caesar_spec(plaintext@.take(i as int), key as int));
    }
    assert(plaintext@.take(n as int) =~= plaintext@);
    Ok(out)
}

/// Caesar decryption: shifts every letter back by `key`, which must lie in
/// `1..=25`, by shifting it forward by `26 - key`.
pub fn decrypt(ciphertext: &str, key: i32) -> (r: Result<String, SubstitutionError>)
    ensures
        1 <= key <= 25 ==> (r matches Ok(c) && c@ == caesar_spec(ciphertext@, 26 - key)),
        !(1 <= key <= 25) ==> (r matches Err(e) && e == SubstitutionError::InvalidKey),
{
    if !(1 <= key && key <= 25) {
        return Err(SubstitutionError::InvalidKey);
    }
    encrypt(ciphertext, 26 - key)
}

/// Decrypting an encryption with the same key restores the text: shifting by
/// `key` and then by `26 - key` is the identity on every character.
pub proof fn lemma_caesar_round_trip(s: Seq<char>, key: int)
    requires
        1 <= key <= 25,
    ensures
        caesar_spec(caesar_spec(s, key), 26 - key) == s,
{
    assert forall|c: char| #[trigger] shift_char(shift_char(c, key), 26 - key) == c by {
        if is_letter(c) {
            let d = shift_char(c, key);
            assert(letter_base(d) == letter_base(c));
            assert(letter_pos(d) == (letter_pos(c) + key) % 26);
            assert((letter_pos(d) + (26 - key)) % 26 == letter_pos(c)) by {
                vstd::arithmetic::div_mod::lemma_add_mod_noop(
                    letter_pos(c) + key,
                    26 - key,
                    26,
                );
                vstd::arithmetic::div_mod::lemma_mod_add_multiples_vanish(letter_pos(c), 26);
                vstd::arithmetic::div_mod::lemma_small_mod(letter_pos(c) as nat, 26);
            }
        }
    }
    assert(caesar_spec(caesar_spec(s, key), 26 - key) =~= s);
}

} // verus!
