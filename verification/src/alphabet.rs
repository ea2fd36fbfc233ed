//! ASCII-letter helpers shared by the substitution ciphers: classifying
//! letters, their alphabet positions, and building strings character by
//! character.

use vstd::prelude::*;

verus! {

/// Errors reported by the substitution ciphers and their key-recovery
/// routines.
#[derive(Debug, PartialEq, Eq, Structural, Clone, Copy)]
pub enum SubstitutionError {
    /// A Caesar key outside `1..=25`.
    InvalidKey,
    /// An affine multiplier `a` that has no inverse modulo 26.
    KeyNotInvertible,
    /// Known-plaintext inputs whose lengths differ.
    LengthMismatch,
    /// Two known-plaintext letter pairs that imply different keys.
    InconsistentKey,
    /// A position where one text has a letter, or another character, that the
    /// other text does not match.
    CharMismatch,
    /// No letter pair from which to derive a key.
    KeyNotFound,
    /// Fewer than two character pairs for affine key recovery.
    PairsNeeded,
}

/// An uppercase ASCII letter.
pub open spec fn is_upper(c: char) -> bool {
    'A' <= c <= 'Z'
}

/// A lowercase ASCII letter.
pub open spec fn is_lower(c: char) -> bool {
    'a' <= c <= 'z'
}

/// An ASCII letter of either case.
pub open spec fn is_letter(c: char) -> bool {
    is_upper(c) || is_lower(c)
}

/// The code of the first letter of `c`'s case: `'A'` for uppercase letters,
/// `'a'` otherwise.
pub open spec fn letter_base(c: char) -> int {
    if is_upper(c) {
        'A' as int
    } else {
        'a' as int
    }
}

/// The position of a letter in the alphabet, in `[0, 26)`.
pub open spec fn letter_pos(c: char) -> int {
    c as int - letter_base(c)
}

/// Whether `c` is an ASCII letter.
pub fn is_letter_char(c: char) -> (b: bool)
    ensures
        b == is_letter(c),
{
    ('A' <= c && c <= 'Z') || ('a' <= c && c <= 'z')
}

/// Whether `c` is an uppercase ASCII letter.
pub fn is_upper_char(c: char) -> (b: bool)
    ensures
        b == is_upper(c),
{
    'A' <= c && c <= 'Z'
}

/// Relies on `String::push`: appends one character at the end.
pub assume_specification[ String::push ](s: &mut String, c: char)
    ensures
        final(s)@ == old(s)@.push(c),
;

} // verus!
