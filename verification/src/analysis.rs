//! Known-plaintext key recovery: deriving a Caesar key from a ciphertext and
//! its plaintext by comparing letter positions pair by pair, and deriving an
//! affine key from the first two character pairs.

use vstd::arithmetic::div_mod::{
    lemma_mod_add_multiples_vanish, lemma_mod_multiples_vanish, lemma_small_mod,
};
use vstd::prelude::*;
use vstd::string::StrSliceExecFns;

use crate::affine::gcd_spec;
use crate::affine::inverse;
use crate::alphabet::{
    is_letter, is_letter_char, is_upper_char, letter_pos, SubstitutionError,
};
use crate::caesar::caesar_spec;
use crate::caesar::decrypt;

verus! {

/// The Caesar key implied by one ciphertext/plaintext letter pair: the
/// difference of their alphabet positions, modulo 26.
pub open spec fn pair_key(c: char, p: char) -> int {
    (letter_pos(c) - letter_pos(p)) % 26
}

/// The state of the pair-by-pair Caesar key scan.
pub enum KeyScan {
    /// A position where the texts differ other than by a letter pair.
    Mismatch,
    /// Two letter pairs implied different keys.
    Conflict,
    /// No letter pair seen yet.
    NoKey,
    /// Every letter pair so far implied this key.
    Key(int),
}

/// The scan state after comparing the first `i` character pairs of
/// ciphertext `c` and plaintext `p`: the first offence wins, letter pairs
/// must all imply one key, and other positions must match exactly.
pub open spec fn key_scan(c: Seq<char>, p: Seq<char>, i: int) -> KeyScan
    decreases i,
{
    if i <= 0 {
        KeyScan::NoKey
    } else {
        let prev = key_scan(c, p, i - 1);
        let cc = c[i - 1];
        let pc = p[i - 1];
        match prev {
            KeyScan::Mismatch => KeyScan::Mismatch,
            KeyScan::Conflict => KeyScan::Conflict,
            KeyScan::NoKey => {
                if is_letter(cc) && is_letter(pc) {
                    KeyScan::Key(pair_key(cc, pc))
                } else if cc != pc {
                    KeyScan::Mismatch
                } else {
                    KeyScan::NoKey
                }
            },
            KeyScan::Key(k) => {
                if is_letter(cc) && is_letter(pc) {
                    if pair_key(cc, pc) == k {
                        KeyScan::Key(k)
                    } else {
                        KeyScan::Conflict
                    }
                } else if cc != pc {
                    KeyScan::Mismatch
                } else {
                    KeyScan::Key(k)
                }
            },
        }
    }
}

/// Once the scan has failed it stays failed, whatever follows.
proof fn lemma_key_scan_absorbs(c: Seq<char>, p: Seq<char>, i: int, j: int)
    requires
        0 <= i <= j,
    ensures
        key_scan(c, p, i) is Mismatch ==> key_scan(c, p, j) is Mismatch,
        key_scan(c, p, i) is Conflict ==> key_scan(c, p, j) is Conflict,
    decreases j - i,
{
    if i < j {
        lemma_key_scan_absorbs(c, p, i, j - 1);
    }
}

/// The difference of two letters' alphabet positions, modulo 26.
fn pair_key_letters(c: char, p: char) -> (r: i32)
    requires
        is_letter(c),
        is_letter(p),
    ensures
        r as int == pair_key(c, p),
        0 <= r < 26,
{
    let cb: u32 = if is_upper_char(c) {
        65
    } else {
        97
    };
    let pb: u32 = if is_upper_char(p) {
        65
    } else {
        97
    };
    let d: i32 = (c as u32 - cb) as i32 - (p as u32 - pb) as i32;
    let r = if d < 0 {
        d + 26
    } else {
        d
    };
    proof {
        if d < 0 {
            lemma_mod_add_multiples_vanish(d as int, 26);
            lemma_small_mod((d + 26) as nat, 26);
        } else {
            lemma_small_mod(d as nat, 26);
        }
    }
    r
}

/// Recovers the Caesar key from a ciphertext and its known plaintext: the
/// texts must have equal length, every letter pair must imply the same key,
/// every other position must match exactly, at least one letter pair must
/// occur, and the key must be usable for decryption (non-zero). Returns the
/// key and the decrypted ciphertext.
pub fn run_caesar_plaintext(ciphertext: &str, plaintext: &str) -> (r: Result<
    (i32, String),
    SubstitutionError,
>)
    ensures
        ciphertext@.len() != plaintext@.len() ==> (r matches Err(e) && e
            == SubstitutionError::LengthMismatch),
        ciphertext@.len() == plaintext@.len() ==> match key_scan(
            ciphertext@,
            plaintext@,
            ciphertext@.len() as int,
        ) {
            KeyScan::Mismatch => r matches Err(e) && e == SubstitutionError::CharMismatch,
            KeyScan::Conflict => r matches Err(e) && e == SubstitutionError::InconsistentKey,
            KeyScan::NoKey => r matches Err(e) && e == SubstitutionError::KeyNotFound,
            KeyScan::Key(k) => if 1 <= k <= 25 {
                r matches Ok(pair) && pair.0 == k && pair.1@ == caesar_spec(ciphertext@, 26 - k)
            } else {
                r matches Err(e) && e == SubstitutionError::InvalidKey
            },
        },
{
    let cn = ciphertext.unicode_len();
    let pn = plaintext.unicode_len();
    if cn != pn {
        return Err(SubstitutionError::LengthMismatch);
    }
    let ghost cs = ciphertext@;
    let ghost ps = plaintext@;
    let mut key: Option<i32> = None;
    let mut i: usize = 0;
    while i < cn
        invariant
            i <= cn,
            cn == cs.len() == ps.len(),
            cs == ciphertext@,
            ps == plaintext@,
            match key {
                Option::None => key_scan(cs, ps, i as int) == KeyScan::NoKey,
                Option::Some(k) => 0 <= k < 26 && key_scan(cs, ps, i as int) == KeyScan::Key(
                    k as int,
                ),
            },
        decreases cn - i,
    {
        let cc = ciphertext.get_char(i);
        let pc = plaintext.get_char(i);
        if is_letter_char(cc) && is_letter_char(pc) {
            let curr = pair_key_letters(cc, pc);
            match key {
                Option::Some(k) => {
                    if k != curr {
                        proof {
                            lemma_key_scan_absorbs(cs, ps, i + 1, cn as int);
                        }
                        return Err(SubstitutionError::InconsistentKey);
                    }
                },
                Option::None => {
                    key = Some(curr);
                },
            }
        } else if cc != pc {
            proof {
                lemma_key_scan_absorbs(cs, ps, i + 1, cn as int);
            }
            return Err(SubstitutionError::CharMismatch);
        }
        i = i + 1;
    }
    let k = match key {
        Option::Some(k) => k,
        Option::None => {
            return Err(SubstitutionError::KeyNotFound);
        },
    };
    match decrypt(ciphertext, k) {
        Ok(text) => Ok((k, text)),
        Err(e) => Err(e),
    }
}

/// Recovers the affine key `(a, b)` from the first two character pairs of a
/// ciphertext and its known plaintext: both texts must hold at least two
/// characters, and the position difference of the two plaintext letters must
/// be invertible modulo 26.
pub fn run_affine_plaintext(ciphertext: &str, plaintext: &str) -> (r: Result<
    (i32, i32),
    SubstitutionError,
>)
    requires
        ciphertext@.len() >= 2 && plaintext@.len() >= 2 ==> is_letter(ciphertext@[0])
            && is_letter(ciphertext@[1]) && is_letter(plaintext@[0]) && is_letter(plaintext@[1]),
    ensures
        ciphertext@.len() < 2 || plaintext@.len() < 2 ==> (r matches Err(e) && e
            == SubstitutionError::PairsNeeded),
        ciphertext@.len() >= 2 && plaintext@.len() >= 2 ==> {
            let dx = (letter_pos(plaintext@[0]) - letter_pos(plaintext@[1])) % 26;
            let dy = (letter_pos(ciphertext@[0]) - letter_pos(ciphertext@[1])) % 26;
            if gcd_spec(26, dx) != 1 {
                r matches Err(e) && e == SubstitutionError::KeyNotInvertible
            } else {
                r matches Ok(ab) && exists|t: int|
                    0 <= t < 26 && #[trigger] ((t * dx) % 26) == 1 && ab.0 == (t * dy) % 26
                        && ab.1 == (letter_pos(ciphertext@[0]) - ab.0 * letter_pos(
                        plaintext@[0],
                    )) % 26
            }
        },
{
    let cn = ciphertext.unicode_len();
    let pn = plaintext.unicode_len();
    if cn < 2 || pn < 2 {
        return Err(SubstitutionError::PairsNeeded);
    }
    let y1 = ciphertext.get_char(0);
    let y2 = ciphertext.get_char(1);
    let x1 = plaintext.get_char(0);
    let x2 = plaintext.get_char(1);

    let diff_x = pair_key_letters(x1, x2);
    let diff_y = pair_key_letters(y1, y2);

    let t = match inverse(diff_x, 26) {
        Some(t) => t,
        None => {
            return Err(SubstitutionError::KeyNotInvertible);
        },
    };

    proof {
        assert(0 <= t as int * diff_y as int <= 675) by (nonlinear_arith)
            requires
                0 <= t < 26,
                0 <= diff_y < 26,
        ;
    }
    let a = (t * diff_y) % 26;

    let y1p = letter_position(y1);
    let x1p = letter_position(x1);
    proof {
        assert(0 <= a as int * x1p as int <= 675) by (nonlinear_arith)
            requires
                0 <= a < 26,
                0 <= x1p < 26,
        ;
    }
    let b = rem_euclid_26(y1p - a * x1p);
    proof {
        assert(1int % 26 == 1) by {
            lemma_small_mod(1nat, 26);
        }
    }
    Ok((a, b))
}

/// The alphabet position of a letter, in `[0, 26)`.
fn letter_position(c: char) -> (r: i32)
    requires
        is_letter(c),
    ensures
        r as int == letter_pos(c),
        0 <= r < 26,
{
    let base: u32 = if is_upper_char(c) {
        65
    } else {
        97
    };
    (c as u32 - base) as i32
}

/// `v` reduced modulo 26 into `[0, 26)`.
fn rem_euclid_26(v: i32) -> (r: i32)
    requires
        -1000000 <= v <= 1000000,
    ensures
        r as int == (v as int) % 26,
        0 <= r < 26,
{
    if v >= 0 {
        let r = ((v as u32) % 26) as i32;
        proof {
            assert(r as int == (v as int) % 26);
        }
        r
    } else {
        let w = (((-v) as u32) % 26) as i32;
        let ghost vi = v as int;
        let ghost q = (-vi) / 26;
        proof {
            vstd::arithmetic::div_mod::lemma_fundamental_div_mod(-vi, 26);
            assert(vi == 26 * (-q) + (-(w as int)));
            lemma_mod_multiples_vanish(-q, -(w as int), 26);
            assert(vi % 26 == (-(w as int)) % 26);
            if w == 0 {
                assert((0int) % 26 == 0) by {
                    lemma_small_mod(0nat, 26);
                }
            } else {
                lemma_mod_add_multiples_vanish(-(w as int), 26);
                lemma_small_mod((26 - w) as nat, 26);
            }
        }
        if w == 0 {
            0
        } else {
            26 - w
        }
    }
}

} // verus!
