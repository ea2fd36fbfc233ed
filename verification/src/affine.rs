//! The affine cipher: every ASCII letter at position `x` maps to position
//! `(a*x + b) mod 26`, where `a` must be invertible modulo 26. Decryption
//! multiplies by the modular inverse of `a`, computed by the extended
//! Euclidean algorithm.

use vstd::arithmetic::div_mod::{
    lemma_fundamental_div_mod, lemma_mod_add_multiples_vanish, lemma_mod_multiples_vanish,
    lemma_mul_mod_noop_left, lemma_mul_mod_noop_right, lemma_small_mod, lemma_sub_mod_noop,
};
use vstd::arithmetic::mul::lemma_mul_is_associative;
use vstd::math::abs;
use vstd::prelude::*;
use vstd::string::StrSliceExecFns;

use crate::alphabet::{
    is_letter, is_letter_char, letter_base, letter_pos, SubstitutionError,
};

verus! {

/// Greatest common divisor by Euclid's algorithm; `a` for non-positive `b`.
pub open spec fn gcd_spec(a: int, b: int) -> int
    decreases b,
{
    if b <= 0 {
        a
    } else {
        gcd_spec(b, a % b)
    }
}

/// Greatest common divisor of two non-negative numbers.
pub fn gcd(a: i32, b: i32) -> (r: i32)
    requires
        0 <= a,
        0 <= b,
    ensures
        r == gcd_spec(a as int, b as int),
    decreases b,
{
    if b == 0 {
        return a;
    }
    gcd(b, a % b)
}

/// The multiplicative inverse of `a` modulo `n`, by the extended Euclidean
/// algorithm: `Some(t)` with `t * a == 1 (mod n)` exactly when `a` and `n`
/// are coprime, `None` otherwise.
pub fn inverse(a: i32, n: i32) -> (r: Option<i32>)
    requires
        0 <= a < n,
    ensures
        gcd_spec(n as int, a as int) == 1 ==> (r matches Some(t) && 0 <= t < n && (t as int
            * a as int) % (n as int) == 1int % (n as int)),
        gcd_spec(n as int, a as int) != 1 ==> r is None,
{
    let ghost ai = a as int;
    let ghost ni = n as int;
    let mut t: i32 = 0;
    let mut new_t: i32 = 1;
    let mut r: i32 = n;
    let mut new_r: i32 = a;

    proof {
        assert((1int) * ni == r as int - t as int * ai);
        assert((0int) * ni == new_r as int - new_t as int * ai);
        assert(abs(1int) == 1 && abs(0int) == 0);
        assert(r as int * abs(new_t as int) + new_r as int * abs(t as int) == ni);
    }
    while new_r != 0
        invariant
            0 <= new_r < r <= n,
            0 <= ai < ni,
            ai == a as int,
            ni == n as int,
            gcd_spec(r as int, new_r as int) == gcd_spec(ni, ai),
            exists|s: int| #[trigger] (s * ni) == r as int - t as int * ai,
            exists|s: int| #[trigger] (s * ni) == new_r as int - new_t as int * ai,
            t as int * new_t as int <= 0,
            r as int * abs(new_t as int) + new_r as int * abs(t as int) == ni,
            abs(t as int) <= ni,
            abs(new_t as int) <= ni,
            ni == 1 ==> t == 0,
        decreases new_r,
    {
        let q: u32 = (r as u32) / (new_r as u32);
        let rem: u32 = (r as u32) % (new_r as u32);
        let ghost ri = r as int;
        let ghost nri = new_r as int;
        let ghost ti = t as int;
        let ghost nti = new_t as int;
        let ghost qi = q as int;
        let ghost remi = rem as int;
        proof {
            lemma_fundamental_div_mod(ri, nri);
            assert(qi == ri / nri && remi == ri % nri);
            assert(ri == nri * qi + remi);
            assert(0 <= remi < nri);
            assert(qi >= 1) by (nonlinear_arith)
                requires
                    ri == nri * qi + remi,
                    0 <= remi < nri,
                    nri < ri,
                    qi >= 0,
            ;
            assert(qi <= ri) by (nonlinear_arith)
                requires
                    ri == nri * qi + remi,
                    0 <= remi,
                    1 <= nri,
                    1 <= qi,
            ;
            assert(qi * nti <= 0x4000_0000_0000_0000 && qi * nti >= -0x4000_0000_0000_0000)
                by (nonlinear_arith)
                requires
                    0 <= qi < 0x8000_0000,
                    -0x8000_0000 <= nti < 0x8000_0000,
            ;
        }
        let t64: i64 = (t as i64) - (q as i64) * (new_t as i64);
        let ghost t2 = t64 as int;
        proof {
            assert(t2 == ti - qi * nti);
            // The new coefficient's magnitude adds up, and its sign opposes
            // `new_t`'s, because `t` and `new_t` never share a strict sign.
            if nti > 0 {
                assert(ti <= 0) by (nonlinear_arith)
                    requires
                        ti * nti <= 0,
                        nti > 0,
                ;
                assert(qi * nti >= 1) by (nonlinear_arith)
                    requires
                        qi >= 1,
                        nti >= 1,
                ;
                assert(abs(t2) == abs(ti) + qi * abs(nti));
                assert(nti * t2 <= 0) by (nonlinear_arith)
                    requires
                        nti >= 0,
                        t2 <= 0,
                ;
            } else if nti < 0 {
                assert(ti >= 0) by (nonlinear_arith)
                    requires
                        ti * nti <= 0,
                        nti < 0,
                ;
                assert(qi * nti <= -1) by (nonlinear_arith)
                    requires
                        qi >= 1,
                        nti <= -1,
                ;
                assert(qi * abs(nti) == -(qi * nti)) by (nonlinear_arith)
                    requires
                        qi * abs(nti) >= 0,
                        abs(nti) == -nti,
                ;
                assert(abs(t2) == abs(ti) + qi * abs(nti));
                assert(nti * t2 <= 0) by (nonlinear_arith)
                    requires
                        nti <= 0,
                        t2 >= 0,
                ;
            } else {
                assert(qi * nti == 0) by (nonlinear_arith)
                    requires
                        nti == 0,
                ;
                assert(abs(t2) == abs(ti) + qi * abs(nti));
                assert(nti * t2 == 0) by (nonlinear_arith)
                    requires
                        nti == 0,
                ;
            }
            // The weighted-magnitude identity carries over to the new pair.
            assert(nri * abs(t2) + remi * abs(nti) == ni) by (nonlinear_arith)
                requires
                    ri * abs(nti) + nri * abs(ti) == ni,
                    ri == nri * qi + remi,
                    abs(t2) == abs(ti) + qi * abs(nti),
            ;
            assert(abs(t2) <= ni) by (nonlinear_arith)
                requires
                    nri * abs(t2) + remi * abs(nti) == ni,
                    1 <= nri,
                    0 <= remi,
                    abs(t2) >= 0,
                    abs(nti) >= 0,
            ;
            // Both coefficients stay linear combinations of `a` and `n`.
            let s1 = choose|s: int| #[trigger] (s * ni) == ri - ti * ai;
            let s2 = choose|s: int| #[trigger] (s * ni) == nri - nti * ai;
            assert((s1 - qi * s2) * ni == remi - t2 * ai) by (nonlinear_arith)
                requires
                    s1 * ni == ri - ti * ai,
                    s2 * ni == nri - nti * ai,
                    ri == nri * qi + remi,
                    t2 == ti - qi * nti,
            ;
        }
        t = new_t;
        new_t = t64 as i32;
        r = new_r;
        new_r = rem as i32;
    }

    if r > 1 {
        return None;
    }
    proof {
        assert(gcd_spec(r as int, 0) == r as int);
        assert(r == 1);
    }
    let ghost s1 = choose|s: int| #[trigger] (s * ni) == r as int - t as int * ai;
    if t < 0 {
        let ghost ti = t as int;
        let result = t + n;
        proof {
            assert(result as int * ai == ni * (ai - s1) + 1) by (nonlinear_arith)
                requires
                    s1 * ni == 1 - ti * ai,
                    result == ti + ni,
            ;
            lemma_mod_multiples_vanish(ai - s1, 1, ni);
        }
        Some(result)
    } else {
        let ghost ti = t as int;
        proof {
            assert(ti * ai == ni * (-s1) + 1) by (nonlinear_arith)
                requires
                    s1 * ni == 1 - ti * ai,
            ;
            lemma_mod_multiples_vanish(-s1, 1, ni);
            // `t` cannot reach `n`: that would make `n` divide 1 while `n >= 2`.
            if ti == ni && ni >= 2 {
                assert(ni * (ai + s1) == 1) by (nonlinear_arith)
                    requires
                        s1 * ni == 1 - ti * ai,
                        ti == ni,
                ;
                assert(false) by (nonlinear_arith)
                    requires
                        ni * (ai + s1) == 1,
                        ni >= 2,
                ;
            }
        }
        Some(t)
    }
}

/// One character encrypted with the affine key `(a, b)`: a letter at
/// alphabet position `x` moves to position `(a*x + b) mod 26`; non-letters
/// are unchanged.
pub open spec fn affine_enc_char(c: char, a: int, b: int) -> char {
    if is_letter(c) {
        (((a * letter_pos(c) + b) % 26) + letter_base(c)) as char
    } else {
        c
    }
}

/// A whole text encrypted with the affine key `(a, b)`, letter by letter.
pub open spec fn affine_enc_spec(s: Seq<char>, a: int, b: int) -> Seq<char> {
    s.map_values(|c: char| affine_enc_char(c, a, b))
}

/// One character decrypted with the inverse multiplier `t` and shift `b`: a
/// letter at position `y` moves back to position `t*(y - b) mod 26`;
/// non-letters are unchanged.
pub open spec fn affine_dec_char(c: char, t: int, b: int) -> char {
    if is_letter(c) {
        (((t * (letter_pos(c) - b + 26)) % 26) + letter_base(c)) as char
    } else {
        c
    }
}

/// A whole text decrypted with the inverse multiplier `t` and shift `b`.
pub open spec fn affine_dec_spec(s: Seq<char>, t: int, b: int) -> Seq<char> {
    s.map_values(|c: char| affine_dec_char(c, t, b))
}

/// One character encrypted with the affine key `(a, b)`.
fn affine_enc_letter(c: char, a: i32, b: i32) -> (r: char)
    requires
        0 <= a < 26,
        0 <= b < 26,
    ensures
        r == affine_enc_char(c, a as int, b as int),
{
    if is_letter_char(c) {
        let u = c as u32;
        let base: u32 = if 'A' <= c && c <= 'Z' {
            65
        } else {
            97
        };
        let x = u - base;
        assert(a as u32 * x <= 625) by (nonlinear_arith)
            requires
                0 <= a < 26,
                0 <= x <= 25,
        ;
        ((((a as u32) * x + (b as u32)) % 26 + base) as u8) as char
    } else {
        c
    }
}

/// One character decrypted with the inverse multiplier `t` and shift `b`.
fn affine_dec_letter(c: char, t: i32, b: i32) -> (r: char)
    requires
        0 <= t < 26,
        0 <= b < 26,
    ensures
        r == affine_dec_char(c, t as int, b as int),
{
    if is_letter_char(c) {
        let u = c as u32;
        let base: u32 = if 'A' <= c && c <= 'Z' {
            65
        } else {
            97
        };
        let y = (u - base) as i32;
        assert(t as int * (y - b + 26) <= 1275) by (nonlinear_arith)
            requires
                0 <= t < 26,
                1 <= y - b + 26 <= 51,
        ;
        assert(t as int * (y - b + 26) >= 0) by (nonlinear_arith)
            requires
                0 <= t,
                1 <= y - b + 26,
        ;
        (((t * (y - b + 26)) % 26 + base as i32) as u8) as char
    } else {
        c
    }
}

/// Affine encryption: maps every letter at position `x` to position
/// `(a*x + b) mod 26`. Fails exactly when `a` is not coprime with 26.
pub fn encrypt(plaintext: &str, a: i32, b: i32) -> (r: Result<String, SubstitutionError>)
    requires
        0 <= a < 26,
        0 <= b < 26,
    ensures
        gcd_spec(a as int, 26) == 1 ==> (r matches Ok(c) && c@ == affine_enc_spec(
            plaintext@,
            a as int,
            b as int,
        )),
        gcd_spec(a as int, 26) != 1 ==> (r matches Err(e) && e
            == SubstitutionError::KeyNotInvertible),
{
    if gcd(a, 26) != 1 {
        return Err(SubstitutionError::KeyNotInvertible);
    }
    let n = plaintext.unicode_len();
    let mut out = String::new();
    let mut i: usize = 0;
    while i < n
        invariant
            0 <= a < 26,
            0 <= b < 26,
            i <= n,
            n == plaintext@.len(),
            out@ == affine_enc_spec(plaintext@.take(i as int), a as int, b as int),
        decreases n - i,
    {
        let c = plaintext.get_char(i);
        out.push(affine_enc_letter(c, a, b));
        i = i + 1;
        assert(out@ =~= affine_enc_spec(plaintext@.take(i as int), a as int, b as int));
    }
    assert(plaintext@.take(n as int) =~= plaintext@);
    Ok(out)
}

/// Affine decryption: maps every letter at position `y` back to position
/// `a_inv * (y - b) mod 26`, where `a_inv` inverts `a` modulo 26. Fails
/// exactly when `a` is not coprime with 26.
pub fn decrypt(ciphertext: &str, a: i32, b: i32) -> (r: Result<String, SubstitutionError>)
    requires
        0 <= a < 26,
        0 <= b < 26,
    ensures
        gcd_spec(a as int, 26) == 1 ==> (r matches Ok(s) && exists|t: int|
            0 <= t < 26 && #[trigger] ((t * a as int) % 26) == 1 && s@ == affine_dec_spec(
                ciphertext@,
                t,
                b as int,
            )),
        gcd_spec(a as int, 26) != 1 ==> (r matches Err(e) && e
            == SubstitutionError::KeyNotInvertible),
{
    if gcd(a, 26) != 1 {
        return Err(SubstitutionError::KeyNotInvertible);
    }
    proof {
        lemma_small_mod(a as nat, 26);
        assert(gcd_spec(26, a as int) == gcd_spec(a as int, 26));
    }
    let a_inv = match inverse(a, 26) {
        Some(t) => t,
        None => {
            return Err(SubstitutionError::KeyNotInvertible);
        },
    };
    let n = ciphertext.unicode_len();
    let mut out = String::new();
    let mut i: usize = 0;
    while i < n
        invariant
            0 <= a_inv < 26,
            0 <= b < 26,
            i <= n,
            n == ciphertext@.len(),
            out@ == affine_dec_spec(ciphertext@.take(i as int), a_inv as int, b as int),
        decreases n - i,
    {
        let c = ciphertext.get_char(i);
        out.push(affine_dec_letter(c, a_inv, b));
        i = i + 1;
        assert(out@ =~= affine_dec_spec(ciphertext@.take(i as int), a_inv as int, b as int));
    }
    assert(ciphertext@.take(n as int) =~= ciphertext@);
    Ok(out)
}

/// Decrypting an affine encryption with the inverse multiplier restores the
/// text exactly: `t * (a*x + b - b)` is `x` modulo 26 whenever `t` inverts
/// `a`.
pub proof fn lemma_affine_round_trip(s: Seq<char>, a: int, b: int, t: int)
    requires
        0 <= a < 26,
        0 <= b < 26,
        0 <= t < 26,
        (t * a) % 26 == 1,
    ensures
        affine_dec_spec(affine_enc_spec(s, a, b), t, b) == s,
{
    assert forall|c: char| #[trigger] affine_dec_char(affine_enc_char(c, a, b), t, b) == c by {
        if is_letter(c) {
            let x = letter_pos(c);
            let y = (a * x + b) % 26;
            let d = affine_enc_char(c, a, b);
            assert(0 <= y < 26);
            assert(d as int == y + letter_base(c));
            assert(is_letter(d) && letter_base(d) == letter_base(c) && letter_pos(d) == y);
            let u = y - b + 26;
            assert(u % 26 == (a * x) % 26) by {
                lemma_mod_add_multiples_vanish(y - b, 26);
                lemma_small_mod(b as nat, 26);
                lemma_sub_mod_noop(a * x + b, b, 26);
                lemma_small_mod(y as nat, 26);
            }
            assert((t * u) % 26 == (t * (a * x)) % 26) by {
                lemma_mul_mod_noop_right(t, u, 26);
                lemma_mul_mod_noop_right(t, a * x, 26);
            }
            assert((t * (a * x)) % 26 == x) by {
                lemma_mul_is_associative(t, a, x);
                lemma_mul_mod_noop_left(t * a, x, 26);
                assert(((t * a) % 26) * x == 1 * x);
                lemma_small_mod(x as nat, 26);
            }
            assert(affine_dec_char(d, t, b) as int == x + letter_base(c));
            assert(affine_dec_char(d, t, b) == c);
        }
    }
    assert(affine_dec_spec(affine_enc_spec(s, a, b), t, b) =~= s);
}

} // verus!
