//! The XOR stream tool's text handling: normalising a plaintext to lowercase
//! letters and spaces, and XOR-ing a text with a repeating-line key character
//! by character.

use vstd::prelude::*;
use vstd::string::StrSliceExecFns;

use crate::alphabet::{is_letter, is_letter_char, is_upper, is_upper_char};

verus! {

/// The command-line switches of the XOR stream tool.
#[derive(Debug, Clone, Copy, PartialEq, Eq, Structural)]
pub struct Args {
    /// Prepare the original plaintext.
    pub prepare: bool,
    /// Encryption mode.
    pub encrypt: bool,
    /// Ciphertext cryptanalysis.
    pub cryptanalysis: bool,
}

/// Whether a character survives the cleanup: an ASCII letter or a space.
pub open spec fn keep_char(c: char) -> bool {
    is_letter(c) || c == ' '
}

/// The lowercase form of an ASCII character: uppercase letters move down by
/// 32, everything else is unchanged.
pub open spec fn to_lower(c: char) -> char {
    if is_upper(c) {
        (c as int + 32) as char
    } else {
        c
    }
}

/// The cleaned-up text: only ASCII letters and spaces survive, letters in
/// lowercase.
pub open spec fn cleanup_spec(s: Seq<char>) -> Seq<char>
    decreases s.len(),
{
    if s.len() == 0 {
        Seq::empty()
    } else {
        let rest = cleanup_spec(s.drop_last());
        if keep_char(s.last()) {
            rest.push(to_lower(s.last()))
        } else {
            rest
        }
    }
}

/// Keeps only ASCII letters and spaces, lowercasing the letters.
pub fn text_cleanup(input: String) -> (r: String)
    ensures
        r@ == cleanup_spec(input@),
{
    let text = input.as_str();
    let n = text.unicode_len();
    let mut out = String::new();
    let mut i: usize = 0;
    while i < n
        invariant
            i <= n,
            n == text@.len(),
            text@ == input@,
            out@ == cleanup_spec(text@.take(i as int)),
        decreases n - i,
    {
        let c = text.get_char(i);
        if is_letter_char(c) || c == ' ' {
            if is_upper_char(c) {
                let l = ((c as u32 + 32) as u8) as char;
                out.push(l);
            } else {
                out.push(c);
            }
        }
        i = i + 1;
        assert(text@.take(i as int).drop_last() =~= text@.take(i - 1));
        assert(text@.take(i as int).last() == text@[i - 1]);
    }
    assert(text@.take(n as int) =~= text@);
    out
}

/// One XOR-combined character: the low bytes of the two characters, XOR-ed
/// and read back as a character.
pub open spec fn xor_char(a: char, b: char) -> char {
    ((((a as u32) % 256) as u8) ^ (((b as u32) % 256) as u8)) as char
}

/// The XOR stream of a text and a key, stopping at the shorter of the two.
pub open spec fn stream_spec(t: Seq<char>, k: Seq<char>) -> Seq<char> {
    Seq::new(
        if t.len() <= k.len() {
            t.len()
        } else {
            k.len()
        },
        |i: int| xor_char(t[i], k[i]),
    )
}

/// XOR-combines `text` with `key` character by character, stopping at the
/// shorter of the two.
pub fn stream(text: &str, key: &str) -> (r: String)
    ensures
        r@ == stream_spec(text@, key@),
{
    let tn = text.unicode_len();
    let kn = key.unicode_len();
    let n = if tn <= kn {
        tn
    } else {
        kn
    };
    let mut out = String::new();
    let mut i: usize = 0;
    while i < n
        invariant
            i <= n,
            tn == text@.len(),
            kn == key@.len(),
            n == stream_spec(text@, key@).len(),
            n <= tn && n <= kn,
            out@ == stream_spec(text@, key@).take(i as int),
        decreases n - i,
    {
        let t8 = ((text.get_char(i) as u32) % 256) as u8;
        let k8 = ((key.get_char(i) as u32) % 256) as u8;
        out.push((t8 ^ k8) as char);
        i = i + 1;
        assert(out@ =~= stream_spec(text@, key@).take(i as int));
    }
    assert(stream_spec(text@, key@).take(n as int) =~= stream_spec(text@, key@));
    out
}

} // verus!
