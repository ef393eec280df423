//! What counts as a name and as a token.

use vstd::prelude::*;
use vstd::string::{is_ascii, is_ascii_spec_bytes, StringSliceAdditionalSpecFns};

verus! {

/// An ASCII letter.
pub open spec fn is_ascii_letter(c: char) -> bool {
    ('a' <= c && c <= 'z') || ('A' <= c && c <= 'Z')
}

/// An ASCII letter or digit.
pub open spec fn is_ascii_letter_or_digit(c: char) -> bool {
    is_ascii_letter(c) || ('0' <= c && c <= '9')
}

/// A valid name: one or more ASCII letters.
pub open spec fn name_ok(s: Seq<char>) -> bool {
    s.len() > 0 && forall|i: int| 0 <= i < s.len() ==> is_ascii_letter(#[trigger] s[i])
}

/// A valid token: one or more ASCII letters or digits.
pub open spec fn token_ok(s: Seq<char>) -> bool {
    s.len() > 0 && forall|i: int| 0 <= i < s.len() ==> is_ascii_letter_or_digit(#[trigger] s[i])
}

/// Whether every character of an ASCII string passes, checked on its bytes.
fn all_ascii_bytes(s: &str, digits: bool) -> (out: bool)
    requires
        is_ascii(s),
    ensures
        out == (forall|i: int|
            0 <= i < s@.len() ==> (if digits {
                is_ascii_letter_or_digit(#[trigger] s@[i])
            } else {
                is_ascii_letter(s@[i])
            })),
{
    proof { is_ascii_spec_bytes(s); }
    let b = s.as_bytes();
    let mut i: usize = 0;
    while i < b.len()
        invariant
            i <= b@.len(),
            b@.len() == s@.len(),
            forall|k: int| 0 <= k < b@.len() ==> b@[k] == #[trigger] s@[k] as u8,
            is_ascii(s),
            forall|k: int|
                0 <= k < i ==> (if digits {
                    is_ascii_letter_or_digit(#[trigger] s@[k])
                } else {
                    is_ascii_letter(s@[k])
                }),
        decreases b@.len() - i,
    {
        let c = b[i];
        let ghost ch = s@[i as int];
        assert(ch as u32 <= 0x7f);
        assert(c as u32 == ch as u32);
        let letter = (65 <= c && c <= 90) || (97 <= c && c <= 122);
        let ok = letter || (digits && 48 <= c && c <= 57);
        if !ok {
            return false;
        }
        i = i + 1;
    }
    true
}

/// A name: one or more ASCII letters.
pub fn is_valid_name(s: &str) -> (out: bool)
    ensures
        out == name_ok(s@),
{
    if s.is_empty() {
        return false;
    }
    if !s.is_ascii() {
        proof {
            let k = choose|k: int| 0 <= k < s@.len() && !('\0' <= #[trigger] s@[k] <= '\u{7f}');
            assert(!is_ascii_letter(s@[k]));
        }
        return false;
    }
    all_ascii_bytes(s, false)
}

/// A token: one or more ASCII letters or digits.
pub fn is_valid_token(s: &str) -> (out: bool)
    ensures
        out == token_ok(s@),
{
    if s.is_empty() {
        return false;
    }
    if !s.is_ascii() {
        proof {
            let k = choose|k: int| 0 <= k < s@.len() && !('\0' <= #[trigger] s@[k] <= '\u{7f}');
            assert(!is_ascii_letter_or_digit(s@[k]));
        }
        return false;
    }
    all_ascii_bytes(s, true)
}

} // verus!
