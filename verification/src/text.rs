//! Text helpers over `std`: UTF-8 validation and ASCII case folding.

use vstd::prelude::*;
use vstd::string::StringSliceAdditionalSpecFns;
use vstd::utf8::{decode_utf8, encode_utf8, valid_utf8};

verus! {

/// `std::str::from_utf8`: succeeds exactly when the bytes are valid UTF-8,
/// and then gives the string made of exactly those bytes.
#[verifier::external_body]
pub(crate) fn str_from_utf8(b: &[u8]) -> (r: Option<&str>)
    ensures
        r is Some <==> valid_utf8(b@),
        r matches Some(s) ==> s.spec_bytes() == b@,
{
    match std::str::from_utf8(b) {
        Ok(s) => Some(s),
        Err(_) => None,
    }
}

/// Decodes valid UTF-8 into an owned `String`.
pub fn utf8_to_string(b: &[u8]) -> (r: Option<String>)
    ensures
        r is Some <==> valid_utf8(b@),
        r matches Some(s) ==> s@ == decode_utf8(b@),
{
    match str_from_utf8(b) {
        None => None,
        Some(s) => {
            proof {
                vstd::utf8::encode_utf8_decode_utf8(s@);
            }
            let owned = s.to_string();
            proof {
                vstd::string::to_string_from_display_ensures_for_str(s, owned);
            }
            Some(owned)
        },
    }
}

/// The ASCII upper-case form of a byte (other bytes are unchanged).
pub open spec fn ascii_upper(c: u8) -> u8 {
    if 97 <= c <= 122 {
        (c - 32) as u8
    } else {
        c
    }
}

/// Byte-wise ASCII upper-casing, as `str::to_ascii_uppercase` does it.
pub open spec fn ascii_upper_seq(b: Seq<u8>) -> Seq<u8> {
    b.map_values(|c: u8| ascii_upper(c))
}

/// `a` and `b` are equal ignoring ASCII case (`eq_ignore_ascii_case`).
pub open spec fn eq_ignore_case(a: Seq<u8>, b: Seq<u8>) -> bool {
    ascii_upper_seq(a) == ascii_upper_seq(b)
}

/// `str::to_ascii_uppercase`: the string with `a`..`z` mapped to `A`..`Z`,
/// every other byte kept.
#[verifier::external_body]
pub(crate) fn str_to_ascii_uppercase(s: &str) -> (r: String)
    ensures
        encode_utf8(r@) == ascii_upper_seq(s.spec_bytes()),
{
    s.to_ascii_uppercase()
}

/// Byte-wise equality of two slices.
pub fn bytes_eq(a: &[u8], b: &[u8]) -> (r: bool)
    ensures
        r == (a@ == b@),
{
    if a.len() != b.len() {
        return false;
    }
    let mut i: usize = 0;
    while i < a.len()
        invariant
            a@.len() == b@.len(),
            i <= a@.len(),
            forall|j: int| 0 <= j < i ==> a@[j] == b@[j],
        decreases a.len() - i,
    {
        if a[i] != b[i] {
            return false;
        }
        i = i + 1;
    }
    assert(a@ =~= b@);
    true
}

/// `eq_ignore_ascii_case` on byte strings: same length, and equal byte by
/// byte once ASCII letters are upper-cased.
pub fn eq_ignore_ascii_case(a: &[u8], b: &[u8]) -> (r: bool)
    ensures
        r == eq_ignore_case(a@, b@),
{
    if a.len() != b.len() {
        proof {
            assert(ascii_upper_seq(a@).len() != ascii_upper_seq(b@).len());
        }
        return false;
    }
    let mut i: usize = 0;
    while i < a.len()
        invariant
            a@.len() == b@.len(),
            i <= a@.len(),
            forall|j: int| 0 <= j < i ==> ascii_upper(a@[j]) == ascii_upper(b@[j]),
        decreases a.len() - i,
    {
        let x = if 97 <= a[i] && a[i] <= 122 { a[i] - 32 } else { a[i] };
        let y = if 97 <= b[i] && b[i] <= 122 { b[i] - 32 } else { b[i] };
        if x != y {
            proof {
                assert(ascii_upper_seq(a@)[i as int] != ascii_upper_seq(b@)[i as int]);
            }
            return false;
        }
        i = i + 1;
    }
    assert(ascii_upper_seq(a@) =~= ascii_upper_seq(b@));
    true
}

} // verus!
