//! Conversions between strings, character vectors and byte vectors, stated
//! over vstd's UTF-8 model (`encode_utf8`, `decode_utf8`, `valid_utf8`).

use vstd::prelude::*;
use vstd::string::StrSliceExecFns;
use vstd::utf8::decode_utf8;
use vstd::utf8::valid_utf8;

verus! {

/// The characters of `s`, in order, as a vector.
pub fn string_to_chars(s: &str) -> (r: Vec<char>)
    ensures
        r@ == s@,
{
    let n: usize = s.unicode_len();
    let mut out: Vec<char> = Vec::new();
    let mut i: usize = 0;
    while i < n
        invariant
            n == s@.len(),
            i <= n,
            out@ == s@.subrange(0, i as int),
        decreases n - i,
    {
        let c = s.get_char(i);
        out.push(c);
        i = i + 1;
        proof {
            assert(out@ =~= s@.subrange(0, i as int));
        }
    }
    proof {
        assert(out@ =~= s@);
    }
    out
}

/// Relies on `String::push`: it appends exactly one character at the end of
/// the string.
#[verifier::external_body]
pub(crate) fn push_char(s: &mut String, c: char)
    ensures
        final(s)@ == old(s)@.push(c),
{
    s.push(c);
}

/// The string holding exactly the characters of `v`, in order.
pub fn chars_to_string(v: &Vec<char>) -> (r: String)
    ensures
        r@ == v@,
{
    let mut out = String::new();
    let mut i: usize = 0;
    while i < v.len()
        invariant
            i <= v@.len(),
            out@ == v@.subrange(0, i as int),
        decreases v@.len() - i,
    {
        push_char(&mut out, v[i]);
        i = i + 1;
        proof {
            assert(out@ =~= v@.subrange(0, i as int));
        }
    }
    proof {
        assert(out@ =~= v@);
    }
    out
}

/// Relies on `String::from_utf8`: it succeeds exactly when the bytes are a
/// valid UTF-8 encoding, and then returns the string of the characters those
/// bytes encode.
#[verifier::external_body]
pub(crate) fn bytes_to_string(bytes: Vec<u8>) -> (r: Option<String>)
    ensures
        r is Some <==> valid_utf8(bytes@),
        r matches Some(s) ==> s@ == decode_utf8(bytes@),
{
    match String::from_utf8(bytes) {
        Ok(s) => Some(s),
        Err(_) => None,
    }
}

/// The string whose characters are the given ASCII bytes, one character per
/// byte.
pub fn ascii_bytes_to_string(v: &Vec<u8>) -> (r: String)
    requires
        forall|i: int| 0 <= i < v@.len() ==> v@[i] < 0x80,
    ensures
        r@.len() == v@.len(),
        forall|i: int| 0 <= i < v@.len() ==> r@[i] == v@[i] as char,
{
    let mut chars: Vec<char> = Vec::new();
    let mut i: usize = 0;
    while i < v.len()
        invariant
            i <= v@.len(),
            forall|j: int| 0 <= j < v@.len() ==> v@[j] < 0x80,
            chars@.len() == i,
            forall|j: int| 0 <= j < i ==> chars@[j] == v@[j] as char,
        decreases v@.len() - i,
    {
        let b: u8 = v[i];
        chars.push(b as char);
        i = i + 1;
    }
    chars_to_string(&chars)
}

} // verus!
