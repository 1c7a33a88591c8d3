//! Endpoint codec: a reversible percent-encoding that turns an endpoint path
//! into a storage-safe key.
//!
//! Escaped are all ASCII control characters, space, `"`, `<`, `>`, backtick,
//! DEL and every non-ASCII byte of the path's UTF-8 encoding; everything
//! else, `/` and `%` included, passes through unchanged.  Decoding replaces
//! each `%` followed by two hexadecimal digits by the byte they name, leaves
//! any other `%` alone, and fails exactly when the resulting bytes are not
//! valid UTF-8.

use vstd::prelude::*;
use vstd::string::StrSliceExecFns;
use vstd::utf8::decode_utf8;
use vstd::utf8::encode_utf8;
use vstd::utf8::valid_utf8;

use crate::errors::DecodeError;
use crate::text::ascii_bytes_to_string;
use crate::text::bytes_to_string;

verus! {

/// True for bytes the codec escapes: ASCII controls and space, `"`, `<`,
/// `>`, backtick, DEL and all non-ASCII bytes.
pub open spec fn is_escaped_byte(b: u8) -> bool {
    b <= 0x20 || b == 0x22 || b == 0x3c || b == 0x3e || b == 0x60 || b >= 0x7f
}

/// The same safety condition on a character of an encoded key: never a
/// control character (0x00-0x1f), space (0x20), `"` (0x22), `<` (0x3c),
/// `>` (0x3e), backtick (0x60), nor DEL or anything beyond ASCII (0x7f on).
pub open spec fn is_escaped_char(c: char) -> bool {
    c as u32 <= 0x20 || c as u32 == 0x22 || c as u32 == 0x3c || c as u32 == 0x3e || c as u32
        == 0x60 || c as u32 >= 0x7f
}

/// Uppercase hexadecimal digit of a value below 16.
pub open spec fn hex_digit(v: u8) -> u8
    recommends
        v < 16,
{
    if v < 10 {
        (0x30 + v) as u8
    } else {
        (0x41 + (v - 10)) as u8
    }
}

/// The key bytes one path byte contributes: itself, or `%` and two digits.
pub open spec fn escape_byte(b: u8) -> Seq<u8> {
    if is_escaped_byte(b) {
        seq![0x25u8, hex_digit(b / 16), hex_digit(b % 16)]
    } else {
        seq![b]
    }
}

/// Percent-encoding of a byte sequence.
pub open spec fn encode_bytes(s: Seq<u8>) -> Seq<u8>
    decreases s.len(),
{
    if s.len() == 0 {
        seq![]
    } else {
        escape_byte(s[0]) + encode_bytes(s.drop_first())
    }
}

/// True for the ASCII codes of hexadecimal digits, either case.
pub open spec fn is_hex_byte(b: u8) -> bool {
    0x30 <= b <= 0x39 || 0x41 <= b <= 0x46 || 0x61 <= b <= 0x66
}

/// The value of a hexadecimal digit byte.
pub open spec fn hex_value(b: u8) -> u8
    recommends
        is_hex_byte(b),
{
    if 0x30 <= b <= 0x39 {
        (b - 0x30) as u8
    } else if 0x41 <= b <= 0x46 {
        (b - 0x41 + 10) as u8
    } else {
        (b - 0x61 + 10) as u8
    }
}

/// Percent-decoding of a byte sequence: `%` followed by two hexadecimal
/// digits yields the byte they name; any other byte, a stray `%` included,
/// passes through unchanged.
pub open spec fn decode_bytes(s: Seq<u8>) -> Seq<u8>
    decreases s.len(),
{
    if s.len() == 0 {
        seq![]
    } else if s[0] == 0x25 && s.len() >= 3 && is_hex_byte(s[1]) && is_hex_byte(s[2]) {
        seq![(hex_value(s[1]) * 16 + hex_value(s[2])) as u8] + decode_bytes(s.skip(3))
    } else {
        seq![s[0]] + decode_bytes(s.drop_first())
    }
}

/// True when no `%` in the sequence starts a well-formed escape; encoding
/// such a sequence is then reversible.
pub open spec fn percent_free(s: Seq<u8>) -> bool {
    forall|i: int|
        0 <= i && i + 2 < s.len() && #[trigger] s[i] == 0x25 ==> !(is_hex_byte(s[i + 1])
            && is_hex_byte(s[i + 2]))
}

/// The legal alias character set: paths whose UTF-8 bytes contain no
/// percent escape, so that encoding them is reversible.
pub open spec fn legal_alias(path: Seq<char>) -> bool {
    percent_free(encode_utf8(path))
}

/// The storage key [`encode`] produces for a path.
pub open spec fn encoded_key(path: Seq<char>) -> Seq<char> {
    decode_utf8(encode_bytes(encode_utf8(path)))
}

proof fn lemma_hex_round(v: u8)
    requires
        v < 16,
    ensures
        is_hex_byte(hex_digit(v)),
        hex_value(hex_digit(v)) == v,
        !is_escaped_byte(hex_digit(v)),
        hex_digit(v) != 0x25,
{
}

/// Every byte of an encoded key is outside the escaped set: no control
/// character, space, `"`, `<`, `>`, backtick, DEL or non-ASCII byte.
pub proof fn lemma_encode_bytes_safe(s: Seq<u8>)
    ensures
        forall|j: int|
            0 <= j < encode_bytes(s).len() ==> !is_escaped_byte(#[trigger] encode_bytes(s)[j]),
    decreases s.len(),
{
    if s.len() > 0 {
        lemma_encode_bytes_safe(s.drop_first());
        if is_escaped_byte(s[0]) {
            lemma_hex_round(s[0] / 16);
            lemma_hex_round(s[0] % 16);
        }
        assert forall|j: int|
            0 <= j < encode_bytes(s).len() implies !is_escaped_byte(
            #[trigger] encode_bytes(s)[j],
        ) by {
            let e = escape_byte(s[0]);
            if j >= e.len() {
                assert(encode_bytes(s)[j] == encode_bytes(s.drop_first())[j - e.len()]);
            }
        }
    }
}

/// An encoded key is ASCII, hence valid UTF-8.
pub proof fn lemma_encode_bytes_utf8(s: Seq<u8>)
    ensures
        valid_utf8(encode_bytes(s)),
{
    lemma_encode_bytes_safe(s);
    let t = encode_bytes(s);
    assert(t.subrange(0, 0) =~= Seq::<u8>::empty());
    assert(vstd::utf8::partial_valid_utf8(t, 0));
    assert forall|i: int| 0 <= i < t.len() implies #[trigger] vstd::utf8::is_leading_byte_width_1(
        t[i],
    ) by {
        assert(!is_escaped_byte(t[i]));
    }
    vstd::utf8::partial_valid_utf8_extend_ascii_block(t, 0, t.len() as int);
    assert(t.subrange(0, t.len() as int) =~= t);
}

proof fn lemma_percent_free_drop(s: Seq<u8>)
    requires
        percent_free(s),
        s.len() > 0,
    ensures
        percent_free(s.drop_first()),
{
    let t = s.drop_first();
    assert forall|i: int|
        0 <= i && i + 2 < t.len() && #[trigger] t[i] == 0x25 implies !(is_hex_byte(t[i + 1])
        && is_hex_byte(t[i + 2])) by {
        assert(t[i] == s[i + 1]);
        assert(t[i + 1] == s[i + 2]);
        assert(t[i + 2] == s[i + 3]);
    }
}

/// Decoding inverts encoding on every percent-free byte sequence.
pub proof fn lemma_decode_encode(s: Seq<u8>)
    requires
        percent_free(s),
    ensures
        decode_bytes(encode_bytes(s)) == s,
    decreases s.len(),
{
    if s.len() == 0 {
        assert(decode_bytes(encode_bytes(s)) =~= s);
    } else {
        let b = s[0];
        let rest = s.drop_first();
        let t = encode_bytes(s);
        lemma_percent_free_drop(s);
        lemma_decode_encode(rest);
        if is_escaped_byte(b) {
            lemma_hex_round(b / 16);
            lemma_hex_round(b % 16);
            assert(t[0] == 0x25 && t[1] == hex_digit(b / 16) && t[2] == hex_digit(b % 16));
            assert(t.len() >= 3);
            assert(hex_value(t[1]) * 16 + hex_value(t[2]) == (b / 16) * 16 + b % 16);
            assert((b / 16) * 16 + b % 16 == b);
            assert(t.skip(3) =~= encode_bytes(rest));
            assert(decode_bytes(t) =~= s);
        } else if b != 0x25 {
            assert(t[0] == b);
            assert(t.drop_first() =~= encode_bytes(rest));
            assert(decode_bytes(t) =~= s);
        } else {
            // A literal '%': the decoder must not see two hexadecimal digits
            // after it.  Whatever follows is either another escape (whose
            // '%' is not a digit) or literal bytes, which `percent_free`
            // keeps from forming a digit pair.
            assert(t[0] == 0x25);
            if rest.len() == 0 {
                assert(t.len() == 1);
            } else {
                let e1 = escape_byte(rest[0]);
                assert(encode_bytes(rest) == e1 + encode_bytes(rest.drop_first()));
                assert(t[1] == e1[0]);
                if is_escaped_byte(rest[0]) {
                    assert(t[1] == 0x25);
                    assert(!is_hex_byte(t[1]));
                } else {
                    assert(t[1] == rest[0]);
                    if is_hex_byte(rest[0]) {
                        if rest.len() == 1 {
                            assert(encode_bytes(rest.drop_first()) =~= Seq::<u8>::empty());
                            assert(t.len() == 2);
                        } else {
                            let rest2 = rest.drop_first();
                            let e2 = escape_byte(rest2[0]);
                            assert(encode_bytes(rest2) == e2 + encode_bytes(rest2.drop_first()));
                            assert(t[2] == e2[0]);
                            if is_escaped_byte(rest2[0]) {
                                assert(t[2] == 0x25);
                                assert(!is_hex_byte(t[2]));
                            } else {
                                assert(t[2] == rest2[0]);
                                assert(s[1] == rest[0] && s[2] == rest2[0]);
                                assert(!(is_hex_byte(s[1]) && is_hex_byte(s[2])));
                                assert(!is_hex_byte(t[2]));
                            }
                        }
                    }
                }
            }
            assert(t.drop_first() =~= encode_bytes(rest));
            assert(decode_bytes(t) =~= s);
        }
    }
}

/// Round-trip law: encoding a path drawn from the legal alias character set
/// and decoding the resulting key recovers exactly the original path.
pub proof fn lemma_codec_round_trip(path: Seq<char>)
    requires
        legal_alias(path),
    ensures
        decode_bytes(encode_bytes(encode_utf8(path))) == encode_utf8(path),
        valid_utf8(decode_bytes(encode_bytes(encode_utf8(path)))),
        decode_utf8(decode_bytes(encode_bytes(encode_utf8(path)))) == path,
{
    lemma_decode_encode(encode_utf8(path));
    broadcast use vstd::utf8::encode_utf8_valid_utf8, vstd::utf8::encode_utf8_decode_utf8;

}

proof fn lemma_encode_utf8_no_percent(path: Seq<char>)
    requires
        forall|i: int| 0 <= i < path.len() ==> path[i] != '%',
    ensures
        forall|j: int| 0 <= j < encode_utf8(path).len() ==> #[trigger] encode_utf8(path)[j] != 0x25,
    decreases path.len(),
{
    broadcast use vstd::utf8::char_is_scalar, vstd::utf8::char_u32_cast;

    if path.len() > 0 {
        lemma_encode_utf8_no_percent(path.drop_first());
        let c = path[0] as u32;
        let e = vstd::utf8::encode_scalar(c);
        assert forall|j: int| 0 <= j < e.len() implies #[trigger] e[j] != 0x25 by {
            if vstd::utf8::has_width_1_encoding(c) {
                assert(e[0] == vstd::utf8::leading_byte_width_1(c));
                assert(c < 0x80 ==> vstd::utf8::leading_byte_width_1(c) == c) by (bit_vector);
                if e[0] == 0x25 {
                    assert(c == 0x25);
                    assert('%' as u32 == 0x25);
                    vstd::utf8::char_u32_cast(path[0], 0x25);
                    vstd::utf8::char_u32_cast('%', 0x25);
                    assert(path[0] == '%');
                }
            } else {
                assert(vstd::utf8::leading_byte_width_2(c) >= 0xc0) by (bit_vector);
                assert(vstd::utf8::leading_byte_width_3(c) >= 0xe0) by (bit_vector);
                assert(vstd::utf8::leading_byte_width_4(c) >= 0xf0) by (bit_vector);
                assert(vstd::utf8::last_continuation_byte(c) >= 0x80) by (bit_vector);
                assert(vstd::utf8::second_last_continuation_byte(c) >= 0x80) by (bit_vector);
                assert(vstd::utf8::third_last_continuation_byte(c) >= 0x80) by (bit_vector);
            }
        }
        assert forall|j: int|
            0 <= j < encode_utf8(path).len() implies #[trigger] encode_utf8(path)[j]
            != 0x25 by {
            if j >= e.len() {
                assert(encode_utf8(path)[j] == encode_utf8(path.drop_first())[j - e.len()]);
            }
        }
    }
}

/// A path containing no `%` at all lies in the legal alias character set.
pub proof fn lemma_no_percent_legal(path: Seq<char>)
    requires
        forall|i: int| 0 <= i < path.len() ==> path[i] != '%',
    ensures
        legal_alias(path),
{
    lemma_encode_utf8_no_percent(path);
}

fn hex_digit_exec(v: u8) -> (r: u8)
    requires
        v < 16,
    ensures
        r == hex_digit(v),
{
    if v < 10 {
        0x30 + v
    } else {
        0x41 + (v - 10)
    }
}

fn is_hex_byte_exec(b: u8) -> (r: bool)
    ensures
        r == is_hex_byte(b),
{
    (0x30 <= b && b <= 0x39) || (0x41 <= b && b <= 0x46) || (0x61 <= b && b <= 0x66)
}

fn is_escaped_byte_exec(b: u8) -> (r: bool)
    ensures
        r == is_escaped_byte(b),
{
    b <= 0x20 || b == 0x22 || b == 0x3c || b == 0x3e || b == 0x60 || b >= 0x7f
}

proof fn lemma_encode_bytes_append(s: Seq<u8>, b: u8)
    ensures
        encode_bytes(s.push(b)) == encode_bytes(s) + escape_byte(b),
    decreases s.len(),
{
    if s.len() == 0 {
        assert(s.push(b)[0] == b);
        assert(encode_bytes(s.push(b)) == escape_byte(b) + encode_bytes(s.push(b).drop_first()));
        assert(s.push(b).drop_first() =~= Seq::<u8>::empty());
        assert(encode_bytes(Seq::<u8>::empty()) == Seq::<u8>::empty());
        assert(encode_bytes(s) == Seq::<u8>::empty());
        assert(encode_bytes(s.push(b)) =~= encode_bytes(s) + escape_byte(b));
    } else {
        lemma_encode_bytes_append(s.drop_first(), b);
        assert(s.push(b).len() > 0);
        assert(s.push(b)[0] == s[0]);
        assert(s.push(b).drop_first() =~= s.drop_first().push(b));
        assert(encode_bytes(s.push(b)) == escape_byte(s[0]) + encode_bytes(s.drop_first().push(b)));
        assert(encode_bytes(s.push(b)) =~= encode_bytes(s) + escape_byte(b));
    }
}

/// Percent-encode an endpoint path into a storage-safe key.
///
/// The result's UTF-8 bytes are exactly the percent-encoding of the path's
/// UTF-8 bytes, and no character of the result is in the escaped set.
pub fn encode(path: &str) -> (r: String)
    ensures
        encode_utf8(r@) == encode_bytes(encode_utf8(path@)),
        r@ == encoded_key(path@),
        forall|i: int| 0 <= i < r@.len() ==> !is_escaped_char(#[trigger] r@[i]),
{
    let bytes: Vec<u8> = path.as_bytes_vec();
    let mut out: Vec<u8> = Vec::new();
    let mut i: usize = 0;
    while i < bytes.len()
        invariant
            i <= bytes@.len(),
            out@ == encode_bytes(bytes@.subrange(0, i as int)),
        decreases bytes@.len() - i,
    {
        let b: u8 = bytes[i];
        if is_escaped_byte_exec(b) {
            out.push(0x25);
            out.push(hex_digit_exec(b / 16));
            out.push(hex_digit_exec(b % 16));
        } else {
            out.push(b);
        }
        proof {
            lemma_encode_bytes_append(bytes@.subrange(0, i as int), b);
            assert(bytes@.subrange(0, i as int).push(b) =~= bytes@.subrange(0, i + 1 as int));
            assert(out@ =~= encode_bytes(bytes@.subrange(0, i + 1 as int)));
        }
        i = i + 1;
    }
    proof {
        assert(bytes@.subrange(0, bytes@.len() as int) =~= bytes@);
        lemma_encode_bytes_safe(bytes@);
    }
    let r = ascii_bytes_to_string(&out);
    proof {
        broadcast use vstd::utf8::is_ascii_chars_encode_utf8;

        assert forall|j: int| 0 <= j < r@.len() implies '\0' <= #[trigger] r@[j] <= '\u{7f}' by {
            assert(r@[j] == out@[j] as char);
        }
        assert(vstd::utf8::is_ascii_chars(r@));
        assert(encode_utf8(r@) =~= out@) by {
            assert forall|j: int| 0 <= j < r@.len() implies #[trigger] encode_utf8(r@)[j]
                == out@[j] by {
                assert(encode_utf8(r@)[j] == r@[j] as u8);
                assert(r@[j] == out@[j] as char);
            }
        }
        assert forall|j: int| 0 <= j < r@.len() implies !is_escaped_char(#[trigger] r@[j]) by {
            assert(r@[j] as u32 == out@[j]);
            assert(!is_escaped_byte(out@[j]));
        }
        broadcast use vstd::utf8::encode_utf8_decode_utf8;

        assert(r@ == encoded_key(path@));
    }
    r
}

/// Decode a storage key back to the endpoint path it encodes.
///
/// Succeeds exactly when the percent-decoded bytes of the key are valid
/// UTF-8, and then returns the path those bytes encode; otherwise the key is
/// corrupt and a `DecodeError` is returned.
pub fn decode(key: &str) -> (r: Result<String, DecodeError>)
    ensures
        r is Ok <==> valid_utf8(decode_bytes(encode_utf8(key@))),
        r matches Ok(path) ==> encode_utf8(path@) == decode_bytes(encode_utf8(key@)),
        r matches Ok(path) ==> path@ == decode_utf8(decode_bytes(encode_utf8(key@))),
{
    let bytes: Vec<u8> = key.as_bytes_vec();
    let mut out: Vec<u8> = Vec::new();
    let mut i: usize = 0;
    proof {
        assert(bytes@.skip(0) =~= bytes@);
        assert(out@ + decode_bytes(bytes@) =~= decode_bytes(bytes@));
    }
    while i < bytes.len()
        invariant
            i <= bytes@.len(),
            decode_bytes(bytes@) == out@ + decode_bytes(bytes@.skip(i as int)),
        decreases bytes@.len() - i,
    {
        let ghost suffix = bytes@.skip(i as int);
        let b: u8 = bytes[i];
        proof {
            assert(suffix[0] == b);
            assert(suffix.len() == bytes@.len() - i);
        }
        if b == 0x25 && bytes.len() - i >= 3 && is_hex_byte_exec(bytes[i + 1]) && is_hex_byte_exec(
            bytes[i + 2],
        ) {
            let hi: u8 = hex_value_exec(bytes[i + 1]);
            let lo: u8 = hex_value_exec(bytes[i + 2]);
            out.push(hi * 16 + lo);
            proof {
                assert(suffix[1] == bytes@[i + 1] && suffix[2] == bytes@[i + 2]);
                assert(suffix.skip(3) =~= bytes@.skip(i + 3 as int));
                assert(decode_bytes(suffix) == seq![
                    (hex_value(suffix[1]) * 16 + hex_value(suffix[2])) as u8,
                ] + decode_bytes(bytes@.skip(i + 3 as int)));
                assert(out@ + decode_bytes(bytes@.skip(i + 3 as int)) =~= decode_bytes(bytes@));
            }
            i = i + 3;
        } else {
            out.push(b);
            proof {
                if suffix.len() >= 3 {
                    assert(suffix[1] == bytes@[i + 1] && suffix[2] == bytes@[i + 2]);
                }
                assert(suffix.drop_first() =~= bytes@.skip(i + 1 as int));
                assert(decode_bytes(suffix) == seq![b] + decode_bytes(bytes@.skip(i + 1 as int)));
                assert(out@ + decode_bytes(bytes@.skip(i + 1 as int)) =~= decode_bytes(bytes@));
            }
            i = i + 1;
        }
    }
    proof {
        assert(bytes@.skip(bytes@.len() as int) =~= Seq::<u8>::empty());
        assert(out@ =~= decode_bytes(bytes@));
    }
    match bytes_to_string(out) {
        Some(path) => {
            proof {
                broadcast use vstd::utf8::decode_utf8_encode_utf8;

            }
            Ok(path)
        },
        None => Err(DecodeError),
    }
}

fn hex_value_exec(b: u8) -> (r: u8)
    requires
        is_hex_byte(b),
    ensures
        r == hex_value(b),
{
    if 0x30 <= b && b <= 0x39 {
        b - 0x30
    } else if 0x41 <= b && b <= 0x46 {
        b - 0x41 + 10
    } else {
        b - 0x61 + 10
    }
}

/// Percent-encode an endpoint path; equivalent to [`encode`].
pub fn encode_url(url: &String) -> (r: String)
    ensures
        encode_utf8(r@) == encode_bytes(encode_utf8(url@)),
        r@ == encoded_key(url@),
        forall|i: int| 0 <= i < r@.len() ==> !is_escaped_char(#[trigger] r@[i]),
{
    encode(url.as_str())
}

/// Decode a storage key back to a path; equivalent to [`decode`].
pub fn decode_url(url: &str) -> (r: Result<String, DecodeError>)
    ensures
        r is Ok <==> valid_utf8(decode_bytes(encode_utf8(url@))),
        r matches Ok(path) ==> encode_utf8(path@) == decode_bytes(encode_utf8(url@)),
        r matches Ok(path) ==> path@ == decode_utf8(decode_bytes(encode_utf8(url@))),
{
    decode(url)
}

} // verus!
