//! The persisted record wire format: a compact JSON object with exactly two
//! fields, `body` (a string) and `headers` (an object of string values), as
//! in `{"body":"...","headers":{"name":"value"}}`.
//!
//! [`serialize_record`] gives the text a record serializes to and
//! [`parse_record`] what a text deserializes to; parsing rejects anything
//! that is not a record of exactly this shape.  Parsing inverts
//! serialization exactly ([`lemma_parse_serialize`]).

use vstd::prelude::*;

verus! {

/// True for the characters of hexadecimal digits, either case.
pub open spec fn is_hex_char(c: char) -> bool {
    0x30 <= c as u32 <= 0x39 || 0x41 <= c as u32 <= 0x46 || 0x61 <= c as u32 <= 0x66
}

/// The value of a hexadecimal digit character.
pub open spec fn hex_char_value(c: char) -> int
    recommends
        is_hex_char(c),
{
    if 0x30 <= c as u32 <= 0x39 {
        c as u32 - 0x30
    } else if 0x41 <= c as u32 <= 0x46 {
        c as u32 - 0x41 + 10
    } else {
        c as u32 - 0x61 + 10
    }
}

/// Lowercase hexadecimal digit character of a value below 16.
pub open spec fn hex_char_lower(v: int) -> char
    recommends
        0 <= v < 16,
{
    if v < 10 {
        ((0x30 + v) as u8) as char
    } else {
        ((0x57 + v) as u8) as char
    }
}

/// The characters a single character contributes to a JSON string literal:
/// itself, a two-character escape, or a `\u00..` escape for the remaining
/// control characters.
pub open spec fn escape_char(c: char) -> Seq<char> {
    if c == '"' {
        seq!['\\', '"']
    } else if c == '\\' {
        seq!['\\', '\\']
    } else if c == '\u{8}' {
        seq!['\\', 'b']
    } else if c == '\t' {
        seq!['\\', 't']
    } else if c == '\n' {
        seq!['\\', 'n']
    } else if c == '\u{c}' {
        seq!['\\', 'f']
    } else if c == '\r' {
        seq!['\\', 'r']
    } else if (c as u32) < 0x20 {
        seq![
            '\\',
            'u',
            '0',
            '0',
            hex_char_lower(((c as u32) as int) / 16),
            hex_char_lower(((c as u32) as int) % 16),
        ]
    } else {
        seq![c]
    }
}

/// The body of a JSON string literal for `s`: each character escaped.
pub open spec fn escape_string(s: Seq<char>) -> Seq<char>
    decreases s.len(),
{
    if s.len() == 0 {
        seq![]
    } else {
        escape_char(s[0]) + escape_string(s.drop_first())
    }
}

/// A complete JSON string literal: quotes around the escaped characters.
pub open spec fn quoted(s: Seq<char>) -> Seq<char> {
    seq!['"'] + escape_string(s) + seq!['"']
}

/// The members of the headers object: `"name":"value"` pairs joined by
/// commas.
pub open spec fn serialize_pairs(hs: Seq<(Seq<char>, Seq<char>)>) -> Seq<char>
    decreases hs.len(),
{
    if hs.len() == 0 {
        seq![]
    } else if hs.len() == 1 {
        quoted(hs[0].0) + seq![':'] + quoted(hs[0].1)
    } else {
        quoted(hs[0].0) + seq![':'] + quoted(hs[0].1) + seq![','] + serialize_pairs(
            hs.drop_first(),
        )
    }
}

/// The characters `{"body":` that open a record.
pub open spec fn record_head() -> Seq<char> {
    seq!['{', '"', 'b', 'o', 'd', 'y', '"', ':']
}

/// The characters `,"headers":` between the two fields.
pub open spec fn record_mid() -> Seq<char> {
    seq![',', '"', 'h', 'e', 'a', 'd', 'e', 'r', 's', '"', ':']
}

/// The serialized text of a record with the given body and header pairs.
pub open spec fn serialize_record(body: Seq<char>, hs: Seq<(Seq<char>, Seq<char>)>) -> Seq<char> {
    record_head() + quoted(body) + record_mid() + seq!['{'] + serialize_pairs(hs) + seq!['}']
        + seq!['}']
}

/// The character a two-character escape denotes, if the escape is legal.
pub open spec fn unescape_simple(e: char) -> Option<char> {
    if e == '"' {
        Some('"')
    } else if e == '\\' {
        Some('\\')
    } else if e == '/' {
        Some('/')
    } else if e == 'b' {
        Some('\u{8}')
    } else if e == 'f' {
        Some('\u{c}')
    } else if e == 'n' {
        Some('\n')
    } else if e == 'r' {
        Some('\r')
    } else if e == 't' {
        Some('\t')
    } else {
        None
    }
}

/// Scan a JSON string literal from just after its opening quote: the
/// denoted characters and what follows the closing quote, or `None` when
/// the text is not a well-formed literal.  `\u` escapes are accepted for
/// values below 0x100, which covers everything the serializer emits.
pub open spec fn scan_string(s: Seq<char>) -> Option<(Seq<char>, Seq<char>)>
    decreases s.len(),
{
    if s.len() == 0 {
        None
    } else if s[0] == '"' {
        Some((seq![], s.drop_first()))
    } else if s[0] == '\\' {
        if s.len() < 2 {
            None
        } else if s[1] == 'u' {
            if s.len() < 6 {
                None
            } else if !(is_hex_char(s[2]) && is_hex_char(s[3]) && is_hex_char(s[4]) && is_hex_char(
                s[5],
            )) {
                None
            } else {
                let v = ((hex_char_value(s[2]) * 16 + hex_char_value(s[3])) * 16 + hex_char_value(
                    s[4],
                )) * 16 + hex_char_value(s[5]);
                if v >= 0x100 {
                    None
                } else {
                    match scan_string(s.skip(6)) {
                        None => None,
                        Some((c, r)) => Some((seq![(v as u8) as char] + c, r)),
                    }
                }
            }
        } else {
            match unescape_simple(s[1]) {
                None => None,
                Some(c) => match scan_string(s.skip(2)) {
                    None => None,
                    Some((cs, r)) => Some((seq![c] + cs, r)),
                },
            }
        }
    } else if (s[0] as u32) < 0x20 {
        None
    } else {
        match scan_string(s.drop_first()) {
            None => None,
            Some((cs, r)) => Some((seq![s[0]] + cs, r)),
        }
    }
}

/// A successful string scan consumes at least the closing quote.
pub proof fn lemma_scan_string_shrinks(s: Seq<char>)
    ensures
        scan_string(s) matches Some(p) ==> p.1.len() < s.len(),
    decreases s.len(),
{
    if s.len() == 0 {
    } else if s[0] == '"' {
    } else if s[0] == '\\' {
        if s.len() >= 6 {
            lemma_scan_string_shrinks(s.skip(6));
        }
        if s.len() >= 2 {
            lemma_scan_string_shrinks(s.skip(2));
        }
    } else {
        lemma_scan_string_shrinks(s.drop_first());
    }
}

/// Scan the members of the headers object from just after its opening
/// brace: the (name, value) pairs and what follows the closing brace, or
/// `None` when the text is not a well-formed object of string values.
pub open spec fn scan_pairs(s: Seq<char>) -> Option<(Seq<(Seq<char>, Seq<char>)>, Seq<char>)>
    decreases s.len(),
{
    if s.len() == 0 {
        None
    } else if s[0] == '}' {
        Some((seq![], s.drop_first()))
    } else if s[0] == '"' {
        match scan_string(s.drop_first()) {
            None => None,
            Some((k, r1)) => {
                if r1.len() < 2 || r1[0] != ':' || r1[1] != '"' {
                    None
                } else {
                    match scan_string(r1.skip(2)) {
                        None => None,
                        Some((v, r2)) => {
                            if r2.len() == 0 {
                                None
                            } else if r2[0] == ',' {
                                if r2.len() >= 2 && r2[1] == '"' {
                                    proof {
                                        lemma_scan_string_shrinks(s.drop_first());
                                        lemma_scan_string_shrinks(r1.skip(2));
                                    }
                                    match scan_pairs(r2.drop_first()) {
                                        None => None,
                                        Some((ps, r3)) => Some((seq![(k, v)] + ps, r3)),
                                    }
                                } else {
                                    None
                                }
                            } else if r2[0] == '}' {
                                Some((seq![(k, v)], r2.drop_first()))
                            } else {
                                None
                            }
                        },
                    }
                }
            },
        }
    } else {
        None
    }
}

/// True when `p` is an initial segment of `s`.
pub open spec fn has_prefix(s: Seq<char>, p: Seq<char>) -> bool {
    p.len() <= s.len() && s.subrange(0, p.len() as int) == p
}

/// What a stored text deserializes to: the record's body and header pairs,
/// or `None` when the text is not a record of exactly the expected shape --
/// among others when either field is missing, has the wrong type, or a
/// third field is present.
pub open spec fn parse_record(s: Seq<char>) -> Option<(Seq<char>, Seq<(Seq<char>, Seq<char>)>)> {
    if !has_prefix(s, record_head().push('"')) {
        None
    } else {
        match scan_string(s.skip(9)) {
            None => None,
            Some((body, r1)) => {
                if !has_prefix(r1, record_mid().push('{')) {
                    None
                } else {
                    match scan_pairs(r1.skip(12)) {
                        None => None,
                        Some((hs, r2)) => {
                            if r2.len() == 1 && r2[0] == '}' {
                                Some((body, hs))
                            } else {
                                None
                            }
                        },
                    }
                }
            },
        }
    }
}

proof fn lemma_char_eq(a: char, b: char)
    requires
        a as u32 == b as u32,
    ensures
        a == b,
{
    vstd::utf8::char_u32_cast(a, a as u32);
    vstd::utf8::char_u32_cast(b, a as u32);
}

/// Scanning a serialized string literal body recovers the original
/// characters and leaves exactly the tail.
pub proof fn lemma_scan_escape(x: Seq<char>, tail: Seq<char>)
    ensures
        scan_string(escape_string(x) + seq!['"'] + tail) == Some((x, tail)),
    decreases x.len(),
{
    let s = escape_string(x) + seq!['"'] + tail;
    if x.len() == 0 {
        assert(escape_string(x) == Seq::<char>::empty());
        assert(s[0] == '"');
        assert(s.drop_first() =~= tail);
        assert(Seq::<char>::empty() =~= x);
    } else {
        let c = x[0];
        let e = escape_char(c);
        let rest = x.drop_first();
        lemma_scan_escape(rest, tail);
        let srest = escape_string(rest) + seq!['"'] + tail;
        assert(escape_string(x) == e + escape_string(rest));
        assert forall|j: int| 0 <= j < e.len() implies s[j] == e[j] by {}
        assert(s.skip(e.len() as int) =~= srest);
        if c == '"' || c == '\\' || c == '\u{8}' || c == '\t' || c == '\n' || c == '\u{c}' || c
            == '\r' {
            assert(s[0] == '\\');
            assert(s[1] != 'u');
            assert(unescape_simple(s[1]) == Some(c));
            assert(s.skip(2) =~= srest);
            assert(scan_string(s) == Some((seq![c] + rest, tail)));
            assert(seq![c] + rest =~= x);
        } else if (c as u32) < 0x20 {
            let u: int = (c as u32) as int;
            assert(e == seq!['\\', 'u', '0', '0', hex_char_lower(u / 16), hex_char_lower(u % 16)]);
            assert(s[0] == '\\' && s[1] == 'u' && s[2] == '0' && s[3] == '0');
            assert('0' as u32 == 0x30);
            assert(is_hex_char('0') && hex_char_value('0') == 0);
            assert(0 <= u / 16 < 16 && 0 <= u % 16 < 16);
            assert(is_hex_char(hex_char_lower(u / 16)));
            assert(is_hex_char(hex_char_lower(u % 16)));
            assert(hex_char_value(hex_char_lower(u / 16)) == u / 16);
            assert(hex_char_value(hex_char_lower(u % 16)) == u % 16);
            let v = ((hex_char_value(s[2]) * 16 + hex_char_value(s[3])) * 16 + hex_char_value(
                s[4],
            )) * 16 + hex_char_value(s[5]);
            assert(v == (u / 16) * 16 + u % 16);
            assert(v == u);
            assert(v < 0x100);
            lemma_char_eq((v as u8) as char, c);
            assert(s.skip(6) =~= srest);
            assert(scan_string(s) == Some((seq![c] + rest, tail)));
            assert(seq![c] + rest =~= x);
        } else {
            assert(e == seq![c]);
            assert(s[0] == c);
            assert(s[0] != '"' && s[0] != '\\');
            assert(!((s[0] as u32) < 0x20));
            assert(s.drop_first() =~= srest);
            assert(scan_string(s) == Some((seq![c] + rest, tail)));
            assert(seq![c] + rest =~= x);
        }
    }
}

/// A nonempty serialized pair list starts with a quote.
proof fn lemma_serialize_pairs_first(hs: Seq<(Seq<char>, Seq<char>)>)
    requires
        hs.len() > 0,
    ensures
        serialize_pairs(hs).len() > 0,
        serialize_pairs(hs)[0] == '"',
{
    assert(quoted(hs[0].0)[0] == '"');
}

/// Scanning serialized header pairs recovers the original pairs and leaves
/// exactly the tail.
#[verifier::rlimit(100)]
pub proof fn lemma_scan_pairs_serialized(hs: Seq<(Seq<char>, Seq<char>)>, tail: Seq<char>)
    ensures
        scan_pairs(serialize_pairs(hs) + seq!['}'] + tail) == Some((hs, tail)),
    decreases hs.len(),
{
    let s = serialize_pairs(hs) + seq!['}'] + tail;
    if hs.len() == 0 {
        assert(serialize_pairs(hs) == Seq::<char>::empty());
        assert(s[0] == '}');
        assert(s.drop_first() =~= tail);
        assert(Seq::<(Seq<char>, Seq<char>)>::empty() =~= hs);
    } else {
        let k = hs[0].0;
        let v = hs[0].1;
        lemma_serialize_pairs_first(hs);
        assert(s[0] == '"');
        if hs.len() == 1 {
            let t1 = seq![':'] + quoted(v) + seq!['}'] + tail;
            assert(s.drop_first() =~= escape_string(k) + seq!['"'] + t1);
            lemma_scan_escape(k, t1);
            assert(t1.len() >= 2 && t1[0] == ':' && t1[1] == '"');
            let t2 = seq!['}'] + tail;
            assert(t1.skip(2) =~= escape_string(v) + seq!['"'] + t2);
            lemma_scan_escape(v, t2);
            assert(t2[0] == '}');
            assert(t2.drop_first() =~= tail);
            assert(scan_pairs(s) == Some((seq![(k, v)], tail)));
            assert(seq![(k, v)] =~= hs);
        } else {
            let hrest = hs.drop_first();
            lemma_scan_pairs_serialized(hrest, tail);
            let srest = serialize_pairs(hrest) + seq!['}'] + tail;
            let t1 = seq![':'] + quoted(v) + seq![','] + serialize_pairs(hrest) + seq!['}'] + tail;
            assert(serialize_pairs(hs) == quoted(k) + seq![':'] + quoted(v) + seq![',']
                + serialize_pairs(hrest));
            assert(s.drop_first() =~= escape_string(k) + seq!['"'] + t1);
            lemma_scan_escape(k, t1);
            assert(t1.len() >= 2 && t1[0] == ':' && t1[1] == '"');
            let t2 = seq![','] + serialize_pairs(hrest) + seq!['}'] + tail;
            assert(t1.skip(2) =~= escape_string(v) + seq!['"'] + t2);
            lemma_scan_escape(v, t2);
            assert(t2[0] == ',');
            lemma_serialize_pairs_first(hrest);
            assert(t2[1] == '"');
            assert(t2.drop_first() =~= srest);
            assert(scan_pairs(s) == Some((seq![(k, v)] + hrest, tail)));
            assert(seq![(k, v)] + hrest =~= hs);
        }
    }
}

/// Round trip of the wire format: a record serialized and then parsed
/// yields back exactly its body text and its header pairs.
pub proof fn lemma_parse_serialize(body: Seq<char>, hs: Seq<(Seq<char>, Seq<char>)>)
    ensures
        parse_record(serialize_record(body, hs)) == Some((body, hs)),
{
    let s = serialize_record(body, hs);
    assert(quoted(body)[0] == '"');
    assert(s.subrange(0, 9) =~= record_head().push('"'));
    assert(has_prefix(s, record_head().push('"')));
    let t1 = record_mid() + seq!['{'] + serialize_pairs(hs) + seq!['}'] + seq!['}'];
    assert(s.skip(9) =~= escape_string(body) + seq!['"'] + t1);
    lemma_scan_escape(body, t1);
    assert(scan_string(s.skip(9)) == Some((body, t1)));
    assert(t1.subrange(0, 12) =~= record_mid().push('{'));
    assert(has_prefix(t1, record_mid().push('{')));
    assert(t1.skip(12) =~= serialize_pairs(hs) + seq!['}'] + seq!['}']);
    lemma_scan_pairs_serialized(hs, seq!['}']);
    assert(scan_pairs(t1.skip(12)) == Some((hs, seq!['}'])));
    assert(seq!['}'].len() == 1 && seq!['}'][0] == '}');
}

/// The character-level view of a sequence of character-vector pairs.
pub open spec fn pairs_chars_view(ps: Seq<(Vec<char>, Vec<char>)>) -> Seq<(Seq<char>, Seq<char>)> {
    ps.map_values(|p: (Vec<char>, Vec<char>)| (p.0@, p.1@))
}

proof fn lemma_escape_string_append(s: Seq<char>, c: char)
    ensures
        escape_string(s.push(c)) == escape_string(s) + escape_char(c),
    decreases s.len(),
{
    if s.len() == 0 {
        assert(s.push(c)[0] == c);
        assert(s.push(c).drop_first() =~= Seq::<char>::empty());
        assert(escape_string(Seq::<char>::empty()) == Seq::<char>::empty());
        assert(escape_string(s) == Seq::<char>::empty());
        assert(escape_string(s.push(c)) =~= escape_string(s) + escape_char(c));
    } else {
        lemma_escape_string_append(s.drop_first(), c);
        assert(s.push(c)[0] == s[0]);
        assert(s.push(c).drop_first() =~= s.drop_first().push(c));
        assert(escape_string(s.push(c)) == escape_char(s[0]) + escape_string(
            s.drop_first().push(c),
        ));
        assert(escape_string(s.push(c)) =~= escape_string(s) + escape_char(c));
    }
}

fn hex_lower_exec(v: u8) -> (r: char)
    requires
        v < 16,
    ensures
        r == hex_char_lower(v as int),
{
    if v < 10 {
        (0x30 + v) as char
    } else {
        (0x57 + v) as char
    }
}

/// Append the escaped form of `s` to `out`.
fn escape_into(out: &mut Vec<char>, s: &Vec<char>)
    ensures
        final(out)@ == old(out)@ + escape_string(s@),
{
    let ghost base = out@;
    let mut j: usize = 0;
    while j < s.len()
        invariant
            j <= s@.len(),
            out@ == base + escape_string(s@.subrange(0, j as int)),
        decreases s@.len() - j,
    {
        let c: char = s[j];
        if c == '"' {
            out.push('\\');
            out.push('"');
        } else if c == '\\' {
            out.push('\\');
            out.push('\\');
        } else if c == '\u{8}' {
            out.push('\\');
            out.push('b');
        } else if c == '\t' {
            out.push('\\');
            out.push('t');
        } else if c == '\n' {
            out.push('\\');
            out.push('n');
        } else if c == '\u{c}' {
            out.push('\\');
            out.push('f');
        } else if c == '\r' {
            out.push('\\');
            out.push('r');
        } else if (c as u32) < 0x20 {
            let u: u32 = c as u32;
            out.push('\\');
            out.push('u');
            out.push('0');
            out.push('0');
            out.push(hex_lower_exec((u / 16) as u8));
            out.push(hex_lower_exec((u % 16) as u8));
        } else {
            out.push(c);
        }
        proof {
            lemma_escape_string_append(s@.subrange(0, j as int), c);
            assert(s@.subrange(0, j as int).push(c) =~= s@.subrange(0, j + 1 as int));
            assert(out@ =~= base + escape_string(s@.subrange(0, j + 1 as int)));
        }
        j = j + 1;
    }
    proof {
        assert(s@.subrange(0, s@.len() as int) =~= s@);
    }
}

/// Append the quoted, escaped form of `s` to `out`.
fn quoted_into(out: &mut Vec<char>, s: &Vec<char>)
    ensures
        final(out)@ == old(out)@ + quoted(s@),
{
    let ghost base = out@;
    out.push('"');
    escape_into(out, s);
    out.push('"');
    proof {
        assert(out@ =~= base + quoted(s@));
    }
}

/// Append the serialized members of the headers object, from pair `i` on.
fn pairs_into(out: &mut Vec<char>, pairs: &Vec<(Vec<char>, Vec<char>)>, i: usize)
    requires
        i <= pairs@.len(),
    ensures
        final(out)@ == old(out)@ + serialize_pairs(pairs_chars_view(pairs@).skip(i as int)),
    decreases pairs@.len() - i,
{
    let ghost base = out@;
    let ghost hs = pairs_chars_view(pairs@).skip(i as int);
    if i < pairs.len() {
        quoted_into(out, &pairs[i].0);
        out.push(':');
        quoted_into(out, &pairs[i].1);
        proof {
            assert(hs[0] == (pairs@[i as int].0@, pairs@[i as int].1@));
        }
        if i + 1 < pairs.len() {
            out.push(',');
            pairs_into(out, pairs, i + 1);
            proof {
                assert(hs.drop_first() =~= pairs_chars_view(pairs@).skip(i + 1 as int));
                assert(hs.len() > 1);
                assert(out@ =~= base + serialize_pairs(hs));
            }
        } else {
            proof {
                assert(hs.len() == 1);
                assert(out@ =~= base + serialize_pairs(hs));
            }
        }
    } else {
        proof {
            assert(hs =~= Seq::<(Seq<char>, Seq<char>)>::empty());
            assert(serialize_pairs(hs) == Seq::<char>::empty());
            assert(out@ =~= base + serialize_pairs(hs));
        }
    }
}

/// The serialized text of a record, as characters.
pub(crate) fn serialize_record_chars(body: &Vec<char>, pairs: &Vec<(Vec<char>, Vec<char>)>) -> (r:
    Vec<char>)
    ensures
        r@ == serialize_record(body@, pairs_chars_view(pairs@)),
{
    let mut out: Vec<char> = Vec::new();
    out.push('{');
    out.push('"');
    out.push('b');
    out.push('o');
    out.push('d');
    out.push('y');
    out.push('"');
    out.push(':');
    proof {
        assert(out@ =~= record_head());
    }
    quoted_into(&mut out, body);
    out.push(',');
    out.push('"');
    out.push('h');
    out.push('e');
    out.push('a');
    out.push('d');
    out.push('e');
    out.push('r');
    out.push('s');
    out.push('"');
    out.push(':');
    proof {
        assert(out@ =~= record_head() + quoted(body@) + record_mid());
    }
    out.push('{');
    pairs_into(&mut out, pairs, 0);
    out.push('}');
    out.push('}');
    proof {
        assert(pairs_chars_view(pairs@).skip(0) =~= pairs_chars_view(pairs@));
        assert(out@ =~= serialize_record(body@, pairs_chars_view(pairs@)));
    }
    out
}

/// Prepend already-scanned elements to a scanner result.
pub open spec fn scan_cont<A>(acc: Seq<A>, r: Option<(Seq<A>, Seq<char>)>) -> Option<
    (Seq<A>, Seq<char>),
> {
    match r {
        None => None,
        Some((cs, rest)) => Some((acc + cs, rest)),
    }
}

proof fn lemma_scan_cont_assoc<A>(a: Seq<A>, b: Seq<A>, r: Option<(Seq<A>, Seq<char>)>)
    ensures
        scan_cont(a, scan_cont(b, r)) == scan_cont(a + b, r),
{
    match r {
        None => {},
        Some(p) => {
            assert(a + (b + p.0) =~= (a + b) + p.0);
        },
    }
}

fn hex_char_value_exec(c: char) -> (r: Option<u8>)
    ensures
        r is Some <==> is_hex_char(c),
        r matches Some(v) ==> v as int == hex_char_value(c),
{
    let u: u32 = c as u32;
    if 0x30 <= u && u <= 0x39 {
        Some((u - 0x30) as u8)
    } else if 0x41 <= u && u <= 0x46 {
        Some((u - 0x41 + 10) as u8)
    } else if 0x61 <= u && u <= 0x66 {
        Some((u - 0x61 + 10) as u8)
    } else {
        None
    }
}

fn unescape_simple_exec(e: char) -> (r: Option<char>)
    ensures
        r == unescape_simple(e),
{
    if e == '"' {
        Some('"')
    } else if e == '\\' {
        Some('\\')
    } else if e == '/' {
        Some('/')
    } else if e == 'b' {
        Some('\u{8}')
    } else if e == 'f' {
        Some('\u{c}')
    } else if e == 'n' {
        Some('\n')
    } else if e == 'r' {
        Some('\r')
    } else if e == 't' {
        Some('\t')
    } else {
        None
    }
}

/// Scan a JSON string literal in `s` from position `start`, just after the
/// opening quote; on success the denoted characters and the position just
/// after the closing quote.
pub(crate) fn scan_string_exec(s: &Vec<char>, start: usize) -> (r: Option<(Vec<char>, usize)>)
    requires
        start <= s@.len(),
    ensures
        r is None ==> scan_string(s@.skip(start as int)) is None,
        r matches Some(p) ==> start < p.1 <= s@.len() && scan_string(s@.skip(start as int)) == Some(
            (p.0@, s@.skip(p.1 as int)),
        ),
{
    let mut acc: Vec<char> = Vec::new();
    let mut i: usize = start;
    proof {
        match scan_string(s@.skip(start as int)) {
            Some(p) => {
                assert(Seq::<char>::empty() + p.0 =~= p.0);
            },
            None => {},
        }
    }
    loop
        invariant
            start <= i <= s@.len(),
            scan_string(s@.skip(start as int)) == scan_cont(acc@, scan_string(s@.skip(i as int))),
        decreases s@.len() - i,
    {
        let ghost suf = s@.skip(i as int);
        let ghost acc0 = acc@;
        if i == s.len() {
            proof {
                assert(suf =~= Seq::<char>::empty());
            }
            return None;
        }
        proof {
            assert(suf.len() == s@.len() - i);
            assert(suf[0] == s@[i as int]);
        }
        let c: char = s[i];
        if c == '"' {
            proof {
                assert(suf.drop_first() =~= s@.skip(i + 1 as int));
                assert(scan_string(suf) == Some((Seq::<char>::empty(), s@.skip(i + 1 as int))));
                assert(acc0 + Seq::<char>::empty() =~= acc0);
            }
            return Some((acc, i + 1));
        }
        if c == '\\' {
            if s.len() - i < 2 {
                return None;
            }
            proof {
                assert(suf[1] == s@[i + 1]);
            }
            let e: char = s[i + 1];
            if e == 'u' {
                if s.len() - i < 6 {
                    return None;
                }
                proof {
                    assert(suf[2] == s@[i + 2] && suf[3] == s@[i + 3] && suf[4] == s@[i + 4]
                        && suf[5] == s@[i + 5]);
                }
                let h2 = hex_char_value_exec(s[i + 2]);
                let h3 = hex_char_value_exec(s[i + 3]);
                let h4 = hex_char_value_exec(s[i + 4]);
                let h5 = hex_char_value_exec(s[i + 5]);
                let (a, b, d, e4) = match (h2, h3, h4, h5) {
                    (Some(a), Some(b), Some(d), Some(e4)) => (a, b, d, e4),
                    _ => {
                        return None;
                    },
                };
                let v: u32 = (a as u32) * 4096 + (b as u32) * 256 + (d as u32) * 16 + (e4 as u32);
                proof {
                    assert(v as int == ((hex_char_value(suf[2]) * 16 + hex_char_value(suf[3])) * 16
                        + hex_char_value(suf[4])) * 16 + hex_char_value(suf[5]));
                }
                if v >= 0x100 {
                    return None;
                }
                let ch: char = (v as u8) as char;
                acc.push(ch);
                proof {
                    let nsuf = s@.skip(i + 6 as int);
                    assert(suf.skip(6) =~= nsuf);
                    assert(scan_string(suf) == scan_cont(seq![ch], scan_string(nsuf)));
                    lemma_scan_cont_assoc(acc0, seq![ch], scan_string(nsuf));
                    assert(acc0 + seq![ch] =~= acc@);
                }
                i = i + 6;
            } else {
                match unescape_simple_exec(e) {
                    None => {
                        return None;
                    },
                    Some(c2) => {
                        acc.push(c2);
                        proof {
                            let nsuf = s@.skip(i + 2 as int);
                            assert(suf.skip(2) =~= nsuf);
                            assert(scan_string(suf) == scan_cont(seq![c2], scan_string(nsuf)));
                            lemma_scan_cont_assoc(acc0, seq![c2], scan_string(nsuf));
                            assert(acc0 + seq![c2] =~= acc@);
                        }
                        i = i + 2;
                    },
                }
            }
        } else if (c as u32) < 0x20 {
            return None;
        } else {
            acc.push(c);
            proof {
                let nsuf = s@.skip(i + 1 as int);
                assert(suf.drop_first() =~= nsuf);
                assert(scan_string(suf) == scan_cont(seq![c], scan_string(nsuf)));
                lemma_scan_cont_assoc(acc0, seq![c], scan_string(nsuf));
                assert(acc0 + seq![c] =~= acc@);
            }
            i = i + 1;
        }
    }
}

/// Scan the members of the headers object in `s` from position `start`,
/// just after the opening brace; on success the (name, value) pairs and the
/// position just after the closing brace.
pub(crate) fn scan_pairs_exec(s: &Vec<char>, start: usize) -> (r: Option<
    (Vec<(Vec<char>, Vec<char>)>, usize),
>)
    requires
        start <= s@.len(),
    ensures
        r is None ==> scan_pairs(s@.skip(start as int)) is None,
        r matches Some(p) ==> start < p.1 <= s@.len() && scan_pairs(s@.skip(start as int)) == Some(
            (pairs_chars_view(p.0@), s@.skip(p.1 as int)),
        ),
{
    let mut acc: Vec<(Vec<char>, Vec<char>)> = Vec::new();
    let mut i: usize = start;
    proof {
        assert(pairs_chars_view(acc@) =~= Seq::<(Seq<char>, Seq<char>)>::empty());
        match scan_pairs(s@.skip(start as int)) {
            Some(p) => {
                assert(Seq::<(Seq<char>, Seq<char>)>::empty() + p.0 =~= p.0);
            },
            None => {},
        }
    }
    loop
        invariant
            start <= i <= s@.len(),
            scan_pairs(s@.skip(start as int)) == scan_cont(
                pairs_chars_view(acc@),
                scan_pairs(s@.skip(i as int)),
            ),
        decreases s@.len() - i,
    {
        let ghost suf = s@.skip(i as int);
        let ghost acc0 = pairs_chars_view(acc@);
        if i == s.len() {
            proof {
                assert(suf =~= Seq::<char>::empty());
            }
            return None;
        }
        proof {
            assert(suf.len() == s@.len() - i);
            assert(suf[0] == s@[i as int]);
        }
        let c: char = s[i];
        if c == '}' {
            proof {
                assert(suf.drop_first() =~= s@.skip(i + 1 as int));
                assert(scan_pairs(suf) == Some(
                    (Seq::<(Seq<char>, Seq<char>)>::empty(), s@.skip(i + 1 as int)),
                ));
                assert(acc0 + Seq::<(Seq<char>, Seq<char>)>::empty() =~= acc0);
            }
            return Some((acc, i + 1));
        }
        if c != '"' {
            return None;
        }
        proof {
            assert(suf.drop_first() =~= s@.skip(i + 1 as int));
        }
        let (k, j) = match scan_string_exec(s, i + 1) {
            None => {
                return None;
            },
            Some(p) => p,
        };
        let ghost r1 = s@.skip(j as int);
        if s.len() - j < 2 || s[j] != ':' || s[j + 1] != '"' {
            proof {
                assert(r1.len() == s@.len() - j);
                if r1.len() >= 1 {
                    assert(r1[0] == s@[j as int]);
                }
                if r1.len() >= 2 {
                    assert(r1[1] == s@[j + 1]);
                }
            }
            return None;
        }
        proof {
            assert(r1[0] == s@[j as int] && r1[1] == s@[j + 1]);
            assert(r1.skip(2) =~= s@.skip(j + 2 as int));
        }
        let (v, m) = match scan_string_exec(s, j + 2) {
            None => {
                return None;
            },
            Some(p) => p,
        };
        let ghost r2 = s@.skip(m as int);
        if m == s.len() {
            proof {
                assert(r2 =~= Seq::<char>::empty());
            }
            return None;
        }
        proof {
            assert(r2.len() == s@.len() - m);
            assert(r2[0] == s@[m as int]);
        }
        let t: char = s[m];
        if t == ',' {
            if m + 1 < s.len() && s[m + 1] == '"' {
                proof {
                    assert(r2[1] == s@[m + 1]);
                    assert(r2.drop_first() =~= s@.skip(m + 1 as int));
                }
                let ghost kv = (k@, v@);
                acc.push((k, v));
                proof {
                    let nsuf = s@.skip(m + 1 as int);
                    assert(scan_pairs(suf) == scan_cont(seq![kv], scan_pairs(nsuf)));
                    lemma_scan_cont_assoc(acc0, seq![kv], scan_pairs(nsuf));
                    assert(acc0 + seq![kv] =~= pairs_chars_view(acc@));
                }
                i = m + 1;
            } else {
                proof {
                    if r2.len() >= 2 {
                        assert(r2[1] == s@[m + 1]);
                    }
                }
                return None;
            }
        } else if t == '}' {
            let ghost kv = (k@, v@);
            acc.push((k, v));
            proof {
                assert(r2.drop_first() =~= s@.skip(m + 1 as int));
                assert(scan_pairs(suf) == Some((seq![kv], s@.skip(m + 1 as int))));
                assert(acc0 + seq![kv] =~= pairs_chars_view(acc@));
            }
            return Some((acc, m + 1));
        } else {
            return None;
        }
    }
}

/// Parse a stored text as a record: the body characters and the header
/// pairs, or `None` when the text is not a record of exactly the expected
/// shape.
pub(crate) fn parse_record_chars(s: &Vec<char>) -> (r: Option<
    (Vec<char>, Vec<(Vec<char>, Vec<char>)>),
>)
    ensures
        r is None ==> parse_record(s@) is None,
        r matches Some(p) ==> parse_record(s@) == Some((p.0@, pairs_chars_view(p.1@))),
{
    let ghost head = record_head().push('"');
    let ghost mid = record_mid().push('{');
    if s.len() < 9 {
        return None;
    }
    let ok = s[0] == '{' && s[1] == '"' && s[2] == 'b' && s[3] == 'o' && s[4] == 'd' && s[5] == 'y'
        && s[6] == '"' && s[7] == ':' && s[8] == '"';
    if !ok {
        proof {
            assert(head[0] == '{' && head[1] == '"' && head[2] == 'b' && head[3] == 'o' && head[4]
                == 'd' && head[5] == 'y' && head[6] == '"' && head[7] == ':' && head[8] == '"');
            if has_prefix(s@, head) {
                assert(s@.subrange(0, 9) == head);
                assert forall|t: int| 0 <= t < 9 implies s@[t] == head[t] by {
                    assert(s@.subrange(0, 9)[t] == s@[t]);
                }
                assert(s@[0] == '{' && s@[1] == '"' && s@[2] == 'b' && s@[3] == 'o' && s@[4] == 'd'
                    && s@[5] == 'y' && s@[6] == '"' && s@[7] == ':' && s@[8] == '"');
            }
        }
        return None;
    }
    proof {
        assert(s@.subrange(0, 9) =~= head);
        assert(has_prefix(s@, head));
    }
    let (body, j) = match scan_string_exec(s, 9) {
        None => {
            return None;
        },
        Some(p) => p,
    };
    let ghost r1 = s@.skip(j as int);
    if s.len() - j < 12 {
        return None;
    }
    let ok2 = s[j] == ',' && s[j + 1] == '"' && s[j + 2] == 'h' && s[j + 3] == 'e' && s[j + 4]
        == 'a' && s[j + 5] == 'd' && s[j + 6] == 'e' && s[j + 7] == 'r' && s[j + 8] == 's' && s[j
        + 9] == '"' && s[j + 10] == ':' && s[j + 11] == '{';
    proof {
        assert(r1.len() == s@.len() - j);
        assert forall|t: int| 0 <= t < 12 implies r1[t] == s@[j + t] by {}
    }
    if !ok2 {
        proof {
            assert(mid[0] == ',' && mid[1] == '"' && mid[2] == 'h' && mid[3] == 'e' && mid[4]
                == 'a' && mid[5] == 'd' && mid[6] == 'e' && mid[7] == 'r' && mid[8] == 's'
                && mid[9] == '"' && mid[10] == ':' && mid[11] == '{');
            if has_prefix(r1, mid) {
                assert(r1.subrange(0, 12) == mid);
                assert forall|t: int| 0 <= t < 12 implies r1[t] == mid[t] by {
                    assert(r1.subrange(0, 12)[t] == r1[t]);
                }
                assert(s@[j as int] == ',' && s@[j + 1] == '"' && s@[j + 2] == 'h' && s@[j + 3]
                    == 'e' && s@[j + 4] == 'a' && s@[j + 5] == 'd' && s@[j + 6] == 'e' && s@[j + 7]
                    == 'r' && s@[j + 8] == 's' && s@[j + 9] == '"' && s@[j + 10] == ':' && s@[j
                    + 11] == '{');
            }
        }
        return None;
    }
    proof {
        assert(r1.subrange(0, 12) =~= mid);
        assert(has_prefix(r1, mid));
        assert(r1.skip(12) =~= s@.skip(j + 12 as int));
    }
    let (hs, m) = match scan_pairs_exec(s, j + 12) {
        None => {
            return None;
        },
        Some(p) => p,
    };
    let ghost r2 = s@.skip(m as int);
    proof {
        assert(r2.len() == s@.len() - m);
        if r2.len() >= 1 {
            assert(r2[0] == s@[m as int]);
        }
    }
    if m == s.len() - 1 && s[m] == '}' {
        proof {
            assert(r2.len() == 1 && r2[0] == '}');
        }
        Some((body, hs))
    } else {
        proof {
            assert(!(r2.len() == 1 && r2[0] == '}'));
        }
        None
    }
}

} // verus!
