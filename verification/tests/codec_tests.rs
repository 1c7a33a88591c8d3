use joff::decode;
use joff::decode_url;
use joff::encode;
use joff::encode_url;

#[test]
fn encode_leaves_plain_paths_alone() {
    assert_eq!(encode("/api/ditto"), "/api/ditto");
    assert_eq!(encode_url(&"/api/ditto".to_string()), "/api/ditto");
}

#[test]
fn encode_escapes_the_fragment_set() {
    assert_eq!(encode("/a b"), "/a%20b");
    assert_eq!(encode("\"<>`"), "%22%3C%3E%60");
    assert_eq!(encode("/tab\there"), "/tab%09here");
}

#[test]
fn encode_escapes_non_ascii_bytes() {
    assert_eq!(encode("/caf\u{e9}"), "/caf%C3%A9");
}

#[test]
fn encode_output_is_safe() {
    let samples = ["/api/ditto", "/a b", "\"<>`", "/caf\u{e9}", "\u{1}\u{1f}\u{7f}"];
    for s in samples.iter() {
        for c in encode(s).chars() {
            let u = c as u32;
            assert!(u > 0x20 && u < 0x7f);
            assert!(c != '"' && c != '<' && c != '>' && c != '`' && c != ' ');
        }
    }
}

#[test]
fn decode_inverts_encode() {
    let samples = ["/api/ditto", "/a b", "\"<>`", "/caf\u{e9}", "/static/greeting", ""];
    for s in samples.iter() {
        assert_eq!(decode(&encode(s)).unwrap(), *s);
        assert_eq!(decode_url(&encode_url(&s.to_string())).unwrap(), *s);
    }
}

#[test]
fn decode_passes_stray_percents_through() {
    assert_eq!(decode("100%").unwrap(), "100%");
    assert_eq!(decode("%zz").unwrap(), "%zz");
    assert_eq!(decode("%2").unwrap(), "%2");
}

#[test]
fn decode_rejects_invalid_utf8_escapes() {
    assert!(decode("%FF").is_err());
    assert!(decode("/a%C3").is_err());
    assert!(decode_url("%80%80").is_err());
}
