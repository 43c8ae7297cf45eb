use enxamed::bencode::grammar::SyntaxError;
use enxamed::bencode::reader::parse;
use enxamed::bencode::value::Bencode;

fn bytes(value: &Bencode) -> &[u8] {
    match value {
        Bencode::Bytes(b) => b,
        other => panic!("{other:?}"),
    }
}

#[test]
fn reads_integers() {
    for n in [0, 1, -1, 10, -42, 9223372036854775807, -9223372036854775808i64] {
        let text = format!("i{n}e");
        assert_eq!(parse(text.as_bytes()).unwrap().as_int(), Some(n));
    }
}

#[test]
fn refuses_other_integers() {
    for text in [
        "ie", "i-e", "i-0e", "i00e", "i01e", "i-01e", "i+1e", "i1", "i1x", "1e", "i 1e",
        "i9223372036854775808e", "i-9223372036854775809e", "i99999999999999999999999e",
    ] {
        assert!(parse(text.as_bytes()).is_err(), "{text}");
    }
}

#[test]
fn reads_byte_strings() {
    assert_eq!(bytes(&parse(b"0:").unwrap()), b"");
    assert_eq!(bytes(&parse(b"4:i1e:").unwrap()), b"i1e:");
    assert_eq!(bytes(&parse(b"11:hello world").unwrap()), b"hello world");
    assert_eq!(bytes(&parse(b"2:\x00\xff").unwrap()), b"\x00\xff");
}

#[test]
fn refuses_other_byte_strings() {
    for text in ["", ":", "3:ab", "3:abcd", "03:abc", "3abc", "3", "-1:a", "99999999999999999999:a"] {
        assert!(parse(text.as_bytes()).is_err(), "{text}");
    }
}

#[test]
fn reads_nested_values() {
    let value = parse(b"d1:ali1el2:xyed1:bi-2eee1:zlee").unwrap();
    let Some(Bencode::List(items)) = value.get(b"a") else { panic!("{value:?}") };
    assert_eq!(items.len(), 3);
    assert_eq!(items[0].as_int(), Some(1));
    assert!(matches!(&items[1], Bencode::List(inner) if inner.len() == 1));
    assert_eq!(items[2].get(b"b").and_then(Bencode::as_int), Some(-2));
    assert!(matches!(value.get(b"z"), Some(Bencode::List(inner)) if inner.is_empty()));
    assert!(value.get(b"c").is_none());
}

#[test]
fn refuses_open_and_odd_containers() {
    for text in ["l", "d", "li1e", "d1:a", "d1:ae", "di1ei1ee", "d1:ai1e", "e", "le e", "lee", "dd"] {
        assert!(parse(text.as_bytes()).is_err(), "{text}");
    }
}

#[test]
fn looks_up_the_last_of_equal_keys() {
    let value = parse(b"d1:bi1e1:ai2e1:bi3ee").unwrap();
    assert_eq!(value.get(b"b").and_then(Bencode::as_int), Some(3));
    assert_eq!(value.get(b"a").and_then(Bencode::as_int), Some(2));
    assert!(value.get(b"").is_none());
    assert!(parse(b"le").unwrap().get(b"a").is_none());
}

#[test]
fn reads_text_if_it_is_utf8() {
    assert_eq!(parse(b"3:\xe2\x82\xac").unwrap().as_str(), Some("\u{20ac}"));
    assert_eq!(parse(b"0:").unwrap().as_str(), Some(""));
    assert_eq!(parse(b"1:\xff").unwrap().as_str(), None);
    assert_eq!(parse(b"2:\xc0\x80").unwrap().as_str(), None);
    assert_eq!(parse(b"3:\xed\xa0\x80").unwrap().as_str(), None);
    assert_eq!(parse(b"i1e").unwrap().as_str(), None);
    assert_eq!(parse(b"1:1").unwrap().as_int(), None);
}

#[test]
fn says_why_a_text_is_refused() {
    for (text, error, message) in [
        ("", SyntaxError::Empty, "no value"),
        ("i1", SyntaxError::Malformed, "malformed value"),
        ("<html>", SyntaxError::Malformed, "malformed value"),
        ("d1:a", SyntaxError::Malformed, "malformed value"),
        ("i1ei2e", SyntaxError::TrailingBytes(3), "trailing bytes at offset 3"),
        ("10:0123456789 ", SyntaxError::TrailingBytes(13), "trailing bytes at offset 13"),
    ] {
        let refused = parse(text.as_bytes()).unwrap_err();
        assert_eq!(refused, error);
        assert_eq!(refused.message(), message);
    }
}
