use base64::engine::general_purpose::URL_SAFE_NO_PAD;
use base64::Engine;
use hellodb::error::QueryError;
use hellodb::query::cursor::{cursor_from_text, parse_u64, Cursor, ParseIntFailure};

#[test]
fn cursor_roundtrip() {
    let cursor = Cursor::new("abc123def456".into(), 1700000000000);
    let encoded = cursor.encode();
    let decoded = Cursor::decode(&encoded).unwrap();
    assert_eq!(decoded.record_id, "abc123def456");
    assert_eq!(decoded.created_at_ms, 1700000000000);
}

#[test]
fn cursor_with_colon_in_record_id() {
    let cursor = Cursor::new("ns:rec:id".into(), 5000);
    let encoded = cursor.encode();
    let decoded = Cursor::decode(&encoded).unwrap();
    assert_eq!(decoded.record_id, "ns:rec:id");
    assert_eq!(decoded.created_at_ms, 5000);
}

#[test]
fn invalid_cursor_fails() {
    assert!(Cursor::decode("not-valid-base64!!!").is_err());
    let no_sep = URL_SAFE_NO_PAD.encode(b"noseparator");
    assert!(Cursor::decode(&no_sep).is_err());
}

#[test]
fn cursor_is_opaque_string() {
    let cursor = Cursor::new("test".into(), 1000);
    let encoded = cursor.encode();
    assert!(!encoded.contains("test"));
}

#[test]
fn cursor_encoding_is_base64_of_text() {
    let cursor = Cursor::new("r1".into(), 42);
    assert_eq!(cursor.encode(), URL_SAFE_NO_PAD.encode(b"r1:42"));
}

#[test]
fn cursor_error_messages() {
    match Cursor::decode(&URL_SAFE_NO_PAD.encode(b"noseparator")) {
        Err(QueryError::InvalidCursor(m)) => assert_eq!(m, "missing separator"),
        other => panic!("unexpected {:?}", other),
    }
    match Cursor::decode(&URL_SAFE_NO_PAD.encode(b"id:12x")) {
        Err(QueryError::InvalidCursor(m)) => {
            assert_eq!(m, "timestamp parse: invalid digit found in string")
        }
        other => panic!("unexpected {:?}", other),
    }
    match Cursor::decode(&URL_SAFE_NO_PAD.encode(b"id:")) {
        Err(QueryError::InvalidCursor(m)) => {
            assert_eq!(m, "timestamp parse: cannot parse integer from empty string")
        }
        other => panic!("unexpected {:?}", other),
    }
    match Cursor::decode(&URL_SAFE_NO_PAD.encode([0xffu8, 0xfe])) {
        Err(QueryError::InvalidCursor(m)) => {
            assert_eq!(m, "utf8 decode: invalid utf-8 sequence of 1 bytes from index 0")
        }
        other => panic!("unexpected {:?}", other),
    }
    match Cursor::decode("a") {
        Err(QueryError::InvalidCursor(m)) => assert!(m.starts_with("base64 decode: ")),
        other => panic!("unexpected {:?}", other),
    }
}

#[test]
fn parse_u64_matches_std() {
    for s in ["0", "+7", "18446744073709551615", "18446744073709551616", "", "+", "-1", "12a", "007"] {
        let ours = parse_u64(s);
        let std: Result<u64, _> = s.parse();
        match (ours, std) {
            (Ok(a), Ok(b)) => assert_eq!(a, b),
            (Err(f), Err(e)) => assert_eq!(f.message(), e.to_string()),
            (a, b) => panic!("{:?} vs {:?} on {:?}", a, b, s),
        }
    }
    assert_eq!(parse_u64(""), Err(ParseIntFailure::Empty));
}

#[test]
fn cursor_text_uses_last_colon() {
    let c = cursor_from_text("a:b:17").unwrap();
    assert_eq!(c.record_id, "a:b");
    assert_eq!(c.created_at_ms, 17);
}
