use notegraph::ids::{decode_id, encode_id, is_base32_url, parse_note_id, NoteId};
use notegraph::segment::split_note_value;
use notegraph::text::{fmt_u64, parse_usize, str_eq, to_ascii_lower, to_ascii_upper};

#[test]
fn id_text_round_trips() {
    let mut bytes = [0u8; 32];
    for (i, b) in bytes.iter_mut().enumerate() {
        *b = (i as u8).wrapping_mul(37).wrapping_add(11);
    }
    let text = encode_id(bytes);
    assert_eq!(text.len(), 52);
    assert!(is_base32_url(&text));
    assert_eq!(decode_id(&text), Some(bytes));
    // mixed case decodes to the same identifier
    let upper = text.to_uppercase();
    assert_eq!(decode_id(&upper), Some(bytes));
}

#[test]
fn encode_id_matches_the_underlying_encoding() {
    let bytes = [0u8; 32];
    // thirty-two zero bytes are fifty-two `a` symbols
    assert_eq!(encode_id(bytes), "a".repeat(52));
    let other = [255u8; 32];
    assert_eq!(
        encode_id(other),
        data_encoding::BASE32_NOPAD.encode(&other).to_lowercase()
    );
}

#[test]
fn parse_note_id_accepts_only_well_shaped_text() {
    let id = NoteId::from_bytes([9u8; 32]);
    let text = encode_id(id.to_bytes());
    let parsed = parse_note_id(&text).unwrap();
    assert_eq!(parsed.to_bytes(), id.to_bytes());
    assert!(parse_note_id("").is_err());
    assert!(parse_note_id("abc").is_err());
    // wrong length
    assert!(parse_note_id(&"a".repeat(51)).is_err());
    // a character outside the alphabet: `1` is not a base32 symbol
    let mut bad = "a".repeat(51);
    bad.push('1');
    assert!(parse_note_id(&bad).is_err());
    // right shape but non-canonical trailing bits
    let mut padded = "a".repeat(51);
    padded.push('z');
    assert!(parse_note_id(&padded).is_err());
}

#[test]
fn eq_id_compares_by_bytes() {
    let a = NoteId::from_bytes([1u8; 32]);
    let b = NoteId::from_bytes([1u8; 32]);
    let c = NoteId::from_bytes([2u8; 32]);
    assert!(a.eq_id(&b));
    assert!(!a.eq_id(&c));
}

#[test]
fn ascii_case_mapping() {
    assert_eq!(to_ascii_lower("AbC2-7z"), "abc2-7z");
    assert_eq!(to_ascii_upper("AbC2-7z"), "ABC2-7Z");
    // non-ASCII characters stay themselves
    assert_eq!(to_ascii_lower("Aé"), "aé");
}

#[test]
fn string_equality_is_by_characters() {
    assert!(str_eq("hello", "hello"));
    assert!(!str_eq("hello", "hellO"));
    assert!(!str_eq("hello", "hell"));
    assert!(str_eq("", ""));
}

#[test]
fn parse_usize_is_exact() {
    assert_eq!(parse_usize("0"), Some(0));
    assert_eq!(parse_usize("123"), Some(123));
    assert_eq!(parse_usize("+7"), Some(7));
    assert_eq!(parse_usize(""), None);
    assert_eq!(parse_usize("+"), None);
    assert_eq!(parse_usize("12a"), None);
    assert_eq!(parse_usize("-1"), None);
    assert_eq!(parse_usize("99999999999999999999999999"), None);
}

#[test]
fn fmt_u64_renders_decimal() {
    assert_eq!(fmt_u64(0), "0");
    assert_eq!(fmt_u64(7), "7");
    assert_eq!(fmt_u64(12345), "12345");
    assert_eq!(fmt_u64(u64::MAX), "18446744073709551615");
}

#[test]
fn split_of_empty_text_is_one_empty_segment() {
    let segments = split_note_value("", 1024);
    assert_eq!(segments, vec![String::new()]);
}

#[test]
fn split_is_greedy_by_bytes() {
    let segments = split_note_value("abcdef", 4);
    assert_eq!(segments, vec!["abcd".to_string(), "ef".to_string()]);
    let segments = split_note_value("abcd", 4);
    assert_eq!(segments, vec!["abcd".to_string()]);
}

#[test]
fn split_never_splits_a_character() {
    // `é` takes two bytes; it does not fit after three one-byte characters
    let segments = split_note_value("aaaé", 4);
    assert_eq!(segments, vec!["aaa".to_string(), "é".to_string()]);
    // every segment is valid UTF-8 by construction and re-joins to the input
    assert_eq!(segments.concat(), "aaaé");
}

#[test]
fn split_respects_the_note_size_bound() {
    let text = "x".repeat(2500);
    let segments = split_note_value(&text, 1024);
    assert_eq!(segments.len(), 3);
    assert_eq!(segments[0].len(), 1024);
    assert_eq!(segments[1].len(), 1024);
    assert_eq!(segments[2].len(), 452);
    assert_eq!(segments.concat(), text);
}
