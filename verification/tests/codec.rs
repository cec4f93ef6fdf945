use cnterminal::codec::{
    ascii_to_hex, converter_send_text, escape_preview_bytes, hex_from_bytes, hex_to_ascii,
    parse_escaped_ascii, parse_hex_bytes, truncate_for_preview,
};

const FIVE: [u8; 5] = [0xAA, 0x55, 0x01, 0x00, 0xFF];

#[test]
fn hex_parse_spaced_pairs() {
    assert_eq!(parse_hex_bytes("AA 55 01 00 FF"), Ok(FIVE.to_vec()));
}

#[test]
fn hex_parse_lowercase_commas() {
    assert_eq!(parse_hex_bytes("aa,55,01,00,ff"), Ok(FIVE.to_vec()));
}

#[test]
fn hex_parse_0x_prefixes() {
    assert_eq!(parse_hex_bytes("0xAA 0x55 0x01 0x00 0xFF"), Ok(FIVE.to_vec()));
    assert_eq!(parse_hex_bytes("0XAA 0X55"), Ok(vec![0xAA, 0x55]));
}

#[test]
fn hex_parse_colons() {
    assert_eq!(parse_hex_bytes("AA:55:01:00:FF"), Ok(FIVE.to_vec()));
}

#[test]
fn hex_parse_glued_pairs() {
    assert_eq!(parse_hex_bytes("AA55 0100FF"), Ok(FIVE.to_vec()));
}

#[test]
fn hex_parse_other_separators() {
    assert_eq!(parse_hex_bytes("01;02-03_04\t05\n06"), Ok(vec![1, 2, 3, 4, 5, 6]));
}

#[test]
fn hex_parse_empty_and_blank() {
    assert_eq!(parse_hex_bytes(""), Ok(vec![]));
    assert_eq!(parse_hex_bytes("  \n "), Ok(vec![]));
}

#[test]
fn hex_parse_odd_token() {
    assert_eq!(
        parse_hex_bytes("AA 5"),
        Err("Token '5' has an odd number of hex digits (need pairs)".to_string())
    );
    assert_eq!(
        parse_hex_bytes("ABC"),
        Err("Token 'ABC' has an odd number of hex digits (need pairs)".to_string())
    );
}

#[test]
fn hex_parse_unexpected_character() {
    assert_eq!(parse_hex_bytes("AA ZZ"), Err("Unexpected character 'Z'".to_string()));
    assert_eq!(parse_hex_bytes("12 g"), Err("Unexpected character 'g'".to_string()));
}

#[test]
fn hex_parse_stx_etx_frame() {
    assert_eq!(
        parse_hex_bytes("02 41 35 30 30 03"),
        Ok(vec![0x02, 0x41, 0x35, 0x30, 0x30, 0x03])
    );
}

#[test]
fn hex_dump_format() {
    assert_eq!(hex_from_bytes(&[]), "");
    assert_eq!(hex_from_bytes(&[0x0A]), "0A");
    assert_eq!(hex_from_bytes(&[0x41, 0x30, 0x30, 0x0D, 0x0A]), "41 30 30 0D 0A");
    assert_eq!(hex_from_bytes(&FIVE), "AA 55 01 00 FF");
}

#[test]
fn hex_dump_parses_back() {
    let all: Vec<u8> = (0u16..256).map(|b| b as u8).collect();
    assert_eq!(parse_hex_bytes(&hex_from_bytes(&all)), Ok(all));
}

#[test]
fn escape_for_preview() {
    assert_eq!(escape_preview_bytes(b"A00\r\n"), "A00\\r\\n");
    assert_eq!(escape_preview_bytes(b"a\tb\\c"), "a\\tb\\\\c");
    assert_eq!(escape_preview_bytes(&[0x02, b'A', 0x03]), "\\x02A\\x03");
    assert_eq!(escape_preview_bytes(&[0x00, 0x7F, 0xFF]), "\\x00\\x7F\\xFF");
    assert_eq!(escape_preview_bytes(b"\"quoted\" ~"), "\"quoted\" ~");
}

#[test]
fn escape_parses_back() {
    let all: Vec<u8> = (0u16..256).map(|b| b as u8).collect();
    assert_eq!(parse_escaped_ascii(&escape_preview_bytes(&all)), Ok(all));
}

#[test]
fn unescape_known_escapes() {
    assert_eq!(
        parse_escaped_ascii("\\n\\r\\t\\0\\\\\\\"\\'"),
        Ok(vec![b'\n', b'\r', b'\t', 0, b'\\', b'"', b'\''])
    );
    assert_eq!(parse_escaped_ascii("\\x41\\X42\\xff"), Ok(vec![0x41, 0x42, 0xFF]));
    assert_eq!(parse_escaped_ascii("é"), Ok(vec![0xC3, 0xA9]));
}

#[test]
fn unescape_plus_sign_hex() {
    // The two characters after \x are read as a base-16 number, which may carry a '+' sign.
    assert_eq!(parse_escaped_ascii("\\x+F"), Ok(vec![0x0F]));
}

#[test]
fn unescape_errors() {
    assert_eq!(parse_escaped_ascii("abc\\"), Err("dangling backslash at end of input".to_string()));
    assert_eq!(parse_escaped_ascii("\\q"), Err("unknown escape: \\q".to_string()));
    assert_eq!(parse_escaped_ascii("\\x"), Err("expected hex digit after \\x".to_string()));
    assert_eq!(parse_escaped_ascii("\\x4"), Err("expected second hex digit after \\x".to_string()));
    assert_eq!(parse_escaped_ascii("\\xZZ"), Err("invalid \\x escape: \\xZZ".to_string()));
}

#[test]
fn truncation_for_preview() {
    assert_eq!(truncate_for_preview("abc", 3), ("abc".to_string(), false));
    assert_eq!(truncate_for_preview("abcd", 3), ("abc…".to_string(), true));
    assert_eq!(truncate_for_preview("ééé", 2), ("éé…".to_string(), true));
    assert_eq!(truncate_for_preview("", 0), (String::new(), false));
}

#[test]
fn converter_ascii_to_hex_examples() {
    assert_eq!(ascii_to_hex("\\x02A50000\\x03"), Ok("02 41 35 30 30 30 30 03".to_string()));
    assert_eq!(ascii_to_hex("Hello\\nWorld"), Ok("48 65 6C 6C 6F 0A 57 6F 72 6C 64".to_string()));
    assert_eq!(ascii_to_hex("\\q"), Err("unknown escape: \\q".to_string()));
}

#[test]
fn converter_hex_to_ascii_examples() {
    assert_eq!(hex_to_ascii("02 41 35 30 30 03"), Ok("\\x02A500\\x03".to_string()));
    assert_eq!(hex_to_ascii("4"), Err("Token '4' has an odd number of hex digits (need pairs)".to_string()));
}

#[test]
fn converter_text_for_send_box() {
    assert_eq!(converter_send_text("Hello\\nWorld"), "Hello\nWorld");
    // Escapes that do not decode are loaded as typed.
    assert_eq!(converter_send_text("bad\\q"), "bad\\q");
    // Bytes that are not UTF-8 are shown with the replacement character.
    assert_eq!(converter_send_text("\\xff"), "\u{FFFD}");
}
