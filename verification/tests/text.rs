use ipmark::bytes::{read_le_u24, read_le_u32_at, read_le_u64_at};
use ipmark::qqwry::parse_u32_piece;
use ipmark::text::{
    blank_line_breaks_text, decimal_text, is_white_space_char, join_with_spaces, replace_text,
    trim_to_string,
};

#[test]
fn trims_unicode_whitespace() {
    assert_eq!(trim_to_string("  a b \t\n"), "a b");
    assert_eq!(trim_to_string("\u{3000}x\u{a0}"), "x");
    assert_eq!(trim_to_string("   "), "");
    assert_eq!(trim_to_string(""), "");
    assert_eq!(trim_to_string("\u{200b}x"), "\u{200b}x");
}

#[test]
fn white_space_matches_std() {
    for c in ['\t', '\n', '\u{b}', '\u{c}', '\r', ' ', '\u{85}', '\u{a0}', '\u{1680}', '\u{2000}', '\u{200a}', '\u{2028}', '\u{2029}', '\u{202f}', '\u{205f}', '\u{3000}', 'a', '\u{200b}', '\u{feff}', '\u{180e}'] {
        assert_eq!(is_white_space_char(c), c.is_whitespace(), "{:?}", c);
    }
}

#[test]
fn joins_with_spaces() {
    assert_eq!(join_with_spaces(&vec![]), "");
    assert_eq!(join_with_spaces(&vec!["a".to_string()]), "a");
    assert_eq!(join_with_spaces(&vec!["a".to_string(), "".to_string(), "c".to_string()]), "a  c");
}

#[test]
fn replaces_like_std() {
    for (s, pat, rep) in [("x CZ88.NET", " CZ88.NET", ""), ("aaa", "aa", "b"), ("abc", "", "-"), ("", "a", "b"), ("a CZ88.NET CZ88.NET", " CZ88.NET", "")] {
        let ours = replace_text(s, pat, rep);
        if pat.is_empty() {
            assert_eq!(ours, s);
        } else {
            assert_eq!(ours, s.replace(pat, rep));
        }
    }
}

#[test]
fn blanks_line_breaks() {
    assert_eq!(blank_line_breaks_text("a\nb\tc\r"), "a b c\r");
}

#[test]
fn decimal_digits() {
    assert_eq!(decimal_text(0), "0");
    assert_eq!(decimal_text(7), "7");
    assert_eq!(decimal_text(13335), "13335");
    assert_eq!(decimal_text(u32::MAX), "4294967295");
}

#[test]
fn little_endian_reads() {
    let d = [1u8, 2, 3, 4, 5, 6, 7, 8, 9];
    assert_eq!(read_le_u24(&d, 1), 0x040302);
    assert_eq!(read_le_u32_at(&d, 0), 0x04030201);
    assert_eq!(read_le_u64_at(&d, 1), 0x0908070605040302);
}

#[test]
fn parses_pieces_as_u32() {
    assert_eq!(parse_u32_piece("x12y", 1, 3), Some(12));
    assert_eq!(parse_u32_piece("+7", 0, 2), Some(7));
    assert_eq!(parse_u32_piece("+", 0, 1), None);
    assert_eq!(parse_u32_piece("", 0, 0), None);
    assert_eq!(parse_u32_piece("4294967295", 0, 10), Some(u32::MAX));
    assert_eq!(parse_u32_piece("4294967296", 0, 10), None);
    assert_eq!(parse_u32_piece("99999999999999999999", 0, 20), None);
    assert_eq!(parse_u32_piece("1a", 0, 2), None);
    assert_eq!(parse_u32_piece("١", 0, 1), None);
}

#[test]
fn pieces_parse_as_std_does() {
    for s in ["0", "00", "+0", "+", "-0", "-", "12a", " 1", "1 ", "4294967295", "4294967296", "+4294967295", "0004294967295", "١٢", "++1", "99"] {
        let n = s.chars().count();
        assert_eq!(parse_u32_piece(s, 0, n), s.parse::<u32>().ok(), "{:?}", s);
    }
}
