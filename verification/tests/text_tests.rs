use img_tool::text::{
    chars_of, contains_str, decimal_string, ends_with_str, parse_unsigned_decimal, replace_str,
    split_on, str_eq,
};

#[test]
fn parse_unsigned_decimal_agrees_with_std() {
    let cases = [
        "0", "7", "+7", "42", "0042", "4294967295", "4294967296", "99999999999", "", "+", "-1",
        "-0", "1a", " 1", "1 ", "++1", "255", "256", "٣",
    ];
    for s in cases {
        assert_eq!(parse_unsigned_decimal(s, u32::MAX), s.parse::<u32>().ok(), "u32 {:?}", s);
        assert_eq!(
            parse_unsigned_decimal(s, 255).map(|v| v as u8),
            s.parse::<u8>().ok(),
            "u8 {:?}",
            s
        );
    }
}

#[test]
fn decimal_string_matches_display() {
    for n in [0u32, 1, 9, 10, 99, 100, 12345, u32::MAX] {
        assert_eq!(decimal_string(n), n.to_string());
    }
}

#[test]
fn split_keeps_empty_pieces() {
    assert_eq!(split_on("a-b", '-', '-'), vec!["a", "b"]);
    assert_eq!(split_on("top-", '-', '-'), vec!["top", ""]);
    assert_eq!(split_on("", '-', '-'), vec![""]);
    assert_eq!(split_on("12x3X4", 'x', 'X'), vec!["12", "3", "4"]);
    assert_eq!(split_on("é-ü", '-', '-'), vec!["é", "ü"]);
}

#[test]
fn search_and_replace() {
    assert!(contains_str("tile_$col", "$col"));
    assert!(!contains_str("tile", "$col"));
    assert!(contains_str("abc", ""));
    assert!(ends_with_str("image.png", ".png"));
    assert!(!ends_with_str("png", ".png"));
    assert_eq!(replace_str("$col-$col", "$col", "12"), "12-12");
    assert_eq!(replace_str("aaa", "aa", "b"), "aaa".replace("aa", "b"));
    assert_eq!(replace_str("no match", "$row", "1"), "no match");
    assert_eq!(chars_of("héllo"), vec!['h', 'é', 'l', 'l', 'o']);
    assert!(str_eq("same", "same"));
    assert!(!str_eq("same", "Same"));
}
