use tacks::strutil::{contains_sub, dec_u64, hex4_str, lex_le, lower_str, parse_u8, str_eq, trim_str};

#[test]
fn string_equality() {
    assert!(str_eq("abc", "abc"));
    assert!(!str_eq("abc", "abd"));
    assert!(!str_eq("abc", "ab"));
    assert!(str_eq("", ""));
}

#[test]
fn lowercasing_is_ascii_only() {
    assert_eq!(lower_str("Open TASK 7"), "open task 7");
    assert_eq!(lower_str(""), "");
}

#[test]
fn decimal_rendering() {
    assert_eq!(dec_u64(0), "0");
    assert_eq!(dec_u64(7), "7");
    assert_eq!(dec_u64(240), "240");
    assert_eq!(dec_u64(u64::MAX), u64::MAX.to_string());
}

#[test]
fn hex_rendering_low_bits() {
    assert_eq!(hex4_str(0), "0000");
    assert_eq!(hex4_str(0xabcd), "abcd");
    assert_eq!(hex4_str(0x1_f00d), "f00d");
}

#[test]
fn u8_parsing_matches_std() {
    for input in ["0", "7", "255", "256", "+5", "", " 3", "3 ", "1e", "-1", "007"] {
        assert_eq!(parse_u8(input), input.parse::<u8>().ok(), "input {input:?}");
    }
}

#[test]
fn trimming() {
    assert_eq!(trim_str("  padded  "), "padded");
    assert_eq!(trim_str("\t\nmix \r"), "mix");
    assert_eq!(trim_str("   "), "");
    assert_eq!(trim_str("solid"), "solid");
}

#[test]
fn lexicographic_compare() {
    assert!(lex_le("a", "b"));
    assert!(lex_le("a", "a"));
    assert!(!lex_le("b", "a"));
    assert!(lex_le("tk-1.1", "tk-1.10"));
    assert!(lex_le("tk-1.10", "tk-1.2"));
}

#[test]
fn substring_search() {
    assert!(contains_sub("hello world", "o wo"));
    assert!(contains_sub("hello", ""));
    assert!(!contains_sub("hello", "world"));
    assert!(!contains_sub("hi", "longer"));
}
