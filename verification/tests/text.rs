use codecrafters_git::text::{
    chars_of, is_whitespace, parse_u32, split_whitespace, string_of, to_hex, trim_end_matching,
    trim_whitespace,
};

fn cs(s: &str) -> Vec<char> {
    s.chars().collect()
}

#[test]
fn whitespace_matches_std() {
    for c in ['\t', '\n', ' ', '\u{85}', '\u{a0}', '\u{2003}', '\u{3000}', 'a', '0', '\0', 'é'] {
        assert_eq!(is_whitespace(c), c.is_whitespace(), "{:?}", c);
    }
}

#[test]
fn split_and_trim_match_std() {
    for s in ["", "  a  b\tc\n", "x", " \u{a0}y\u{2028}z "] {
        let words: Vec<String> =
            split_whitespace(&cs(s)).iter().map(|w| w.iter().collect()).collect();
        let expected: Vec<String> = s.split_whitespace().map(|w| w.to_string()).collect();
        assert_eq!(words, expected);
        let t: String = trim_whitespace(&cs(s)).iter().collect();
        assert_eq!(t, s.trim());
    }
    let t: String = trim_end_matching(&cs("ab\0\0"), '\0').iter().collect();
    assert_eq!(t, "ab");
}

#[test]
fn parse_u32_matches_std() {
    for s in ["0", "+7", "100644", "4294967295", "4294967296", "", "+", "-1", "1a", "007"] {
        assert_eq!(parse_u32(&cs(s)), s.parse::<u32>().ok(), "{:?}", s);
    }
}

#[test]
fn hex_and_chars() {
    assert_eq!(to_hex(&[0x00, 0x0f, 0xa0, 0xff]), "000fa0ff");
    assert_eq!(chars_of("héllo"), cs("héllo"));
    assert_eq!(string_of(&cs("ok")), "ok");
}
