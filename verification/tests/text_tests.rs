use voxelith::text::{chars_of, is_control, is_whitespace, string_of, trim};

#[test]
fn trim_both_ends() {
    assert_eq!(trim("  hi there \t"), "hi there");
    assert_eq!(trim("x"), "x");
    assert_eq!(trim(""), "");
    assert_eq!(trim(" \n\r\t "), "");
    assert_eq!(trim("\u{3000}wide\u{a0}"), "wide");
}

#[test]
fn whitespace_matches_std() {
    for c in [' ', '\t', '\n', '\r', '\u{b}', '\u{c}', '\u{85}', '\u{a0}', '\u{1680}', '\u{2000}', '\u{200a}', '\u{2028}', '\u{2029}', '\u{202f}', '\u{205f}', '\u{3000}', 'a', '0', '\u{200b}', 'é'] {
        assert_eq!(is_whitespace(c), c.is_whitespace(), "{:?}", c);
    }
}

#[test]
fn control_matches_std() {
    for c in ['\0', '\u{1f}', ' ', '~', '\u{7f}', '\u{80}', '\u{9f}', '\u{a0}', 'a', '\n'] {
        assert_eq!(is_control(c), c.is_control(), "{:?}", c);
    }
}

#[test]
fn chars_and_back() {
    let v = chars_of("héllo");
    assert_eq!(v, vec!['h', 'é', 'l', 'l', 'o']);
    assert_eq!(string_of(&v, 1, 4), "éll");
    assert_eq!(string_of(&v, 2, 2), "");
}
