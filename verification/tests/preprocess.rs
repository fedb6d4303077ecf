use nagisa_rs::preprocess::{normalize_nfkc, normalize_without_rstrip, preprocess, py_rstrip};

#[test]
fn nfkc_fullwidth_to_halfwidth() {
    let s = preprocess("ＡＢＣ");
    assert_eq!(s, "ABC");
}

#[test]
fn space_to_fullwidth() {
    assert_eq!(preprocess("a b"), "a\u{3000}b");
}

#[test]
fn dotless_i_replaced() {
    assert_eq!(preprocess("İ"), "I");
}

#[test]
fn rstrip_works() {
    assert_eq!(preprocess("foo   "), "foo");
    assert_eq!(preprocess("foo\t\n"), "foo");
}

#[test]
fn rstrip_unicode_white_space() {
    assert_eq!(py_rstrip("x\u{3000}\u{a0}\u{2009}"), "x");
    assert_eq!(py_rstrip("  x  y \u{85}"), "  x  y");
    assert_eq!(py_rstrip(" \t "), "");
    // U+200B is no white space.
    assert_eq!(py_rstrip("x\u{200b}"), "x\u{200b}");
}

#[test]
fn leading_space_kept_and_widened() {
    assert_eq!(preprocess("  a"), "\u{3000}\u{3000}a");
    assert_eq!(preprocess("   "), "");
}

#[test]
fn nfkc_wrapper_normalises() {
    assert_eq!(normalize_nfkc("ｱ"), "ア");
    assert_eq!(normalize_nfkc("①"), "1");
    assert_eq!(normalize_nfkc("ｶﾞ"), "ガ");
}

#[test]
fn without_rstrip_keeps_trailing_space() {
    assert_eq!(normalize_without_rstrip(" "), "\u{3000}");
    assert_eq!(normalize_without_rstrip("\u{3000}"), "\u{3000}");
    assert_eq!(preprocess("\u{3000}"), "");
}

use nagisa_rs::preprocess::is_white_space_char;

#[test]
fn white_space_matches_std() {
    for u in 0u32..=0x10FFFF {
        if let Some(c) = char::from_u32(u) {
            assert_eq!(is_white_space_char(c), c.is_whitespace(), "U+{u:04X}");
        }
    }
}

#[test]
fn rstrip_matches_std_trim_end() {
    for s in ["a \u{2028}\u{2029}", "\u{1680}b\u{205f}", "c\u{202f}\u{200a}", "d\u{1c}", "e\u{180e}"] {
        assert_eq!(py_rstrip(s), s.trim_end());
    }
}
