use mal::util::{escape, unescape};

#[test]
fn escape_substitutes_each_special_character() {
    assert_eq!(escape("a\"b\\c\nd"), "a\\\"b\\\\c\\nd");
    assert_eq!(escape("\r\t"), "\\r\\t");
    assert_eq!(escape("\u{8}\u{c}"), "\\b\\f");
    assert_eq!(escape("plain"), "plain");
    assert_eq!(escape(""), "");
}

#[test]
fn unescape_recognizes_escape_units() {
    assert_eq!(unescape("\\n"), "\n");
    assert_eq!(unescape("\\r\\t\\b\\f"), "\r\t\u{8}\u{c}");
    assert_eq!(unescape("\\\""), "\"");
    assert_eq!(unescape("\\\\"), "\\");
    assert_eq!(unescape("plain"), "plain");
}

#[test]
fn unescape_trailing_lone_backslash_stays_literal() {
    assert_eq!(unescape("abc\\"), "abc\\");
}

#[test]
fn unescape_unknown_escape_stays_literal() {
    assert_eq!(unescape("a\\xb"), "a\\xb");
}

#[test]
fn unescape_is_one_stateful_scan_not_three_substitutions() {
    // A literal backslash followed by a literal `n` must survive the
    // round trip; naive sequential substring replacement corrupts it.
    let s = "\\n";
    assert_eq!(unescape(&escape(s)), s);
}

#[test]
fn unescape_inverts_escape() {
    let cases = [
        "",
        "hello",
        "a\"b",
        "a\\b",
        "a\nb\rc\td",
        "\u{8}\u{c}",
        "\\\\\\",
        "\"\"\"",
        "mixed \\n \"q\" \t end\\",
    ];
    for s in cases {
        assert_eq!(unescape(&escape(s)), s);
    }
}
