use joblens::text::{normalize_token, str_contains, tokenize, u64_to_string};

#[test]
fn normalize_lowercases_and_strips() {
    assert_eq!(normalize_token("AbC!"), "abc");
    assert_eq!(normalize_token("Hello, World!"), "hello world");
    assert_eq!(normalize_token(""), "");
}

#[test]
fn normalize_keeps_plus_whitespace_digits() {
    assert_eq!(normalize_token("C++ 2024"), "c++ 2024");
    assert_eq!(normalize_token("a\tb\nc"), "a\tb\nc");
}

#[test]
fn normalize_keeps_unicode_letters() {
    assert_eq!(normalize_token("Caf\u{e9}"), "caf\u{e9}");
    assert_eq!(normalize_token("CAF\u{c9}"), "caf\u{e9}");
}

#[test]
fn normalize_is_idempotent_on_samples() {
    let samples = ["Hello, World!", "C++ & Rust", "  MiXeD 42  ", "", "\u{3b1}beta"];
    for s in samples {
        let once = normalize_token(s);
        let twice = normalize_token(&once);
        assert_eq!(once, twice);
    }
}

#[test]
fn tokenize_splits_on_whitespace() {
    assert_eq!(tokenize("Hello, world!"), vec!["hello", "world"]);
    assert_eq!(tokenize("  one   two  "), vec!["one", "two"]);
    assert_eq!(tokenize(""), Vec::<String>::new());
    assert_eq!(tokenize("   "), Vec::<String>::new());
}

#[test]
fn tokenize_trims_residual_punctuation() {
    // `+` survives normalization but is trimmed from token edges.
    assert_eq!(tokenize("C++ and Rust!"), vec!["c", "and", "rust"]);
    assert_eq!(tokenize("+++"), Vec::<String>::new());
    assert_eq!(tokenize("a+b"), vec!["a+b"]);
}

#[test]
fn tokenize_is_unicode_aware() {
    assert_eq!(tokenize("CAF\u{c9} Grande"), vec!["caf\u{e9}", "grande"]);
}

#[test]
fn contains_finds_substrings() {
    assert!(str_contains("senior developer", "senior"));
    assert!(str_contains("abc", ""));
    assert!(!str_contains("abc", "abcd"));
    assert!(!str_contains("python", "java"));
    assert!(str_contains("javascript", "java"));
}

#[test]
fn decimal_rendering() {
    assert_eq!(u64_to_string(0), "0");
    assert_eq!(u64_to_string(7), "7");
    assert_eq!(u64_to_string(105), "105");
    assert_eq!(u64_to_string(76600), "76600");
}
