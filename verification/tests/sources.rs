use cargo_lock_align::source::{
    hex_value, is_registry_source, normalize_source_for_key, percent_decode, short_precise,
    source_precise,
};
use cargo_lock_align::text::{begins_with, comes_before, pad_right};

#[test]
fn revision_is_what_follows_the_first_hash() {
    assert_eq!(source_precise("git+https://a/b#123").as_deref(), Some("123"));
    assert_eq!(source_precise("git+https://a/b#1#2").as_deref(), Some("1#2"));
    assert_eq!(source_precise("git+https://a/b#").as_deref(), Some(""));
    assert_eq!(source_precise("registry+https://a/b"), None);
    assert_eq!(source_precise(""), None);
}

#[test]
fn normalizing_drops_the_revision() {
    assert_eq!(
        normalize_source_for_key("git+https://a/b?rev=1#0123"),
        "git+https://a/b?rev=1",
    );
    assert_eq!(
        normalize_source_for_key("registry+https://a/b"),
        "registry+https://a/b",
    );
    assert_eq!(normalize_source_for_key("#git+x"), "");
}

#[test]
fn only_git_sources_are_unescaped() {
    assert_eq!(
        normalize_source_for_key("git+https://a/b?branch=v%2f1#9"),
        "git+https://a/b?branch=v/1",
    );
    assert_eq!(
        normalize_source_for_key("registry+https://a/b%2F1#9"),
        "registry+https://a/b%2F1",
    );
}

#[test]
fn escaped_and_plain_characters_name_the_same_source() {
    for (escape, plain) in [
        ("%2F", "/"),
        ("%2f", "/"),
        ("%3A", ":"),
        ("%7E", "~"),
        ("%41", "A"),
        ("%C3%A9", "\u{e9}"),
        ("%e2%82%ac", "\u{20ac}"),
        ("%F0%9F%A6%80", "\u{1f980}"),
    ] {
        assert_eq!(
            normalize_source_for_key(&format!("git+https://a/b?branch=v{}1#11", escape)),
            normalize_source_for_key(&format!("git+https://a/b?branch=v{}1#22", plain)),
        );
    }
}

#[test]
fn plain_digit_may_complete_an_escape() {
    assert_eq!(percent_decode("%4%31"), "%41");
    assert_eq!(percent_decode("%41"), "A");
}

#[test]
fn escapes_are_resolved_from_the_left() {
    assert_eq!(percent_decode("a%41b%7ec"), "aAb~c");
    assert_eq!(percent_decode("%2541"), "%41");
    assert_eq!(percent_decode("%FF"), "\u{ff}");
}

#[test]
fn broken_escapes_stay() {
    assert_eq!(percent_decode("%"), "%");
    assert_eq!(percent_decode("ab%2"), "ab%2");
    assert_eq!(percent_decode("%zz%%41"), "%zz%A");
    assert_eq!(percent_decode(""), "");
}

#[test]
fn bytes_beyond_ascii_become_one_character_each() {
    assert_eq!(percent_decode("\u{e9}"), "\u{c3}\u{a9}");
}

#[test]
fn hexadecimal_digits() {
    assert_eq!(hex_value(b'0'), Some(0));
    assert_eq!(hex_value(b'9'), Some(9));
    assert_eq!(hex_value(b'a'), Some(10));
    assert_eq!(hex_value(b'F'), Some(15));
    assert_eq!(hex_value(b'g'), None);
    assert_eq!(hex_value(b'/'), None);
    assert_eq!(hex_value(b':'), None);
    assert_eq!(hex_value(b'@'), None);
    assert_eq!(hex_value(b'`'), None);
}

#[test]
fn registry_sources_begin_with_registry() {
    assert!(is_registry_source("registry+https://github.com/rust-lang/crates.io-index"));
    assert!(is_registry_source("registry+"));
    assert!(!is_registry_source("registry"));
    assert!(!is_registry_source("git+https://a/registry+b"));
    assert!(!is_registry_source("sparse+https://index.crates.io/"));
}

#[test]
fn short_revision_has_eight_bytes() {
    assert_eq!(short_precise("0123456789abcdef"), "01234567");
    assert_eq!(short_precise("01234567"), "01234567");
    assert_eq!(short_precise("0123"), "0123");
    assert_eq!(short_precise(""), "");
}

#[test]
fn short_revision_does_not_cut_a_character() {
    assert_eq!(short_precise("1234567\u{e9}89"), "1234567\u{e9}89");
    assert_eq!(short_precise("123456\u{e9}89"), "123456\u{e9}");
}

#[test]
fn text_helpers() {
    assert!(begins_with("git+ssh", "git+"));
    assert!(begins_with("git+", ""));
    assert!(!begins_with("git", "git+"));
    assert!(comes_before("a", "b"));
    assert!(comes_before("a", "ab"));
    assert!(comes_before("", "a"));
    assert!(!comes_before("ab", "ab"));
    assert!(!comes_before("b", "ab"));
    assert_eq!(pad_right("ab", 4), "ab  ");
    assert_eq!(pad_right("abcd", 4), "abcd");
    assert_eq!(pad_right("abcde", 4), "abcde");
}
