use grove::commands::{cat, cat3, cd_record, path_record};
use grove::config::{Config, RawConfig, RawHooks};
use grove::git::lines_of;
use grove::glob::split_at_char;
use grove::meta::{contains_text, Meta, WorktreeInfo};
use grove::paths::components_of;
use grove::text::{
    chars_of, decimal_text, find_from, has_prefix, has_suffix, matches_at, owned, same_text,
    string_from_chars, text_less, text_less_str, trim_text,
};

fn chars(s: &str) -> Vec<char> {
    s.chars().collect()
}

#[test]
fn character_helpers() {
    assert_eq!(chars_of("héllo"), chars("héllo"));
    assert_eq!(string_from_chars(&chars("wörd")), "wörd");
    assert_eq!(owned("x"), "x");
    assert!(same_text("a/b", "a/b"));
    assert!(!same_text("a/b", "a/c"));
    assert_eq!(cat("a", "b"), "ab");
    assert_eq!(cat3("a", "b", "c"), "abc");
}

#[test]
fn prefixes_suffixes_and_search() {
    assert!(has_prefix(&chars(".env.local"), &chars(".env")));
    assert!(!has_prefix(&chars(".e"), &chars(".env")));
    assert!(has_suffix(&chars("app.log"), &chars(".log")));
    assert!(!has_suffix(&chars("app.log.1"), &chars(".log")));
    assert!(matches_at(&chars("abcabc"), &chars("ca"), 2));
    assert_eq!(find_from(&chars("abcabc"), &chars("bc"), 0), Some(1));
    assert_eq!(find_from(&chars("abcabc"), &chars("bc"), 2), Some(4));
    assert_eq!(find_from(&chars("abcabc"), &chars("x"), 0), None);
}

#[test]
fn decimal_numerals() {
    assert_eq!(decimal_text(0), "0");
    assert_eq!(decimal_text(7), "7");
    assert_eq!(decimal_text(10), "10");
    assert_eq!(decimal_text(4294967296), "4294967296");
    assert_eq!(decimal_text(u64::MAX), "18446744073709551615");
}

#[test]
fn trimming_follows_str_trim() {
    for s in ["  a b \n", "\t\r\nx", "none", "", "   ", "\u{3000}y\u{a0}"] {
        assert_eq!(trim_text(s), s.trim());
    }
}

#[test]
fn text_order_is_code_point_order() {
    assert!(text_less_str("alpha", "beta"));
    assert!(text_less_str("a", "ab"));
    assert!(!text_less_str("ab", "a"));
    assert!(!text_less_str("same", "same"));
    assert!(text_less_str("Z", "a"));
    assert!(text_less(&chars("child-a"), &chars("child-b")));
    let mut v = vec!["é", "e", "z", "E"];
    v.sort();
    for w in v.windows(2) {
        assert!(text_less_str(w[0], w[1]));
    }
}

#[test]
fn lines_and_pieces() {
    let to_strings = |v: Vec<Vec<char>>| v.into_iter().map(|l| l.into_iter().collect::<String>()).collect::<Vec<_>>();
    assert_eq!(to_strings(lines_of("a\r\nb\n\nc")), vec!["a", "b", "", "c"]);
    assert_eq!(to_strings(lines_of("x\n")), vec!["x"]);
    assert_eq!(to_strings(split_at_char(&chars("a*b**c"), '*')), vec!["a", "b", "", "c"]);
    assert_eq!(to_strings(split_at_char(&chars(""), '*')), vec![""]);
    assert_eq!(to_strings(components_of(&chars("/a//b/./c"))), vec!["/", "a", "b", "c"]);
    assert_eq!(to_strings(components_of(&chars("rel/x/"))), vec!["rel", "x"]);
}

#[test]
fn records_for_path_and_cd() {
    assert_eq!(path_record("/p"), vec!["path", "/p"]);
    assert_eq!(cd_record("/q"), vec!["cd", "/q"]);
}

#[test]
fn merging_raw_configs() {
    assert_eq!(RawConfig::empty(), RawConfig { copy: vec![], copy_ignored: None, hooks: None });
    let global = RawConfig { copy: vec!["a".to_string()], copy_ignored: Some(true), hooks: None };
    let local = RawConfig {
        copy: vec!["b".to_string()],
        copy_ignored: None,
        hooks: Some(RawHooks { post_create: vec![], pre_remove: vec![] }),
    };
    let c = Config::merge(global, local);
    assert_eq!(c.copy, vec!["a", "b"]);
    assert!(c.copy_ignored);
}

#[test]
fn registry_accessors() {
    let meta = Meta::new("/repo".to_string());
    assert_eq!(meta.repo_root(), "/repo");
    let info = WorktreeInfo { branch: "b".to_string(), parent: Some("1".to_string()), created: "t".to_string() };
    assert_eq!(info.duplicate(), info);
    assert!(contains_text(&vec!["x".to_string(), "y".to_string()], "y"));
    assert!(!contains_text(&vec![], "y"));
}
