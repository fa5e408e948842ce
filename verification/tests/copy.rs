use grove::glob::{filter_by_paths, glob_match, matching_files};
use grove::summary::{warn_copy_failures, emit_copy_report, copy_report, summarize_files, CopyReport};

fn strings(v: &[&str]) -> Vec<String> {
    v.iter().map(|s| s.to_string()).collect()
}

#[test]
fn test_filter_by_paths_empty() {
    let files = vec!["a.log".to_string(), "b.log".to_string()];
    let filtered = filter_by_paths(files.clone(), &vec![]);
    assert_eq!(filtered, files);
}

#[test]
fn test_filter_by_paths_exact() {
    let files = vec![".env".to_string(), "app.log".to_string()];
    let filtered = filter_by_paths(files, &vec![".env".to_string()]);
    assert_eq!(filtered, vec![".env"]);
}

#[test]
fn test_filter_by_paths_prefix() {
    let files = vec!["logs/app.log".to_string(), "logs/error.log".to_string(), ".env".to_string()];
    let filtered = filter_by_paths(files, &vec!["logs".to_string()]);
    assert_eq!(filtered, vec!["logs/app.log", "logs/error.log"]);
}

#[test]
fn filter_by_paths_ignores_trailing_slashes() {
    let files = strings(&["logs/app.log", "logsx/a", "logs"]);
    assert_eq!(filter_by_paths(files, &strings(&["logs/"])), vec!["logs/app.log", "logs"]);
}

#[test]
fn glob_matching() {
    let m = |p: &str, t: &str| glob_match(&p.chars().collect(), &t.chars().collect());
    assert!(m(".env*", ".env"));
    assert!(m(".env*", ".env.local"));
    assert!(!m(".env*", "x.env"));
    assert!(m("*.log", "app.log"));
    assert!(!m("*.log", "app.log.1"));
    assert!(m("a*b*c", "axxbyyc"));
    assert!(!m("a*b*c", "acb"));
    assert!(m("*", "anything"));
    assert!(m(".env", ".env"));
    assert!(!m(".env", ".envx"));
    assert!(!m("ab*ba", "aba"));
    assert!(m("ab*ba", "abba"));
    assert!(m("ab*ba", "abxba"));
    assert!(!m("a*bc*cd", "abcd"));
    assert!(m("a*bc*cd", "abccd"));
    assert!(m("a**a", "aa"));
    assert!(!m("a**a", "a"));
    assert!(m("a*b*c", "a*b*c"));
    assert!(m(".env*", ".env*"));
}

#[test]
fn copy_patterns_choose_ignored_files() {
    let ignored = strings(&[".env", ".env.local", ".terraform/a", ".terraform/b/c", "node_modules/x", "app.log", ".mise.local.toml"]);
    let chosen = matching_files(&ignored, &strings(&[".env*", ".terraform/", ".mise.local.toml"]));
    assert_eq!(chosen, strings(&[".env", ".env.local", ".terraform/a", ".terraform/b/c", ".mise.local.toml"]));
    assert!(matching_files(&ignored, &vec![]).is_empty());
}

#[test]
fn summary_lists_root_files_then_largest_directories() {
    let files = strings(&["b.txt", "d1/x", "a.txt", "d2/x", "d2/y", "d1/z", "d2/w"]);
    let s = summarize_files(&files);
    assert_eq!(s, strings(&["a.txt", "b.txt", "d2/ (3 files)", "d1/ (2 files)"]));
}

#[test]
fn summary_caps_directories_at_five() {
    let files = strings(&["a/1", "b/1", "b/2", "c/1", "d/1", "e/1", "f/1", "g/1"]);
    let s = summarize_files(&files);
    assert_eq!(s.len(), 6);
    assert_eq!(s[0], "b/ (2 files)");
    assert_eq!(s[5], "+ 2 more directories");
}

#[test]
fn summary_of_nothing_is_empty() {
    assert!(summarize_files(&vec![]).is_empty());
}

#[test]
fn copy_report_counts_and_sorts_failures() {
    let r = copy_report(vec![
        ("z".to_string(), Some("denied".to_string())),
        ("a".to_string(), None),
        ("b".to_string(), Some("gone".to_string())),
        ("c".to_string(), None),
    ]);
    assert_eq!(r.copied, 2);
    assert_eq!(r.failed, vec![("b".to_string(), "gone".to_string()), ("z".to_string(), "denied".to_string())]);
}

#[test]
fn copy_records_and_warning() {
    let r = CopyReport { copied: 3, failed: vec![("x".to_string(), "boom".to_string())] };
    assert_eq!(emit_copy_report(&r), vec![strings(&["copied", "3"]), strings(&["copyfail", "x", "boom"])]);
    assert_eq!(warn_copy_failures(&r), strings(&["⚠ 1 file(s) could not be copied", "x: boom"]));
    let clean = CopyReport { copied: 0, failed: vec![] };
    assert!(warn_copy_failures(&clean).is_empty());
    let many = CopyReport {
        copied: 0,
        failed: (0..7).map(|i| (format!("f{}", i), "e".to_string())).collect(),
    };
    let lines = warn_copy_failures(&many);
    assert_eq!(lines.len(), 7);
    assert_eq!(lines[0], "⚠ 7 file(s) could not be copied");
    assert_eq!(lines[5], "f4: e");
    assert_eq!(lines[6], "+ 2 more");
}
