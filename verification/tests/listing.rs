use grove::listing::{
    collect_entries, collect_status, interactive_choices, emit_listing, wt_record, wt_slot, Entry, Slot,
    WorktreeStatus,
};
use grove::meta::Meta;
use grove::render::{print_worktree_entry, render_entries, Segment, Style};

fn clean(dir_exists: bool) -> WorktreeStatus {
    WorktreeStatus { has_modified: false, has_untracked: false, ahead: 0, behind: 0, dir_exists }
}

/// feature(1) with children sub(2) and fix(3); alpha(4) top level; lost(5)
/// whose parent 9 is gone.
fn sample() -> Meta {
    let mut meta = Meta::new("/repo".to_string());
    let f = meta.add_worktree("feature", None).unwrap();
    meta.add_worktree("sub", Some(&f)).unwrap();
    meta.add_worktree("fix", Some(&f)).unwrap();
    meta.add_worktree("alpha", None).unwrap();
    meta.add_worktree_at("lost", Some("9"), "t".to_string()).unwrap();
    meta
}

fn summary(s: &Slot) -> (Option<String>, String, usize, bool, bool, bool, bool, Option<String>, Option<String>) {
    (s.id.clone(), s.branch.clone(), s.depth, s.is_last, s.has_children, s.is_current, s.is_orphan, s.parent.clone(), s.compare_to.clone())
}

fn o(s: &str) -> Option<String> {
    Some(s.to_string())
}

#[test]
fn entries_follow_the_tree() {
    let meta = sample();
    let (slots, orphan_start) = collect_entries(&meta, Some("2"), "main");
    let got: Vec<_> = slots.iter().map(summary).collect();
    assert_eq!(
        got,
        vec![
            (None, "main".to_string(), 0, false, false, false, false, None, None),
            (o("4"), "alpha".to_string(), 0, false, false, false, false, None, o("main")),
            (o("1"), "feature".to_string(), 0, false, true, false, false, None, o("main")),
            (o("3"), "fix".to_string(), 1, false, false, false, false, o("1"), o("feature")),
            (o("2"), "sub".to_string(), 1, true, false, true, false, o("1"), o("feature")),
            (o("5"), "lost".to_string(), 0, true, false, false, true, o("9"), None),
        ]
    );
    assert_eq!(orphan_start, 5);
    assert!(slots[0].is_primary);
    assert_eq!(slots[0].path, "/repo");
    assert_eq!(slots[4].path, "/repo/.git/wt/2");
}

#[test]
fn primary_is_current_and_last_when_alone() {
    let meta = Meta::new("/repo".to_string());
    let (slots, orphan_start) = collect_entries(&meta, None, "main");
    assert_eq!(slots.len(), 1);
    assert!(slots[0].is_current && slots[0].is_last);
    assert_eq!(orphan_start, 1);
}

#[test]
fn children_of_orphans_are_orphans_too() {
    let mut meta = Meta::new("/r".to_string());
    let lost = meta.add_worktree_at("lost", Some("x"), "t".to_string()).unwrap();
    meta.add_worktree("kid", Some(&lost)).unwrap();
    let (slots, start) = collect_entries(&meta, None, "main");
    assert_eq!(start, 1);
    assert_eq!(slots.len(), 3);
    assert!(slots[2].is_orphan);
    assert_eq!(slots[2].depth, 1);
    assert_eq!(slots[2].compare_to, o("lost"));
}

#[test]
fn go_choices_skip_orphans() {
    let meta = sample();
    assert_eq!(interactive_choices(&meta, "main"), vec!["main", "alpha", "feature", "fix", "sub"]);
}

fn entry(slot: Slot, status: WorktreeStatus, base: Option<String>) -> Entry {
    Entry::from_slot(slot, status, base)
}

#[test]
fn flags_follow_the_spec_order() {
    let meta = sample();
    let (slots, _) = collect_entries(&meta, Some("2"), "main");
    let mut it = slots.into_iter();
    let primary = entry(it.next().unwrap(), clean(true), None);
    assert_eq!(primary.flags(), "p");
    let alpha = entry(it.next().unwrap(), clean(true), None);
    assert_eq!(alpha.flags(), "-");
    let _feature = it.next();
    let _fix = it.next();
    let sub = entry(it.next().unwrap(), clean(false), None);
    assert_eq!(sub.flags(), "cx");
    let dirty = WorktreeStatus { has_modified: true, has_untracked: true, ahead: 0, behind: 0, dir_exists: true };
    let lost = entry(it.next().unwrap(), dirty, None);
    assert_eq!(lost.flags(), "muo");
}

#[test]
fn status_defaults_when_git_cannot_tell() {
    let (s, base) = collect_status(None, None, true);
    assert_eq!(s, clean(true));
    assert_eq!(base, None);
    let (s, base) = collect_status(Some((true, false)), Some((3, 1, o("origin/x"))), false);
    assert_eq!(s, WorktreeStatus { has_modified: true, has_untracked: false, ahead: 3, behind: 1, dir_exists: false });
    assert_eq!(base, o("origin/x"));
}

#[test]
fn wt_records_carry_nine_fields() {
    let meta = sample();
    let (slots, _) = collect_entries(&meta, Some("2"), "main");
    let entries: Vec<Entry> = slots
        .into_iter()
        .map(|s| {
            let base = s.compare_to.clone();
            entry(s, WorktreeStatus { has_modified: false, has_untracked: false, ahead: 12, behind: 0, dir_exists: true }, base)
        })
        .collect();
    assert_eq!(
        wt_record(&entries[4]),
        vec!["wt", "2", "sub", "/repo/.git/wt/2", "1", "c", "12", "0", "feature"]
    );
    assert_eq!(wt_record(&entries[0]), vec!["wt", "-", "main", "/repo", "-", "p", "12", "0", "-"]);
    let records = emit_listing("/repo", "main", &entries);
    assert_eq!(records.len(), 7);
    assert_eq!(records[0], vec!["repo", "/repo", "main"]);
    assert_eq!(records[6][1], "5");
    assert_eq!(records[6][4], "9");
}

#[test]
fn wt_slot_records_parent() {
    let meta = sample();
    let s = wt_slot(&meta, Some("3"), "fix", "/repo/.git/wt/3", false, true, Some("main"));
    assert_eq!(s.parent, o("1"));
    assert!(s.is_last && !s.has_children && !s.is_orphan);
    let p = wt_slot(&meta, None, "main", "/repo", true, true, None);
    assert_eq!(p.parent, None);
    assert_eq!(p.id, None);
}

fn text(line: &[Segment]) -> String {
    line.iter().map(|s| s.text.as_str()).collect()
}

#[test]
fn entry_lines_draw_connectors_and_status() {
    let status = WorktreeStatus { has_modified: true, has_untracked: true, ahead: 2, behind: 1, dir_exists: true };
    let (first, second) = print_worktree_entry("feat", "/p", false, false, true, "│  ", false, &status);
    assert_eq!(text(&first), "│  ├─ ○ feat");
    assert_eq!(text(&second), "│  │  │  ↑2 ↓1 !? · /p");
    assert_eq!(first[3].style, Style::BrightBlack);
    assert_eq!(first[0].style, Style::Rgb(180, 160, 200));
    let (first, second) = print_worktree_entry("here", "/q", true, true, false, "", true, &clean(false));
    assert_eq!(text(&first), "└─ ✗ here ← here");
    assert_eq!(first[3].style, Style::Red);
    assert_eq!(first[0].style, Style::Rgb(120, 100, 140));
    assert_eq!(text(&second), "      /q");
}

#[test]
fn tree_prefixes_follow_siblings() {
    let meta = sample();
    let (slots, start) = collect_entries(&meta, None, "main");
    let entries: Vec<Entry> = slots.into_iter().map(|s| entry(s, clean(true), None)).collect();
    let lines = render_entries(&entries, start);
    let texts: Vec<String> = lines.iter().map(|l| text(l)).collect();
    assert_eq!(
        texts,
        vec![
            "├─ ● main ← here",
            "│     /repo",
            "├─ ○ alpha",
            "│     /repo/.git/wt/4",
            "├─ ○ feature",
            "│  │  /repo/.git/wt/1",
            "│  ├─ ○ fix",
            "│  │     /repo/.git/wt/3",
            "│  └─ ○ sub",
            "│        /repo/.git/wt/2",
            "┊",
            "└─ ○ lost",
            "      /repo/.git/wt/5",
        ]
    );
}

#[test]
fn deep_chains_are_listed_to_the_bottom() {
    let mut meta = Meta::new("/r".to_string());
    let mut parent: Option<String> = None;
    for name in ["l0", "l1", "l2", "l3", "l4", "l5"] {
        let id = meta.add_worktree(name, parent.as_deref()).unwrap();
        parent = Some(id);
    }
    let (slots, start) = collect_entries(&meta, None, "main");
    let depths: Vec<usize> = slots.iter().map(|s| s.depth).collect();
    assert_eq!(depths, vec![0, 0, 1, 2, 3, 4, 5]);
    assert_eq!(start, 7);
    assert!(slots[6].is_last && !slots[6].has_children);
}

#[test]
fn rows_in_a_parent_cycle_are_not_listed() {
    let mut meta = Meta::new("/r".to_string());
    meta.add_worktree_at("x", Some("2"), "t".to_string()).unwrap();
    meta.add_worktree_at("y", Some("1"), "t".to_string()).unwrap();
    let (slots, start) = collect_entries(&meta, None, "main");
    assert_eq!(slots.len(), 1);
    assert_eq!(start, 1);
}
