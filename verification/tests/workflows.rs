use grove::commands::{
    add, created_records, current_worktree_id, go, go_interactive, path, path_record, pull, rm_records, rm_target,
    GoTarget, Interactive,
};
use grove::listing::{collect_entries, collect_status, emit_listing, wt_record, Entry, WorktreeStatus};
use grove::meta::Meta;
use grove::porcelain::{error, OutputMode};
use grove::shell::output_cd;

const ROOT: &str = "/work/repo";

fn registry() -> Meta {
    Meta::new(ROOT.to_string())
}

/// Registers a worktree the way `add` does from within `current`.
fn add_from(meta: &mut Meta, name: &str, current: Option<&str>) -> String {
    let parent = add(meta, name, None, current).unwrap();
    meta.add_worktree(name, parent.as_deref()).unwrap()
}

/// The `wt` records of a listing, with ahead/behind measured against each
/// slot's fallback branch.
fn wt_records(meta: &Meta, current: Option<&str>) -> Vec<Vec<String>> {
    let (slots, _) = collect_entries(meta, current, "main");
    let entries: Vec<Entry> = slots
        .into_iter()
        .map(|s| {
            let counts = s.compare_to.clone().map(|b| (0, 0, Some(b)));
            let (status, base) = collect_status(Some((false, false)), counts, true);
            Entry::from_slot(s, status, base)
        })
        .collect();
    entries.iter().map(wt_record).collect()
}

fn find_wt<'a>(records: &'a [Vec<String>], branch: &str) -> Option<&'a Vec<String>> {
    records.iter().find(|r| r[0] == "wt" && r[2] == branch)
}

#[test]
fn test_add_duplicate_fails() {
    let mut meta = registry();
    add_from(&mut meta, "feature-test", None);
    let e = add(&meta, "feature-test", None, None).unwrap_err();
    assert!(e.message().contains("already exists"));
}

#[test]
fn test_rm_nonexistent_fails() {
    let meta = registry();
    let e = rm_target(&meta, "nonexistent").unwrap_err();
    assert!(e.message().contains("not found"));
}

#[test]
fn test_path_outputs_worktree_path() {
    let mut meta = registry();
    add_from(&mut meta, "feature-test", None);
    assert!(path(&meta, "feature-test").unwrap().contains(".git/wt/"));
}

#[test]
fn test_path_nonexistent_fails() {
    let meta = registry();
    let e = path(&meta, "nonexistent").unwrap_err();
    assert!(e.message().contains("not found"));
}

#[test]
fn test_nested_worktree_sets_parent() {
    let mut meta = registry();
    add_from(&mut meta, "parent-feature", None);
    let parent_path = path(&meta, "parent-feature").unwrap();
    let current = current_worktree_id(ROOT, &parent_path);
    add_from(&mut meta, "child-task", current.as_deref());
    let records = wt_records(&meta, None);
    let parent = find_wt(&records, "parent-feature").unwrap();
    let child = find_wt(&records, "child-task").unwrap();
    assert_eq!(child[4], parent[1]);
}

#[test]
fn test_context_aware_lookup_prefers_child() {
    let mut meta = registry();
    add_from(&mut meta, "parent-a", None);
    let parent_a_path = path(&meta, "parent-a").unwrap();
    let current = current_worktree_id(ROOT, &parent_a_path);
    let sub = add_from(&mut meta, "sub", current.as_deref());
    match go(&meta, "sub", "main", current.as_deref(), None) {
        GoTarget::Existing(id) => {
            assert_eq!(id, sub);
            let line = output_cd(&OutputMode { porcelain: false }, &meta.worktree_path(&id));
            assert!(line.contains("__grove_cd:"));
        }
        other => panic!("expected the existing child, got {:?}", other),
    }
}

#[test]
fn test_branch_with_slash() {
    let mut meta = registry();
    add_from(&mut meta, "feature/auth", None);
    let records = wt_records(&meta, None);
    assert!(find_wt(&records, "feature/auth").is_some());
}

#[test]
fn test_branch_with_special_chars() {
    let mut meta = registry();
    add_from(&mut meta, "fix/JIRA-123_some-bug", None);
    let records = wt_records(&meta, None);
    assert!(find_wt(&records, "fix/JIRA-123_some-bug").is_some());
}

#[test]
fn test_pull_from_main_worktree_fails() {
    let meta = registry();
    assert!(pull(&meta, None).is_err());
}

#[test]
fn test_porcelain_list_emits_repo_and_wt_records() {
    let meta = registry();
    let (slots, _) = collect_entries(&meta, None, "main");
    let entries: Vec<Entry> = slots
        .into_iter()
        .map(|s| {
            let (status, base) = collect_status(None, None, true);
            Entry::from_slot(s, status, base)
        })
        .collect();
    let records = emit_listing(ROOT, "main", &entries);
    let repo_rec = &records[0];
    assert_eq!(repo_rec.len(), 3);
    assert_eq!(repo_rec[2], "main");
    let main_wt = find_wt(&records, "main").unwrap();
    assert_eq!(main_wt.len(), 9);
    assert_eq!(main_wt[1], "-");
    assert_eq!(main_wt[4], "-");
    assert!(main_wt[5].contains('p'));
    assert!(main_wt[5].contains('c'));
}

#[test]
fn test_porcelain_list_child_reports_parent_id_and_cmp_base() {
    let mut meta = registry();
    add_from(&mut meta, "parent-wt", None);
    let parent_path = format!("{}/.git/wt/1", ROOT);
    let current = current_worktree_id(ROOT, &parent_path);
    add_from(&mut meta, "child-wt", current.as_deref());
    let records = wt_records(&meta, None);
    let parent = find_wt(&records, "parent-wt").unwrap();
    let child = find_wt(&records, "child-wt").unwrap();
    assert_eq!(child[4], parent[1]);
    assert_eq!(child[8], "parent-wt");
    assert_eq!(parent[8], "main");
}

#[test]
fn test_porcelain_list_marks_orphans() {
    let mut meta = registry();
    add_from(&mut meta, "the-parent", None);
    let parent_path = format!("{}/.git/wt/1", ROOT);
    let current = current_worktree_id(ROOT, &parent_path);
    add_from(&mut meta, "the-child", current.as_deref());
    let id = rm_target(&meta, "the-parent").unwrap();
    meta.remove_worktree(&id);
    let records = wt_records(&meta, None);
    let child = find_wt(&records, "the-child").unwrap();
    assert!(child[5].contains('o'));
}

#[test]
fn test_porcelain_add_emits_created_and_wt() {
    let mut meta = registry();
    let id = add_from(&mut meta, "feature", None);
    let wt_path = meta.worktree_path(&id);
    let status = WorktreeStatus { has_modified: false, has_untracked: false, ahead: 0, behind: 0, dir_exists: true };
    let records = created_records(&meta, &id, "feature", &wt_path, false, status, Some("main".to_string()));
    let created = &records[0];
    assert_eq!(created.len(), 4);
    assert_eq!(created[2], "feature");
    assert!(created[3].ends_with(".git/wt/1"));
    let wt = find_wt(&records, "feature").unwrap();
    assert_eq!(wt[1], created[1]);
}

#[test]
fn test_porcelain_go_emits_cd_record_not_grove_cd_prefix() {
    let mut meta = registry();
    let id = add_from(&mut meta, "feature", None);
    let line = output_cd(&OutputMode { porcelain: true }, &meta.worktree_path(&id));
    assert!(!line.contains("__grove_cd:"));
    assert!(line.starts_with("cd\t"));
}

#[test]
fn test_porcelain_go_without_name_lists_instead_of_fzf() {
    assert_eq!(go_interactive(&OutputMode { porcelain: true }, true), Interactive::List);
}

#[test]
fn test_porcelain_remove_emits_removed_and_orphaned() {
    let mut meta = registry();
    let doomed = add_from(&mut meta, "doomed", None);
    let parent_path = format!("{}/.git/wt/1", ROOT);
    let current = current_worktree_id(ROOT, &parent_path);
    add_from(&mut meta, "survivor", current.as_deref());
    let orphaned = meta.children(&doomed);
    meta.remove_worktree(&doomed);
    let records = rm_records(&doomed, "doomed", &orphaned);
    let removed = &records[0];
    assert_eq!(removed.len(), 4);
    assert_eq!(removed[2], "doomed");
    assert_eq!(removed[3], "explicit");
    let orphaned = records.iter().find(|r| r[0] == "orphaned").unwrap();
    assert_eq!(orphaned[2], "survivor");
}

#[test]
fn test_porcelain_path_emits_path_record() {
    let mut meta = registry();
    add_from(&mut meta, "feature", None);
    let record = path_record(&path(&meta, "feature").unwrap());
    assert_eq!(record.len(), 2);
    assert!(record[1].ends_with(".git/wt/1"));
}

#[test]
fn test_porcelain_error_goes_to_stderr_as_tsv() {
    let meta = registry();
    let e = path(&meta, "no-such-worktree").unwrap_err();
    let line = error(&e.message());
    assert!(line.starts_with("error\t"));
    assert!(!line.contains('\u{2717}'));
    assert!(line.contains("no-such-worktree"));
}
