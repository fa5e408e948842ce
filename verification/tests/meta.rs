use grove::git::GitWorktree;
use grove::meta::{Meta, MetaError, WorktreeInfo};

fn setup() -> Meta {
    Meta::new("/repo".to_string())
}

fn info(branch: &str, parent: Option<&str>, created: &str) -> WorktreeInfo {
    WorktreeInfo { branch: branch.to_string(), parent: parent.map(String::from), created: created.to_string() }
}

#[test]
fn test_next_id_increments() {
    let mut meta = setup();
    assert_eq!(meta.next_id().unwrap(), "1");
    assert_eq!(meta.next_id().unwrap(), "2");
    assert_eq!(meta.next_id().unwrap(), "3");
}

#[test]
fn test_add_worktree() {
    let mut meta = setup();
    let id = meta.add_worktree("feature/test", None).unwrap();
    assert_eq!(id, "1");

    let info = meta.get_worktree("1").unwrap();
    assert_eq!(info.branch, "feature/test");
    assert!(info.parent.is_none());
}

#[test]
fn test_add_worktree_with_parent() {
    let mut meta = setup();
    let parent_id = meta.add_worktree("parent", None).unwrap();
    let child_id = meta.add_worktree("child", Some(&parent_id)).unwrap();

    let info = meta.get_worktree(&child_id).unwrap();
    assert_eq!(info.parent, Some(parent_id));
}

#[test]
fn test_find_by_branch() {
    let mut meta = setup();
    meta.add_worktree("feature/test", None).unwrap();

    assert_eq!(meta.find_by_branch("feature/test"), Some("1".to_string()));
    assert_eq!(meta.find_by_branch("nonexistent"), None);
}

#[test]
fn test_remove_worktree() {
    let mut meta = setup();
    meta.add_worktree("test", None).unwrap();

    let removed = meta.remove_worktree("1");
    assert!(removed.is_some());
    assert_eq!(removed.unwrap().branch, "test");

    assert!(meta.get_worktree("1").is_none());
}

#[test]
fn test_top_level() {
    let mut meta = setup();
    meta.add_worktree("beta", None).unwrap();
    meta.add_worktree("alpha", None).unwrap();

    let top = meta.top_level();
    assert_eq!(top.len(), 2);
    assert_eq!(top[0].1.branch, "alpha"); // sorted
    assert_eq!(top[1].1.branch, "beta");
}

#[test]
fn test_children() {
    let mut meta = setup();
    let parent = meta.add_worktree("parent", None).unwrap();
    meta.add_worktree("child-b", Some(&parent)).unwrap();
    meta.add_worktree("child-a", Some(&parent)).unwrap();

    let children = meta.children(&parent);
    assert_eq!(children.len(), 2);
    assert_eq!(children[0].1.branch, "child-a"); // sorted
    assert_eq!(children[1].1.branch, "child-b");
}

#[test]
fn test_find_by_branch_with_context() {
    let mut meta = setup();
    let parent = meta.add_worktree("parent", None).unwrap();
    let child_id = meta.add_worktree("child", Some(&parent)).unwrap();

    // When we have context (parent), we should find the child
    let found = meta.find_by_branch_with_context("child", Some(&parent));
    assert_eq!(found, Some(child_id.clone()));

    // Without context, we still find it
    let found = meta.find_by_branch_with_context("child", None);
    assert_eq!(found, Some(child_id));
}

#[test]
fn duplicate_branch_is_refused_but_uses_an_id() {
    let mut meta = setup();
    meta.add_worktree("x", None).unwrap();
    assert_eq!(meta.add_worktree("x", None), Err(MetaError::BranchTaken));
    assert_eq!(meta.counter_value(), 3);
    assert_eq!(meta.add_worktree("y", None).unwrap(), "3");
}

#[test]
fn ids_run_out_after_u32_max() {
    let mut meta = Meta::from_rows("/repo".to_string(), vec![], 0xffff_ffff).unwrap();
    assert_eq!(meta.next_id().unwrap(), "1z141z3");
    assert_eq!(meta.next_id(), Err(MetaError::IdsExhausted(0x1_0000_0000)));
    assert_eq!(meta.counter_value(), 0x1_0000_0001);
    assert_eq!(meta.add_worktree("x", None), Err(MetaError::IdsExhausted(0x1_0000_0001)));
    assert!(meta.all().is_empty());
}

#[test]
fn stored_rows_with_clashes_are_refused() {
    let rows = vec![("1".to_string(), info("a", None, "t")), ("2".to_string(), info("a", None, "t"))];
    assert!(Meta::from_rows("/r".to_string(), rows, 3).is_none());
    let rows = vec![("1".to_string(), info("a", None, "t")), ("1".to_string(), info("b", None, "t"))];
    assert!(Meta::from_rows("/r".to_string(), rows, 3).is_none());
}

#[test]
fn add_worktree_at_records_time() {
    let mut meta = setup();
    let id = meta.add_worktree_at("f", Some("9"), "2024-01-15T10:30:00Z".to_string()).unwrap();
    assert_eq!(meta.get_worktree(&id).unwrap(), info("f", Some("9"), "2024-01-15T10:30:00Z"));
}

#[test]
fn removing_a_parent_orphans_its_children() {
    let mut meta = setup();
    let p = meta.add_worktree("parent", None).unwrap();
    let c = meta.add_worktree("child", Some(&p)).unwrap();
    meta.add_worktree("other", None).unwrap();
    meta.remove(&p);
    let orphans = meta.orphans();
    assert_eq!(orphans.len(), 1);
    assert_eq!(orphans[0].0, c);
    assert_eq!(orphans[0].2, 1);
    assert_eq!(meta.parent_of(&c), Some(p));
    let top: Vec<String> = meta.top_level().into_iter().map(|(_, i)| i.branch).collect();
    assert_eq!(top, vec!["other"]);
}

#[test]
fn all_is_sorted_by_branch() {
    let mut meta = setup();
    for b in ["m", "b", "z", "a"] {
        meta.add_worktree(b, None).unwrap();
    }
    let all: Vec<String> = meta.all().into_iter().map(|(_, i)| i.branch).collect();
    assert_eq!(all, vec!["a", "b", "m", "z"]);
}

#[test]
fn worktree_path_is_in_store() {
    let meta = setup();
    assert_eq!(meta.worktree_path("a1"), "/repo/.git/wt/a1");
}

#[test]
fn sync_imports_worktrees_under_the_store() {
    let mut meta = setup();
    let listed = vec![
        GitWorktree { path: "/repo".to_string(), branch: Some("main".to_string()) },
        GitWorktree { path: "/repo/.git/wt/old-wt".to_string(), branch: Some("legacy-branch".to_string()) },
        GitWorktree { path: "/repo/.git/wt/zz".to_string(), branch: Some("numbered".to_string()) },
        GitWorktree { path: "/repo/.git/wt/det".to_string(), branch: None },
        GitWorktree { path: "/elsewhere/wt".to_string(), branch: Some("outside".to_string()) },
    ];
    let report = meta.sync_at(&listed, &vec![], "2024-01-01T00:00:00Z".to_string());
    let imported: Vec<(String, String)> = report.imported.iter().map(|(i, w)| (i.clone(), w.branch.clone())).collect();
    assert_eq!(
        imported,
        vec![("old-wt".to_string(), "legacy-branch".to_string()), ("zz".to_string(), "numbered".to_string())]
    );
    assert!(report.removed.is_empty());
    assert_eq!(meta.find_by_branch("legacy-branch"), Some("old-wt".to_string()));
    // "zz" reads as 1295 in base 36: new ids start after it.
    assert_eq!(meta.counter_value(), 1296);
    assert_eq!(meta.next_id().unwrap(), "100");
}

#[test]
fn sync_removes_stale_entries() {
    let mut meta = setup();
    let gone = meta.add_worktree("will-delete", None).unwrap();
    let kept_on_disk = meta.add_worktree("on-disk", None).unwrap();
    let listed_id = meta.add_worktree("listed", None).unwrap();
    let listed = vec![GitWorktree { path: format!("/repo/.git/wt/{}/", listed_id), branch: Some("listed".to_string()) }];
    let report = meta.sync_at(&listed, &vec![kept_on_disk.clone()], "t".to_string());
    assert!(report.imported.is_empty());
    assert_eq!(report.removed, vec![(gone, "will-delete".to_string())]);
    assert!(meta.find_by_branch("will-delete").is_none());
    assert!(meta.find_by_branch("on-disk").is_some());
    assert!(meta.find_by_branch("listed").is_some());
}

#[test]
fn sync_reports_a_clashing_branch_without_inserting_it() {
    let mut meta = setup();
    meta.add_worktree("same", None).unwrap();
    let listed = vec![
        GitWorktree { path: "/repo/.git/wt/1".to_string(), branch: Some("same".to_string()) },
        GitWorktree { path: "/repo/.git/wt/9".to_string(), branch: Some("same".to_string()) },
    ];
    let report = meta.sync_at(&listed, &vec![], "t".to_string());
    assert_eq!(report.imported.len(), 1);
    assert_eq!(report.imported[0].0, "9");
    assert_eq!(meta.all().len(), 1);
    assert_eq!(meta.counter_value(), 10);
}

#[test]
fn sync_raises_the_counter_past_numeric_names() {
    let mut meta = setup();
    // "legacy" is itself a base-36 numeral.
    let listed = vec![GitWorktree { path: "/repo/.git/wt/legacy".to_string(), branch: Some("b".to_string()) }];
    meta.sync_at(&listed, &vec![], "t".to_string());
    assert_eq!(meta.counter_value(), 1294064243);
}

#[test]
fn registered_id_blocks_the_counter_id() {
    let rows = vec![("1".to_string(), info("old", None, "t"))];
    let mut meta = Meta::from_rows("/repo".to_string(), rows, 1).unwrap();
    assert_eq!(meta.add_worktree("new", None), Err(MetaError::IdTaken));
    assert_eq!(meta.all().len(), 1);
    assert_eq!(meta.add_worktree("new", None).unwrap(), "2");
}

#[test]
fn lookups_after_add_and_remove() {
    let mut meta = setup();
    let a = meta.add_worktree("a", None).unwrap();
    let b = meta.add_worktree("b", Some(&a)).unwrap();
    assert_eq!(meta.find_by_branch("b"), Some(b.clone()));
    assert_eq!(meta.get_worktree(&b).unwrap().parent, Some(a.clone()));
    let removed = meta.remove_worktree(&b).unwrap();
    assert_eq!(removed.branch, "b");
    assert_eq!(meta.get_worktree(&b), None);
    assert_eq!(meta.find_by_branch("b"), None);
    assert_eq!(meta.get_worktree(&a).unwrap().branch, "a");
    assert_eq!(meta.remove_worktree("nope"), None);
}

#[test]
fn counter_stops_at_the_database_limit() {
    let mut meta = Meta::from_rows("/repo".to_string(), vec![], 0x7fff_ffff_ffff_ffff).unwrap();
    assert_eq!(meta.next_id(), Err(MetaError::CounterOverflow));
    assert_eq!(meta.counter_value(), 0x7fff_ffff_ffff_ffff);
}

#[test]
fn sync_without_imports_drops_stale_rows_without_the_clock() {
    let mut meta = Meta::new("/repo".to_string());
    meta.add_worktree_at("gone", None, "t".to_string()).unwrap();
    meta.add_worktree_at("kept", None, "t".to_string()).unwrap();
    let report = meta.sync(&vec![], &vec!["2".to_string()]).unwrap();
    assert!(report.imported.is_empty());
    assert_eq!(report.removed, vec![("1".to_string(), "gone".to_string())]);
    assert_eq!(meta.find_by_branch("kept"), Some("2".to_string()));
    assert_eq!(meta.find_by_branch("gone"), None);
}
