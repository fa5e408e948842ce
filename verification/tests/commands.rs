use grove::commands::{
    CleanTally, add, arrive, check_orphaned_worktree, clean_decision, clean_summary, complete, copy_source, create_worktree,
    created_record, current_worktree_id, go, go_interactive, is_recoverable, merge_target, merged_record, path,
    pull, push, rm_check, rm_records, rm_target, skipped_record, sync_records, sync_summary, CleanDecision,
    CommandError, CopySource, GoTarget, Interactive, clean_plan, created_records, CleanProbe,
};
use grove::listing::WorktreeStatus;
use grove::config::{Config, HookBlock, Hooks};
use grove::meta::{Meta, MetaError, SyncReport, WorktreeInfo};
use grove::porcelain::OutputMode;

fn s(x: &str) -> String {
    x.to_string()
}

fn meta_with(branches: &[(&str, Option<&str>)]) -> Meta {
    let mut meta = Meta::new(s("/repo"));
    for (b, p) in branches {
        meta.add_worktree(b, *p).unwrap();
    }
    meta
}

fn config(copy: &[&str], copy_ignored: bool) -> Config {
    Config {
        copy: copy.iter().map(|c| s(c)).collect(),
        copy_ignored,
        hooks: Hooks {
            post_create: vec![HookBlock::new(vec![(s("trust"), s("mise trust {{path}} {{branch}} {{id}} {{repo}}"))]).unwrap()],
            pre_remove: vec![],
        },
    }
}

#[test]
fn current_worktree_is_first_component_below_store() {
    assert_eq!(current_worktree_id("/repo", "/repo/.git/wt/2/src/lib"), Some(s("2")));
    assert_eq!(current_worktree_id("/repo", "/repo/src"), None);
    assert_eq!(current_worktree_id("/repo", "/repo/.git/wt"), None);
}

#[test]
fn go_targets() {
    let meta = meta_with(&[("feature", None), ("sub", Some("1"))]);
    assert_eq!(go(&meta, "main", "main", Some("1"), None), GoTarget::Primary);
    assert_eq!(go(&meta, "sub", "main", Some("1"), None), GoTarget::Existing(s("2")));
    assert_eq!(go(&meta, "sub", "main", None, None), GoTarget::Existing(s("2")));
    assert_eq!(go(&meta, "new", "main", Some("1"), None), GoTarget::Create(Some(s("1"))));
    assert_eq!(go(&meta, "new", "main", Some("1"), Some("develop")), GoTarget::Create(None));
    assert_eq!(go(&meta, "new", "main", None, None), GoTarget::Create(None));
}

#[test]
fn go_to_missing_directory_falls_back() {
    assert_eq!(arrive(GoTarget::Existing(s("2")), true), GoTarget::Existing(s("2")));
    assert_eq!(arrive(GoTarget::Existing(s("2")), false), GoTarget::Missing(s("2")));
    assert_eq!(arrive(GoTarget::Primary, false), GoTarget::Primary);
}

#[test]
fn add_refuses_registered_names() {
    let meta = meta_with(&[("dup", None)]);
    let err = add(&meta, "dup", None, None).unwrap_err();
    assert_eq!(err, CommandError::AlreadyExists(s("dup")));
    assert_eq!(err.message(), "Worktree 'dup' already exists");
    assert_eq!(add(&meta, "fresh", None, Some("1")), Ok(Some(s("1"))));
    assert_eq!(add(&meta, "fresh", Some("main"), Some("1")), Ok(None));
}

#[test]
fn copy_sources() {
    assert_eq!(copy_source(&config(&[".env"], true)), CopySource::AllIgnored);
    assert_eq!(copy_source(&config(&[".env"], false)), CopySource::Matching(vec![s(".env")]));
    assert_eq!(copy_source(&config(&[], false)), CopySource::Nothing);
}

#[test]
fn create_worktree_registers_and_plans() {
    let mut meta = meta_with(&[("parent", None)]);
    let c = create_worktree(&mut meta, &config(&[], true), "child", None, Some("1"), Some("main"), false).unwrap();
    assert_eq!(c.id, "2");
    assert_eq!(c.path, "/repo/.git/wt/2");
    assert_eq!(c.base_branch, "main");
    assert_eq!(c.copy, CopySource::AllIgnored);
    assert_eq!(c.post_create[0][0].command, "mise trust /repo/.git/wt/2 child 2 /repo");
    assert_eq!(meta.get_worktree("2").unwrap().parent, Some(s("1")));
    // the caller rolls back when git refuses the worktree
    meta.remove(&c.id);
    assert_eq!(meta.all().len(), 1);
}

#[test]
fn create_worktree_refusals() {
    let mut meta = meta_with(&[]);
    let e = create_worktree(&mut meta, &config(&[], false), "b", None, None, None, false).unwrap_err();
    assert_eq!(e.message(), "Could not determine main branch");
    let e = create_worktree(&mut meta, &config(&[], false), "b", Some("dev"), None, None, true).unwrap_err();
    assert_eq!(e.message(), "Branch 'b' already exists. Use a different name or check it out.");
    assert_eq!(meta.counter_value(), 1);
    let c = create_worktree(&mut meta, &config(&[], false), "b", Some("dev"), None, None, false).unwrap();
    assert_eq!(c.base_branch, "dev");
    let e = create_worktree(&mut meta, &config(&[], false), "b", Some("dev"), None, None, false).unwrap_err();
    assert_eq!(e, CommandError::Registry(MetaError::BranchTaken));
    assert_eq!(e.message(), "UNIQUE constraint failed: worktrees.branch");
    assert_eq!(CommandError::Registry(MetaError::IdTaken).message(), "UNIQUE constraint failed: worktrees.id");
    assert_eq!(CommandError::Registry(MetaError::ClockUnavailable).message(), "system time before Unix epoch");
    assert_eq!(
        CommandError::Registry(MetaError::IdsExhausted(4294967296)).message(),
        "Integer 4294967296 out of range at index 0"
    );
    assert_eq!(CommandError::Registry(MetaError::CounterOverflow).message(), "integer overflow");
}

#[test]
fn rm_decisions() {
    let meta = meta_with(&[("feature", None), ("child", Some("1"))]);
    assert_eq!(rm_target(&meta, "feature"), Ok(s("1")));
    let e = rm_target(&meta, "nope").unwrap_err();
    assert_eq!(e.message(), "Worktree 'nope' not found. Use `grove add nope` to create it.");
    let e = rm_check("feature", false, true, Some((true, false))).unwrap_err();
    assert_eq!(e.message(), "Worktree 'feature' has uncommitted changes. Use --force to remove anyway.");
    assert!(is_recoverable(&e.message()));
    assert_eq!(rm_check("feature", true, true, Some((true, true))), Ok(()));
    assert_eq!(rm_check("feature", false, false, Some((true, true))), Ok(()));
    assert_eq!(rm_check("feature", false, true, None), Ok(()));
    let orphaned = meta.children("1");
    assert_eq!(
        rm_records("1", "feature", &orphaned),
        vec![vec![s("removed"), s("1"), s("feature"), s("explicit")], vec![s("orphaned"), s("2"), s("child")]]
    );
}

#[test]
fn clean_decisions() {
    assert_eq!(merge_target(Some(s("origin/feat")), "main"), "origin/feat");
    assert_eq!(merge_target(None, "main"), "main");
    assert_eq!(clean_decision(false, true, Some((true, true))), CleanDecision::Keep);
    assert_eq!(clean_decision(true, true, Some((false, true))), CleanDecision::Skip);
    assert_eq!(clean_decision(true, false, Some((true, true))), CleanDecision::Remove);
    assert_eq!(clean_decision(true, true, Some((false, false))), CleanDecision::Remove);
    assert_eq!(skipped_record("3", "x"), vec!["skipped", "3", "x", "dirty"]);
    assert_eq!(merged_record("3", "x", "main"), vec!["removed", "3", "x", "merged:main"]);
    assert_eq!(clean_summary(0, 0), "✓ No merged worktrees to clean");
    assert_eq!(clean_summary(2, 0), "✓ Cleaned 2 worktree(s)");
    assert_eq!(clean_summary(1, 3), "✓ Cleaned 1 worktree(s), skipped 3");
}

#[test]
fn path_pull_push_complete() {
    let meta = meta_with(&[("b", None), ("a", None)]);
    assert_eq!(path(&meta, "a"), Ok(s("/repo/.git/wt/2")));
    assert_eq!(pull(&meta, Some("1")), Ok((s("/repo"), s("/repo/.git/wt/1"))));
    assert_eq!(push(&meta, Some("1")), Ok((s("/repo/.git/wt/1"), s("/repo"))));
    assert_eq!(pull(&meta, None).unwrap_err().message(), "Cannot pull: already in primary worktree");
    assert_eq!(push(&meta, None).unwrap_err().message(), "Cannot push: already in primary worktree");
    assert_eq!(complete(&meta, Some("go"), Some("main")), vec!["main", "a", "b"]);
    assert_eq!(complete(&meta, Some("rm"), Some("main")), vec!["a", "b"]);
    assert_eq!(complete(&meta, None, None), vec!["a", "b"]);
    assert_eq!(created_record("1", "b", "/p"), vec!["created", "1", "b", "/p"]);
}

#[test]
fn sync_output() {
    let report = SyncReport {
        imported: vec![(s("legacy"), WorktreeInfo { branch: s("legacy-branch"), parent: None, created: s("t") })],
        removed: vec![(s("4"), s("gone"))],
    };
    assert_eq!(
        sync_records(&report),
        vec![vec![s("imported"), s("legacy"), s("legacy-branch")], vec![s("removed"), s("4"), s("gone"), s("stale")]]
    );
    assert_eq!(sync_summary(&report), "✓ Synced: 1 imported, 1 removed");
    assert_eq!(sync_summary(&SyncReport { imported: vec![], removed: vec![] }), "✓ Already in sync");
}

#[test]
fn interactive_go_degrades_to_listing() {
    assert_eq!(go_interactive(&OutputMode { porcelain: true }, true), Interactive::List);
    assert_eq!(go_interactive(&OutputMode { porcelain: false }, false), Interactive::List);
    assert_eq!(go_interactive(&OutputMode { porcelain: false }, true), Interactive::Pick);
}

#[test]
fn deleted_worktree_returns_to_owner() {
    assert_eq!(check_orphaned_worktree(false, "/home/u/repo/.git/wt/3"), Some(s("/home/u/repo")));
    assert_eq!(check_orphaned_worktree(true, "/home/u/repo/.git/wt/3"), None);
    assert_eq!(check_orphaned_worktree(false, "/tmp"), None);
}

#[test]
fn recoverable_messages() {
    assert!(is_recoverable("Use -f to force"));
    assert!(!is_recoverable("Worktree 'x' not found. Use `grove add x` to create it."));
}

#[test]
fn clean_tally_counts_decisions() {
    let mut t = CleanTally::new();
    t.count(CleanDecision::Keep, "1", Some("2"));
    t.count(CleanDecision::Skip, "2", Some("2"));
    assert!(!t.removed_current);
    t.count(CleanDecision::Remove, "3", Some("2"));
    assert!(!t.removed_current);
    t.count(CleanDecision::Remove, "2", Some("2"));
    assert_eq!((t.removed, t.skipped, t.removed_current), (2, 1, true));
    let mut u = CleanTally::new();
    u.count(CleanDecision::Remove, "1", None);
    assert!(!u.removed_current);
}

fn probe(id: &str, merged: bool, dir_exists: bool, dirty: Option<(bool, bool)>) -> CleanProbe {
    CleanProbe { id: s(id), branch: format!("b{}", id), into: s("main"), merged, dir_exists, dirty }
}

#[test]
fn clean_plan_removes_merged_skips_dirty_keeps_unmerged() {
    let probes = vec![
        probe("1", false, true, None),
        probe("2", true, true, Some((true, false))),
        probe("3", true, true, Some((false, false))),
        probe("4", true, false, None),
    ];
    let plan = clean_plan(&probes, Some("3"));
    assert_eq!(
        plan.decisions,
        vec![CleanDecision::Keep, CleanDecision::Skip, CleanDecision::Remove, CleanDecision::Remove]
    );
    assert!(plan.records[0].is_empty());
    assert_eq!(plan.records[1], vec!["skipped", "2", "b2", "dirty"]);
    assert_eq!(plan.records[2], vec!["removed", "3", "b3", "merged:main"]);
    assert_eq!(plan.records[3], vec!["removed", "4", "b4", "merged:main"]);
    assert_eq!((plan.tally.removed, plan.tally.skipped, plan.tally.removed_current), (2, 1, true));
    let plan = clean_plan(&probes, Some("2"));
    assert!(!plan.tally.removed_current);
}

#[test]
fn clean_plan_with_nothing_merged_does_nothing() {
    let probes = vec![probe("1", false, true, None), probe("2", false, false, None)];
    let plan = clean_plan(&probes, Some("1"));
    assert_eq!(plan.decisions, vec![CleanDecision::Keep, CleanDecision::Keep]);
    assert!(plan.records.iter().all(|r| r.is_empty()));
    assert_eq!((plan.tally.removed, plan.tally.skipped, plan.tally.removed_current), (0, 0, false));
}

#[test]
fn created_then_wt_for_the_same_worktree() {
    let meta = meta_with(&[("feature", None)]);
    let status = WorktreeStatus { has_modified: false, has_untracked: true, ahead: 2, behind: 0, dir_exists: true };
    let r = created_records(&meta, "1", "feature", "/repo/.git/wt/1", false, status, Some(s("main")));
    assert_eq!(r[0], vec!["created", "1", "feature", "/repo/.git/wt/1"]);
    assert_eq!(r[1], vec!["wt", "1", "feature", "/repo/.git/wt/1", "-", "u", "2", "0", "main"]);
    let status = WorktreeStatus { has_modified: false, has_untracked: false, ahead: 0, behind: 0, dir_exists: true };
    let r = created_records(&meta, "1", "feature", "/repo/.git/wt/1", true, status, None);
    assert_eq!(r[1], vec!["wt", "1", "feature", "/repo/.git/wt/1", "-", "c", "0", "0", "-"]);
    let r = created_records(&meta, "1", "feature", "/repo/.git/wt/1", false, status, None);
    assert_eq!(r[1][5], "-");
}
