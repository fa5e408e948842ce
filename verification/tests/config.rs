use grove::config::{
    copyignored_enabled, first_failure, hook_failed_message, hook_start_message, merge_hook_blocks, run_hooks,
    Config, HookBlock, RawConfig, RawHooks,
};
use grove::template::HookContext;

fn block(tasks: &[(&str, &str)]) -> HookBlock {
    HookBlock::new(tasks.iter().map(|(n, c)| (n.to_string(), c.to_string())).collect()).unwrap()
}

fn raw(copy: &[&str], copy_ignored: Option<bool>, post: Vec<HookBlock>, pre: Vec<HookBlock>) -> RawConfig {
    RawConfig {
        copy: copy.iter().map(|s| s.to_string()).collect(),
        copy_ignored,
        hooks: Some(RawHooks { post_create: post, pre_remove: pre }),
    }
}

#[test]
fn test_load_missing_config() {
    let config = Config::load(None, None);
    assert!(config.copy.is_empty());
    assert!(config.hooks.post_create.is_empty());
}

#[test]
fn test_load_local_config() {
    let local = RawConfig { copy: vec![".env*".to_string()], copy_ignored: None, hooks: None };
    let config = Config::load(None, Some(local));
    assert_eq!(config.copy.len(), 1);
    assert_eq!(config.copy[0], ".env*");
}

#[test]
fn local_copy_patterns_extend_global() {
    let global = raw(&[".env*"], None, vec![], vec![]);
    let local = raw(&[".terraform/", ".mise.local.toml"], None, vec![], vec![]);
    let config = Config::load(Some(global), Some(local));
    assert_eq!(config.copy, vec![".env*", ".terraform/", ".mise.local.toml"]);
}

#[test]
fn local_copyignored_overrides_global() {
    let c = Config::load(Some(raw(&[], Some(true), vec![], vec![])), Some(raw(&[], Some(false), vec![], vec![])));
    assert!(!c.copy_ignored);
    let c = Config::load(Some(raw(&[], Some(true), vec![], vec![])), Some(raw(&[], None, vec![], vec![])));
    assert!(c.copy_ignored);
    let c = Config::load(None, None);
    assert!(!c.copy_ignored);
}

#[test]
fn local_hook_blocks_run_after_global_ones() {
    let global = raw(&[], None, vec![block(&[("g", "echo g")])], vec![block(&[("gp", "echo gp")])]);
    let local = raw(&[], None, vec![block(&[("l", "echo l")])], vec![]);
    let c = Config::load(Some(global), Some(local));
    assert_eq!(c.hooks.post_create, vec![block(&[("g", "echo g")]), block(&[("l", "echo l")])]);
    assert_eq!(c.hooks.pre_remove, vec![block(&[("gp", "echo gp")])]);
}

#[test]
fn merge_hook_blocks_concatenates() {
    let r = merge_hook_blocks(Some(vec![block(&[("a", "1")])]), None);
    assert_eq!(r, vec![block(&[("a", "1")])]);
    assert!(merge_hook_blocks(None, None).is_empty());
}

#[test]
fn hook_plan_expands_each_task_block_by_block() {
    let blocks = vec![
        block(&[("trust", "mise trust {{path}}/mise.toml"), ("deps", "npm ci")]),
        block(&[("note", "echo {{branch}} {{id}} {{repo}}")]),
    ];
    let ctx = HookContext { path: "/r/.git/wt/2", branch: "feat", id: "2", repo: "/r" };
    let plan = run_hooks(&blocks, &ctx);
    assert_eq!(plan.len(), 2);
    assert_eq!(plan[0].len(), 2);
    assert_eq!(plan[0][0].name, "trust");
    assert_eq!(plan[0][0].command, "mise trust /r/.git/wt/2/mise.toml");
    assert_eq!(plan[0][1].command, "npm ci");
    assert_eq!(plan[1][0].command, "echo feat 2 /r");
}

#[test]
fn first_failure_is_in_task_order() {
    assert_eq!(first_failure(&vec![None, None]), None);
    assert_eq!(
        first_failure(&vec![None, Some("second".to_string()), Some("third".to_string())]),
        Some("second".to_string())
    );
}

#[test]
fn hook_failure_messages() {
    assert_eq!(hook_failed_message("deps", Some(1)), "Hook 'deps' failed with exit code Some(1)");
    assert_eq!(hook_failed_message("deps", None), "Hook 'deps' failed with exit code None");
    assert_eq!(hook_failed_message("x", Some(-2)), "Hook 'x' failed with exit code Some(-2)");
    assert_eq!(hook_start_message("deps"), "Failed to execute hook 'deps'");
}

#[test]
fn copyignored_values() {
    assert!(copyignored_enabled(Some("true")));
    assert!(copyignored_enabled(Some("1")));
    assert!(copyignored_enabled(Some("yes")));
    assert!(!copyignored_enabled(Some("no")));
    assert!(!copyignored_enabled(Some("TRUE")));
    assert!(!copyignored_enabled(None));
}

#[test]
fn hook_task_names_are_distinct() {
    assert!(HookBlock::new(vec![("a".to_string(), "x".to_string()), ("a".to_string(), "y".to_string())]).is_none());
    let b = block(&[("a", "x"), ("b", "y")]);
    assert_eq!(b.tasks().len(), 2);
    assert_eq!(b.tasks()[1].0, "b");
}
