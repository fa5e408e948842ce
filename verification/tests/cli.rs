use grove::cli::{Cli, Commands, Invocation, Shell};

fn cli(command: Option<Commands>, name: Option<&str>, base: Option<&str>) -> Cli {
    Cli { command, name: name.map(String::from), base: base.map(String::from), porcelain: false, directory: None }
}

#[test]
fn bare_grove_lists_and_checks_for_deleted_worktree() {
    let r = cli(None, None, None).run();
    assert!(r.orphan_check);
    assert_eq!(r.invocation, Invocation::List);
}

#[test]
fn bare_name_is_go() {
    let r = cli(None, Some("feat"), Some("dev")).run();
    assert!(!r.orphan_check);
    assert_eq!(r.invocation, Invocation::Go { name: "feat".to_string(), base: Some("dev".to_string()) });
}

#[test]
fn subcommands_map_one_to_one() {
    let r = cli(Some(Commands::Go { name: None, base: None }), None, None).run();
    assert!(r.orphan_check);
    assert_eq!(r.invocation, Invocation::GoInteractive);
    let r = cli(Some(Commands::Ls), None, None).run();
    assert!(r.orphan_check);
    assert_eq!(r.invocation, Invocation::List);
    let r = cli(Some(Commands::Rm { name: "x".to_string(), force: true }), None, None).run();
    assert!(!r.orphan_check);
    assert_eq!(r.invocation, Invocation::Rm { name: "x".to_string(), force: true });
    let r = cli(Some(Commands::Pull { paths: vec!["logs".to_string()] }), None, None).run();
    assert_eq!(r.invocation, Invocation::Pull { paths: vec!["logs".to_string()] });
    let r = cli(Some(Commands::Init { shell: Shell::Fish }), None, None).run();
    assert_eq!(r.invocation, Invocation::Init { shell: Shell::Fish });
    let r = cli(Some(Commands::Clean { branch: None }), None, None).run();
    assert_eq!(r.invocation, Invocation::Clean { branch: None });
    let r = cli(Some(Commands::Complete { cmd: Some("rm".to_string()) }), None, None).run();
    assert_eq!(r.invocation, Invocation::Complete { cmd: Some("rm".to_string()) });
}
