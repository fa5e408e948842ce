use grove::git::{
    ahead_behind, cherry_reports_merged, counts_base, default_branch, fzf_choice, ignored_files, parse_worktree_list,
    remote_head_branch, worktree_status, GitWorktree,
};

#[test]
fn worktree_list_is_parsed_record_by_record() {
    let out = "worktree /repo\nHEAD abc\nbranch refs/heads/main\n\nworktree /repo/.git/wt/1\nHEAD def\nbranch refs/heads/feature/x\n\nworktree /repo/.git/wt/2\nHEAD 123\ndetached\n";
    assert_eq!(
        parse_worktree_list(out),
        vec![
            GitWorktree { path: "/repo".to_string(), branch: Some("main".to_string()) },
            GitWorktree { path: "/repo/.git/wt/1".to_string(), branch: Some("feature/x".to_string()) },
            GitWorktree { path: "/repo/.git/wt/2".to_string(), branch: None },
        ]
    );
    assert!(parse_worktree_list("").is_empty());
}

#[test]
fn cherry_output_decides_merged() {
    assert!(cherry_reports_merged(""));
    assert!(cherry_reports_merged("- abc\n- def\n"));
    assert!(!cherry_reports_merged("- abc\n+ def\n"));
}

#[test]
fn default_branch_prefers_main_then_master_then_origin() {
    assert_eq!(default_branch(true, true, None), Some("main".to_string()));
    assert_eq!(default_branch(false, true, None), Some("master".to_string()));
    assert_eq!(default_branch(false, false, Some("refs/remotes/origin/trunk\n")), Some("trunk".to_string()));
    assert_eq!(default_branch(false, false, Some("refs/heads/x")), None);
    assert_eq!(default_branch(false, false, None), None);
    assert_eq!(remote_head_branch("refs/remotes/origin/dev"), Some("dev".to_string()));
}

#[test]
fn status_lines_mark_modified_and_untracked() {
    assert_eq!(worktree_status(""), (false, false));
    assert_eq!(worktree_status(" M src/lib.rs\n"), (true, false));
    assert_eq!(worktree_status("?? new.txt\n"), (false, true));
    assert_eq!(worktree_status("A  x\n?? y\n"), (true, true));
}

#[test]
fn rev_list_counts() {
    assert_eq!(ahead_behind("3\t5\n"), Some((5, 3)));
    assert_eq!(ahead_behind("0\t0"), Some((0, 0)));
    assert_eq!(ahead_behind("x\t1"), None);
    assert_eq!(ahead_behind("4294967296\t1"), None);
    assert_eq!(ahead_behind("1"), None);
    assert_eq!(counts_base(Some("origin/f".to_string()), Some("main")), Some("origin/f".to_string()));
    assert_eq!(counts_base(None, Some("main")), Some("main".to_string()));
    assert_eq!(counts_base(None, None), None);
}

#[test]
fn ignored_files_and_fzf_output() {
    assert_eq!(ignored_files(".env\n\nnode_modules/x\n"), vec![".env", "node_modules/x"]);
    assert_eq!(fzf_choice("  feature \n"), Some("feature".to_string()));
    assert_eq!(fzf_choice("\n"), None);
}
