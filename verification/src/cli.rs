//! The command line: what was asked for, and which command that runs.

use vstd::prelude::*;
use crate::meta::opt_text;
use crate::text::texts;

verus! {

/// The shells that `init` writes an integration script for.
#[derive(Debug, Clone, Copy, PartialEq, Eq, Structural)]
pub enum Shell {
    Bash,
    Zsh,
    Fish,
}

/// The subcommands.
#[derive(Debug, PartialEq, Eq)]
pub enum Commands {
    /// Go to worktree (create if needed, or pick with fzf if no name).
    Go { name: Option<String>, base: Option<String> },
    /// Create worktree without switching.
    Add { name: String, base: Option<String> },
    /// Remove worktree.
    Rm { name: String, force: bool },
    /// List worktrees.
    List,
    /// List worktrees (alias).
    Ls,
    /// Clean stale worktree references.
    Prune,
    /// Sync database with git worktrees (import existing, remove stale).
    Sync,
    /// Remove merged worktrees.
    Clean { branch: Option<String> },
    /// Finish up: cd to main, pull, clean.
    Done,
    /// Copy ignored files from main to current worktree.
    Pull { paths: Vec<String> },
    /// Copy ignored files from current worktree to main.
    Push { paths: Vec<String> },
    /// Print path to worktree.
    Path { name: String },
    /// Output shell integration script.
    Init { shell: Shell },
    /// Output completions (for shell integration).
    Complete { cmd: Option<String> },
}

/// A fast, simple git worktree manager.
#[derive(Debug, PartialEq, Eq)]
pub struct Cli {
    pub command: Option<Commands>,
    /// Worktree name (shorthand for `grove go <name>`).
    pub name: Option<String>,
    /// Base branch for new worktree.
    pub base: Option<String>,
    /// Write tab-separated records instead of the decorated output.
    pub porcelain: bool,
    /// Run as if started in this directory.
    pub directory: Option<String>,
}

/// The command to run, with its arguments.
#[derive(Debug, PartialEq, Eq)]
pub enum Invocation {
    Go { name: String, base: Option<String> },
    GoInteractive,
    Add { name: String, base: Option<String> },
    Rm { name: String, force: bool },
    List,
    Prune,
    Sync,
    Clean { branch: Option<String> },
    Done,
    Pull { paths: Vec<String> },
    Push { paths: Vec<String> },
    Path { name: String },
    Init { shell: Shell },
    Complete { cmd: Option<String> },
}

/// What a command line comes to: the command, and whether to look first for
/// a worktree deleted from under the shell (for the commands that need the
/// repository and name no target: a bare `grove`, `list`, `ls` and `go`
/// without a name).
#[derive(Debug, PartialEq, Eq)]
pub struct Run {
    pub orphan_check: bool,
    pub invocation: Invocation,
}

/// The invocation a command line means.
pub open spec fn invocation_of(cli: Cli, inv: Invocation) -> bool {
    match cli.command {
        Some(Commands::Go { name: Some(n), base }) => inv matches Invocation::Go { name, base: b }
            && name@ == n@ && opt_text(b) == opt_text(base),
        Some(Commands::Go { name: None, .. }) => inv is GoInteractive,
        Some(Commands::Add { name: n, base }) => inv matches Invocation::Add { name, base: b }
            && name@ == n@ && opt_text(b) == opt_text(base),
        Some(Commands::Rm { name: n, force: f }) => inv matches Invocation::Rm { name, force }
            && name@ == n@ && force == f,
        Some(Commands::List) => inv is List,
        Some(Commands::Ls) => inv is List,
        Some(Commands::Prune) => inv is Prune,
        Some(Commands::Sync) => inv is Sync,
        Some(Commands::Clean { branch: c }) => inv matches Invocation::Clean { branch } && opt_text(branch)
            == opt_text(c),
        Some(Commands::Done) => inv is Done,
        Some(Commands::Pull { paths: p }) => inv matches Invocation::Pull { paths } && texts(paths@) == texts(p@),
        Some(Commands::Push { paths: p }) => inv matches Invocation::Push { paths } && texts(paths@) == texts(p@),
        Some(Commands::Path { name: n }) => inv matches Invocation::Path { name } && name@ == n@,
        Some(Commands::Init { shell: s }) => inv matches Invocation::Init { shell } && shell == s,
        Some(Commands::Complete { cmd: c }) => inv matches Invocation::Complete { cmd } && opt_text(cmd) == opt_text(c),
        None => match cli.name {
            Some(n) => inv matches Invocation::Go { name, base } && name@ == n@ && opt_text(base) == opt_text(
                cli.base,
            ),
            None => inv is List,
        },
    }
}

/// Whether a command line needs the check for a deleted worktree.
pub open spec fn needs_orphan_check(cli: Cli) -> bool {
    match cli.command {
        None => cli.name is None,
        Some(Commands::List) => true,
        Some(Commands::Ls) => true,
        Some(Commands::Go { name: None, .. }) => true,
        _ => false,
    }
}

fn copy_opt(o: &Option<String>) -> (r: Option<String>)
    ensures
        opt_text(r) == opt_text(*o),
{
    match o {
        Some(s) => Some(s.clone()),
        None => None,
    }
}

fn copy_all(v: &Vec<String>) -> (r: Vec<String>)
    ensures
        texts(r@) == texts(v@),
{
    let mut r: Vec<String> = Vec::new();
    let mut i: usize = 0;
    while i < v.len()
        invariant
            i <= v.len(),
            texts(r@) == texts(v@).take(i as int),
        decreases v.len() - i,
    {
        let c = v[i].clone();
        let ghost before = texts(r@);
        r.push(c);
        assert(texts(r@) =~= before.push(v@[i as int]@));
        i = i + 1;
        assert(texts(r@) =~= texts(v@).take(i as int));
    }
    assert(texts(v@).take(i as int) =~= texts(v@));
    r
}

impl Cli {
    /// The command this command line runs: a subcommand as given, `go
    /// <name> [base]` for a bare name, and the listing when nothing is
    /// given.
    pub fn run(&self) -> (r: Run)
        ensures
            r.orphan_check == needs_orphan_check(*self),
            invocation_of(*self, r.invocation),
    {
        let orphan_check = match &self.command {
            None => self.name.is_none(),
            Some(Commands::List) => true,
            Some(Commands::Ls) => true,
            Some(Commands::Go { name: None, .. }) => true,
            _ => false,
        };
        let invocation = match &self.command {
            Some(Commands::Go { name: Some(name), base }) => Invocation::Go { name: name.clone(), base: copy_opt(base) },
            Some(Commands::Go { name: None, .. }) => Invocation::GoInteractive,
            Some(Commands::Add { name, base }) => Invocation::Add { name: name.clone(), base: copy_opt(base) },
            Some(Commands::Rm { name, force }) => Invocation::Rm { name: name.clone(), force: *force },
            Some(Commands::List) => Invocation::List,
            Some(Commands::Ls) => Invocation::List,
            Some(Commands::Prune) => Invocation::Prune,
            Some(Commands::Sync) => Invocation::Sync,
            Some(Commands::Clean { branch }) => Invocation::Clean { branch: copy_opt(branch) },
            Some(Commands::Done) => Invocation::Done,
            Some(Commands::Pull { paths }) => Invocation::Pull { paths: copy_all(paths) },
            Some(Commands::Push { paths }) => Invocation::Push { paths: copy_all(paths) },
            Some(Commands::Path { name }) => Invocation::Path { name: name.clone() },
            Some(Commands::Init { shell }) => Invocation::Init { shell: *shell },
            Some(Commands::Complete { cmd }) => Invocation::Complete { cmd: copy_opt(cmd) },
            None => match &self.name {
                Some(name) => Invocation::Go { name: name.clone(), base: copy_opt(&self.base) },
                None => Invocation::List,
            },
        };
        Run { orphan_check, invocation }
    }
}

} // verus!
