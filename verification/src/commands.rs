//! The decisions behind each command. The commands talk to git and to the
//! file system; what they decide from what they learn is here, and the
//! caller carries out the steps decided.

use vstd::prelude::*;
use crate::meta::{
    Meta, MetaError, RowView, WorktreeInfo, has_branch, row_with_branch,
    row_views, opt_text, sorted_listing, any_pick, SyncReport, registered,
};
use crate::paths::{component_after, next_component, store_dir, worktree_dir, wt_dir, store_owner, store_owner_of};
use crate::porcelain::OutputMode;
use crate::listing::{opt_str, or_none, recorded_parent, wt_slot, wt_record, wt_fields, flag_chars, flags_field, Entry, WorktreeStatus};
use crate::text::{texts, same_text, decimal, decimal_text, chars_of, find_from, occurs_at};
use crate::config::{Config, HookCommand, run_hooks, is_hook_plan};
use crate::template::HookContext;

verus! {

/// Why a command stopped.
#[derive(Debug, PartialEq, Eq)]
pub enum CommandError {
    /// No worktree on this branch.
    NotFound(String),
    /// A worktree on this branch exists already.
    AlreadyExists(String),
    /// The worktree has uncommitted changes and removal was not forced.
    UncommittedChanges(String),
    /// A git branch of this name exists already.
    BranchExists(String),
    /// The command needs a worktree but runs in the primary one; the text
    /// names the command.
    InPrimary(String),
    /// The default branch could not be found.
    NoDefaultBranch,
    /// The registry refused (with the message its database gives).
    Registry(MetaError),
}

/// `a` followed by `b`.
pub fn cat(a: &str, b: &str) -> (r: String)
    ensures
        r@ == a@ + b@,
{
    let mut r = a.to_owned();
    r.append(b);
    r
}

/// `a`, `b` and `c` in turn.
pub fn cat3(a: &str, b: &str, c: &str) -> (r: String)
    ensures
        r@ == a@ + b@ + c@,
{
    let mut r = a.to_owned();
    r.append(b);
    r.append(c);
    r
}

/// The message of an error.
pub open spec fn error_message(e: CommandError) -> Seq<char> {
    match e {
        CommandError::NotFound(n) => "Worktree '"@ + n@ + "' not found. Use `grove add "@ + n@
            + "` to create it."@,
        CommandError::AlreadyExists(n) => "Worktree '"@ + n@ + "' already exists"@,
        CommandError::UncommittedChanges(n) => "Worktree '"@ + n@
            + "' has uncommitted changes. Use --force to remove anyway."@,
        CommandError::BranchExists(n) => "Branch '"@ + n@
            + "' already exists. Use a different name or check it out."@,
        CommandError::InPrimary(c) => "Cannot "@ + c@ + ": already in primary worktree"@,
        CommandError::NoDefaultBranch => "Could not determine main branch"@,
        CommandError::Registry(MetaError::IdsExhausted(v)) => "Integer "@ + decimal(v as nat)
            + " out of range at index 0"@,
        CommandError::Registry(MetaError::CounterOverflow) => "integer overflow"@,
        CommandError::Registry(MetaError::BranchTaken) => "UNIQUE constraint failed: worktrees.branch"@,
        CommandError::Registry(MetaError::IdTaken) => "UNIQUE constraint failed: worktrees.id"@,
        CommandError::Registry(MetaError::ClockUnavailable) => "system time before Unix epoch"@,
    }
}

impl CommandError {
    /// The message shown for this error.
    pub fn message(&self) -> (r: String)
        ensures
            r@ == error_message(*self),
    {
        match self {
            CommandError::NotFound(n) => {
                let mut m = cat3("Worktree '", n.as_str(), "' not found. Use `grove add ");
                m.append(n.as_str());
                m.append("` to create it.");
                m
            },
            CommandError::AlreadyExists(n) => cat3("Worktree '", n.as_str(), "' already exists"),
            CommandError::UncommittedChanges(n) => cat3(
                "Worktree '",
                n.as_str(),
                "' has uncommitted changes. Use --force to remove anyway.",
            ),
            CommandError::BranchExists(n) => cat3(
                "Branch '",
                n.as_str(),
                "' already exists. Use a different name or check it out.",
            ),
            CommandError::InPrimary(c) => cat3("Cannot ", c.as_str(), ": already in primary worktree"),
            CommandError::NoDefaultBranch => "Could not determine main branch".to_owned(),
            CommandError::Registry(MetaError::IdsExhausted(v)) => cat3(
                "Integer ",
                decimal_text(*v).as_str(),
                " out of range at index 0",
            ),
            CommandError::Registry(MetaError::CounterOverflow) => "integer overflow".to_owned(),
            CommandError::Registry(MetaError::BranchTaken) => "UNIQUE constraint failed: worktrees.branch".to_owned(),
            CommandError::Registry(MetaError::IdTaken) => "UNIQUE constraint failed: worktrees.id".to_owned(),
            CommandError::Registry(MetaError::ClockUnavailable) => "system time before Unix epoch".to_owned(),
        }
    }
}

/// The id of the worktree that `cwd` lies in: the component of `cwd` right
/// below the store directory of `repo_root`, if `cwd` is below it.
pub fn current_worktree_id(repo_root: &str, cwd: &str) -> (r: Option<String>)
    ensures
        opt_text(r) == next_component(cwd@, store_dir(repo_root@)),
{
    let dir = wt_dir(repo_root);
    let r = component_after(cwd, dir.as_str());
    r
}

/// Where `go` leads.
#[derive(Debug, PartialEq, Eq)]
pub enum GoTarget {
    /// The primary worktree: the name is the default branch.
    Primary,
    /// The registered worktree with this id.
    Existing(String),
    /// The registered worktree with this id, whose directory is missing:
    /// `go` falls back to the primary worktree.
    Missing(String),
    /// A new worktree, with this parent.
    Create(Option<String>),
}

/// The parent of a worktree created from within `current_id`: none when a
/// base branch is given explicitly (the worktree is then top level),
/// otherwise the current worktree (a contextual child).
pub open spec fn new_parent(base: Option<&str>, current_id: Option<&str>) -> Option<Seq<char>> {
    if base is Some {
        None
    } else {
        opt_str(current_id)
    }
}

fn parent_for(base: Option<&str>, current_id: Option<&str>) -> (r: Option<String>)
    ensures
        opt_text(r) == new_parent(base, current_id),
{
    match (base, current_id) {
        (None, Some(c)) => Some(c.to_owned()),
        _ => None,
    }
}

/// Where `go <name>` leads from within `current_id`: the primary worktree
/// when `name` is the default branch; the worktree on branch `name` when one
/// is registered (a child of the current worktree first, though branch
/// names being unique that is the same one); otherwise a new worktree. The
/// caller checks the directory of an existing one with `arrive`.
pub fn go(meta: &Meta, name: &str, main_branch: &str, current_id: Option<&str>, base: Option<&str>) -> (r: GoTarget)
    requires
        meta.wf(),
    ensures
        name@ == main_branch@ ==> r is Primary,
        name@ != main_branch@ && has_branch(meta.rows_view(), name@) ==> (r matches GoTarget::Existing(id)
            && id@ == row_with_branch(meta.rows_view(), name@).0),
        name@ != main_branch@ && !has_branch(meta.rows_view(), name@) ==> (r matches GoTarget::Create(p)
            && opt_text(p) == new_parent(base, current_id)),
{
    if same_text(name, main_branch) {
        return GoTarget::Primary;
    }
    match meta.find_by_branch_with_context(name, current_id) {
        Some(id) => GoTarget::Existing(id),
        None => GoTarget::Create(parent_for(base, current_id)),
    }
}

/// An existing target whose directory is missing becomes `Missing`; any
/// other target stays as it is.
pub fn arrive(target: GoTarget, dir_exists: bool) -> (r: GoTarget)
    ensures
        match target {
            GoTarget::Existing(id) => if dir_exists {
                r matches GoTarget::Existing(i) && i@ == id@
            } else {
                r matches GoTarget::Missing(i) && i@ == id@
            },
            _ => r == target,
        },
{
    match target {
        GoTarget::Existing(id) => if dir_exists {
            GoTarget::Existing(id)
        } else {
            GoTarget::Missing(id)
        },
        other => other,
    }
}

/// What `add <name>` is to do from within `current_id`: refuse a name that
/// is registered already, or give the parent of the new worktree.
pub fn add(meta: &Meta, name: &str, base: Option<&str>, current_id: Option<&str>) -> (r: Result<
    Option<String>,
    CommandError,
>)
    requires
        meta.wf(),
    ensures
        has_branch(meta.rows_view(), name@) ==> (r matches Err(CommandError::AlreadyExists(n)) && n@ == name@),
        !has_branch(meta.rows_view(), name@) ==> (r matches Ok(p) && opt_text(p) == new_parent(base, current_id)),
{
    if meta.find_by_branch(name).is_some() {
        return Err(CommandError::AlreadyExists(name.to_owned()));
    }
    Ok(parent_for(base, current_id))
}

/// Which ignored files a new worktree receives.
#[derive(Debug, PartialEq, Eq)]
pub enum CopySource {
    Nothing,
    /// Every ignored file of the primary worktree.
    AllIgnored,
    /// The ignored files that these patterns choose.
    Matching(Vec<String>),
}

/// `copyignored` takes every ignored file and so supersedes the `copy`
/// patterns.
pub fn copy_source(config: &Config) -> (r: CopySource)
    ensures
        config.copy_ignored ==> r is AllIgnored,
        !config.copy_ignored && config.copy@.len() > 0 ==> (r matches CopySource::Matching(p) && texts(p@)
            == texts(config.copy@)),
        !config.copy_ignored && config.copy@.len() == 0 ==> r is Nothing,
{
    if config.copy_ignored {
        CopySource::AllIgnored
    } else if config.copy.len() > 0 {
        let mut p: Vec<String> = Vec::new();
        let mut i: usize = 0;
        while i < config.copy.len()
            invariant
                i <= config.copy.len(),
                texts(p@) == texts(config.copy@).take(i as int),
            decreases config.copy.len() - i,
        {
            let c = config.copy[i].clone();
            let ghost before = texts(p@);
            p.push(c);
            assert(texts(p@) =~= before.push(config.copy@[i as int]@));
            i = i + 1;
            assert(texts(p@) =~= texts(config.copy@).take(i as int));
        }
        assert(texts(config.copy@).take(i as int) =~= texts(config.copy@));
        CopySource::Matching(p)
    } else {
        CopySource::Nothing
    }
}

/// A worktree registered for creation: where it goes, what it branches
/// from, which files it receives and which hooks then run. If
/// `git worktree add` then fails, the caller unregisters `id` again.
#[derive(Debug, PartialEq, Eq)]
pub struct Creation {
    pub id: String,
    pub path: String,
    pub base_branch: String,
    pub copy: CopySource,
    pub post_create: Vec<Vec<HookCommand>>,
}

/// Registers a new worktree on `branch` under `parent_id`, branching from
/// `base` or else from the default branch (`None` when it could not be
/// found). A branch that git has already refuses the creation.
pub fn create_worktree(
    meta: &mut Meta,
    config: &Config,
    branch: &str,
    base: Option<&str>,
    parent_id: Option<&str>,
    default_branch: Option<&str>,
    branch_exists: bool,
) -> (r: Result<Creation, CommandError>)
    requires
        old(meta).wf(),
    ensures
        final(meta).wf(),
        base is None && default_branch is None ==> (r matches Err(CommandError::NoDefaultBranch)
            && *final(meta) == *old(meta)),
        !(base is None && default_branch is None) && branch_exists ==> (r matches Err(CommandError::BranchExists(b))
            && b@ == branch@ && *final(meta) == *old(meta)),
        !(base is None && default_branch is None) && !branch_exists ==> match r {
            Ok(c) => registered(*old(meta), *final(meta), branch@, opt_str(parent_id), Ok(c.id))
                && c.path@ == worktree_dir(old(meta).root(), c.id@)
                && c.base_branch@ == (match base {
                    Some(b) => b@,
                    None => default_branch->0@,
                })
                && (config.copy_ignored ==> c.copy is AllIgnored)
                && (!config.copy_ignored && config.copy@.len() > 0 ==> (c.copy matches CopySource::Matching(p)
                    && texts(p@) == texts(config.copy@)))
                && (!config.copy_ignored && config.copy@.len() == 0 ==> c.copy is Nothing)
                && is_hook_plan(config.hooks.post_create@, c.path@, branch@, c.id@, old(meta).root(), c.post_create@),
            Err(CommandError::Registry(e)) => registered(*old(meta), *final(meta), branch@, opt_str(parent_id), Err(e)),
            Err(_) => false,
        },
{
    let base_branch = match base {
        Some(b) => b.to_owned(),
        None => match default_branch {
            Some(d) => d.to_owned(),
            None => {
                return Err(CommandError::NoDefaultBranch);
            },
        },
    };
    if branch_exists {
        return Err(CommandError::BranchExists(branch.to_owned()));
    }
    let id = match meta.add_worktree(branch, parent_id) {
        Ok(id) => id,
        Err(e) => {
            return Err(CommandError::Registry(e));
        },
    };
    let path = meta.worktree_path(id.as_str());
    let repo = meta.repo_root().clone();
    let ctx = HookContext { path: path.as_str(), branch, id: id.as_str(), repo: repo.as_str() };
    let post_create = run_hooks(&config.hooks.post_create, &ctx);
    let copy = copy_source(config);
    Ok(Creation { id, path, base_branch, copy, post_create })
}

/// The `created` record of a new worktree.
pub fn created_record(id: &str, branch: &str, path: &str) -> (r: Vec<String>)
    ensures
        texts(r@) == seq!["created"@, id@, branch@, path@],
{
    let mut r: Vec<String> = Vec::new();
    r.push("created".to_owned());
    r.push(id.to_owned());
    r.push(branch.to_owned());
    r.push(path.to_owned());
    assert(texts(r@) =~= seq!["created"@, id@, branch@, path@]);
    r
}

/// The flags of the `wt` record of a worktree just created: `c` when it is
/// the current one, then `m`, `u` and `x` from its status, or `-` when none
/// apply. It is never the primary worktree, nor an orphan.
pub open spec fn created_flags(is_current: bool, status: WorktreeStatus) -> Seq<char> {
    let f = (if is_current { seq!['c'] } else { Seq::empty() })
        + (if status.has_modified { seq!['m'] } else { Seq::empty() })
        + (if status.has_untracked { seq!['u'] } else { Seq::empty() })
        + (if !status.dir_exists { seq!['x'] } else { Seq::empty() });
    if f.len() == 0 {
        seq!['-']
    } else {
        f
    }
}

proof fn lemma_created_flags(is_current: bool, status: WorktreeStatus)
    ensures
        forall|i: int| 0 <= i < created_flags(is_current, status).len() ==> #[trigger] created_flags(is_current, status)[i]
            != 'p',
        created_flags(is_current, status).contains('c') <==> is_current,
{
    let f = created_flags(is_current, status);
    let a = if is_current { seq!['c'] } else { Seq::<char>::empty() };
    let b = if status.has_modified { seq!['m'] } else { Seq::<char>::empty() };
    let c = if status.has_untracked { seq!['u'] } else { Seq::<char>::empty() };
    let d = if !status.dir_exists { seq!['x'] } else { Seq::<char>::empty() };
    let g = a + b + c + d;
    assert forall|i: int| 0 <= i < g.len() implies g[i] != 'p' && (g[i] == 'c' ==> is_current && i == 0) by {
        if i < a.len() {
            assert(g[i] == a[i]);
        } else if i < a.len() + b.len() {
            assert(g[i] == b[i - a.len()]);
        } else if i < a.len() + b.len() + c.len() {
            assert(g[i] == c[i - a.len() - b.len()]);
        } else {
            assert(g[i] == d[i - a.len() - b.len() - c.len()]);
        }
    }
    if is_current {
        assert(g[0] == 'c');
        assert(f[0] == 'c');
    }
    if g.len() == 0 {
        assert(f =~= seq!['-']);
        assert(f[0] == '-');
    }
}

/// The records of a worktree just created by `add` or `go`: `created`,
/// then the `wt` record of the same worktree, from within the worktree
/// `is_current` says whether it is now the current one. `status` and
/// `base_ref` are what git reported of it. Both records carry the same id,
/// and the flags never mark the new worktree primary; they mark it current
/// exactly when it is.
pub fn created_records(
    meta: &Meta,
    id: &str,
    branch: &str,
    path: &str,
    is_current: bool,
    status: WorktreeStatus,
    base_ref: Option<String>,
) -> (r: Vec<Vec<String>>)
    requires
        meta.wf(),
    ensures
        r@.len() == 2,
        texts(r@[0]@) == seq!["created"@, id@, branch@, path@],
        texts(r@[1]@) == seq![
            seq!['w', 't'],
            id@,
            branch@,
            path@,
            or_none(recorded_parent(meta.rows_view(), Some(id@))),
            created_flags(is_current, status),
            decimal(status.ahead as nat),
            decimal(status.behind as nat),
            or_none(opt_text(base_ref)),
        ],
        r@[0]@[1]@ == r@[1]@[1]@,
        forall|i: int| 0 <= i < r@[1]@[5]@.len() ==> #[trigger] r@[1]@[5]@[i] != 'p',
        r@[1]@[5]@.contains('c') <==> is_current,
{
    let slot = wt_slot(meta, Some(id), branch, path, false, is_current, None);
    let e = Entry::from_slot(slot, status, base_ref);
    proof {
        assert(flag_chars(e) =~= (if is_current { seq!['c'] } else { Seq::<char>::empty() })
            + (if status.has_modified { seq!['m'] } else { Seq::<char>::empty() })
            + (if status.has_untracked { seq!['u'] } else { Seq::<char>::empty() })
            + (if !status.dir_exists { seq!['x'] } else { Seq::<char>::empty() }));
        assert(flags_field(e) == created_flags(is_current, status));
        lemma_created_flags(is_current, status);
    }
    let wt = wt_record(&e);
    let mut r: Vec<Vec<String>> = Vec::new();
    r.push(created_record(id, branch, path));
    r.push(wt);
    proof {
        assert(texts(r@[1]@) == wt_fields(e));
        assert(r@[1]@[5]@ == texts(r@[1]@)[5]);
        assert(r@[1]@[1]@ == texts(r@[1]@)[1]);
        let r0 = r@[0]@;
        assert(texts(r0).len() == 4);
        assert(texts(r0).len() == r0.len());
        assert(r0[1]@ == texts(r0)[1]);
    }
    r
}

/// The worktree that `rm <name>` removes.
pub fn rm_target(meta: &Meta, name: &str) -> (r: Result<String, CommandError>)
    requires
        meta.wf(),
    ensures
        has_branch(meta.rows_view(), name@) ==> (r matches Ok(id) && id@ == row_with_branch(meta.rows_view(), name@).0),
        !has_branch(meta.rows_view(), name@) ==> (r matches Err(CommandError::NotFound(n)) && n@ == name@),
{
    match meta.find_by_branch(name) {
        Some(id) => Ok(id),
        None => Err(CommandError::NotFound(name.to_owned())),
    }
}

/// Whether git reports changes: `dirty` is (modified, untracked), `None`
/// when git could not tell, which counts as clean.
pub open spec fn has_changes(dirty: Option<(bool, bool)>) -> bool {
    match dirty {
        Some(d) => d.0 || d.1,
        None => false,
    }
}

/// A worktree whose directory exists and has uncommitted changes is only
/// removed when forced.
pub fn rm_check(name: &str, force: bool, dir_exists: bool, dirty: Option<(bool, bool)>) -> (r: Result<(), CommandError>)
    ensures
        (!force && dir_exists && has_changes(dirty)) ==> (r matches Err(CommandError::UncommittedChanges(n))
            && n@ == name@),
        !(!force && dir_exists && has_changes(dirty)) ==> r is Ok,
{
    let changed = match dirty {
        Some(d) => d.0 || d.1,
        None => false,
    };
    if !force && dir_exists && changed {
        Err(CommandError::UncommittedChanges(name.to_owned()))
    } else {
        Ok(())
    }
}

/// The records of a removal: `removed` with reason `explicit`, then one
/// `orphaned` record per child left behind.
pub fn rm_records(id: &str, name: &str, orphaned: &Vec<(String, WorktreeInfo)>) -> (r: Vec<Vec<String>>)
    ensures
        r@.len() == orphaned@.len() + 1,
        texts(r@[0]@) == seq!["removed"@, id@, name@, "explicit"@],
        forall|i: int| 0 <= i < orphaned@.len() ==> texts(#[trigger] r@[i + 1]@) == seq![
            "orphaned"@,
            orphaned@[i].0@,
            orphaned@[i].1.branch@,
        ],
{
    let mut first: Vec<String> = Vec::new();
    first.push("removed".to_owned());
    first.push(id.to_owned());
    first.push(name.to_owned());
    first.push("explicit".to_owned());
    assert(texts(first@) =~= seq!["removed"@, id@, name@, "explicit"@]);
    let mut r: Vec<Vec<String>> = Vec::new();
    r.push(first);
    let mut i: usize = 0;
    while i < orphaned.len()
        invariant
            i <= orphaned.len(),
            r@.len() == i + 1,
            texts(r@[0]@) == seq!["removed"@, id@, name@, "explicit"@],
            forall|k: int| 0 <= k < i ==> texts(#[trigger] r@[k + 1]@) == seq![
                "orphaned"@,
                orphaned@[k].0@,
                orphaned@[k].1.branch@,
            ],
        decreases orphaned.len() - i,
    {
        let mut rec: Vec<String> = Vec::new();
        rec.push("orphaned".to_owned());
        rec.push(orphaned[i].0.clone());
        rec.push(orphaned[i].1.branch.clone());
        assert(texts(rec@) =~= seq!["orphaned"@, orphaned@[i as int].0@, orphaned@[i as int].1.branch@]);
        r.push(rec);
        i = i + 1;
    }
    r
}

/// What `clean` does with one registered worktree.
#[derive(Debug, Clone, Copy, PartialEq, Eq, Structural)]
pub enum CleanDecision {
    /// Not merged: left alone.
    Keep,
    /// Merged but with uncommitted changes: skipped.
    Skip,
    /// Merged: removed.
    Remove,
}

/// The branch a worktree is checked against: its upstream when it has one,
/// else the target.
pub fn merge_target(upstream: Option<String>, target: &str) -> (r: String)
    ensures
        r@ == match upstream {
            Some(u) => u@,
            None => target@,
        },
{
    match upstream {
        Some(u) => u,
        None => target.to_owned(),
    }
}

/// What `clean` decides for one worktree.
pub open spec fn clean_choice(merged: bool, dir_exists: bool, dirty: Option<(bool, bool)>) -> CleanDecision {
    if !merged {
        CleanDecision::Keep
    } else if dir_exists && has_changes(dirty) {
        CleanDecision::Skip
    } else {
        CleanDecision::Remove
    }
}

/// A merged worktree is removed unless its directory exists and has
/// uncommitted changes, in which case it is skipped.
pub fn clean_decision(merged: bool, dir_exists: bool, dirty: Option<(bool, bool)>) -> (r: CleanDecision)
    ensures
        r == clean_choice(merged, dir_exists, dirty),
        !merged ==> r is Keep,
        merged && dir_exists && has_changes(dirty) ==> r is Skip,
        merged && !(dir_exists && has_changes(dirty)) ==> r is Remove,
{
    if !merged {
        return CleanDecision::Keep;
    }
    let changed = match dirty {
        Some(d) => d.0 || d.1,
        None => false,
    };
    if dir_exists && changed {
        CleanDecision::Skip
    } else {
        CleanDecision::Remove
    }
}

/// The `skipped` record of a dirty worktree.
pub fn skipped_record(id: &str, branch: &str) -> (r: Vec<String>)
    ensures
        texts(r@) == seq!["skipped"@, id@, branch@, "dirty"@],
{
    let mut r: Vec<String> = Vec::new();
    r.push("skipped".to_owned());
    r.push(id.to_owned());
    r.push(branch.to_owned());
    r.push("dirty".to_owned());
    assert(texts(r@) =~= seq!["skipped"@, id@, branch@, "dirty"@]);
    r
}

/// The `removed` record of a worktree cleaned as merged into `into`.
pub fn merged_record(id: &str, branch: &str, into: &str) -> (r: Vec<String>)
    ensures
        texts(r@) == seq!["removed"@, id@, branch@, "merged:"@ + into@],
{
    let mut r: Vec<String> = Vec::new();
    r.push("removed".to_owned());
    r.push(id.to_owned());
    r.push(branch.to_owned());
    r.push(cat("merged:", into));
    assert(texts(r@) =~= seq!["removed"@, id@, branch@, "merged:"@ + into@]);
    r
}

/// What `clean` has done so far: how many worktrees it removed and
/// skipped, and whether the current one was among those removed.
#[derive(Debug, Clone, Copy, PartialEq, Eq, Structural)]
pub struct CleanTally {
    pub removed: u32,
    pub skipped: u32,
    pub removed_current: bool,
}

impl CleanTally {
    /// Nothing done yet.
    pub fn new() -> (r: CleanTally)
        ensures
            r.removed == 0 && r.skipped == 0 && !r.removed_current,
    {
        CleanTally { removed: 0, skipped: 0, removed_current: false }
    }

    /// Counts the decision taken for worktree `id` (the counts stop at the
    /// largest `u32`).
    pub fn count(&mut self, decision: CleanDecision, id: &str, current_id: Option<&str>)
        ensures
            final(self).removed == (if decision is Remove && old(self).removed < u32::MAX {
                old(self).removed + 1
            } else {
                old(self).removed as int
            }),
            final(self).skipped == (if decision is Skip && old(self).skipped < u32::MAX {
                old(self).skipped + 1
            } else {
                old(self).skipped as int
            }),
            final(self).removed_current == (old(self).removed_current || (decision is Remove
                && opt_str(current_id) == Some(id@))),
    {
        match decision {
            CleanDecision::Keep => {},
            CleanDecision::Skip => {
                self.skipped = self.skipped.saturating_add(1);
            },
            CleanDecision::Remove => {
                self.removed = self.removed.saturating_add(1);
                let here = match current_id {
                    Some(c) => same_text(c, id),
                    None => false,
                };
                self.removed_current = self.removed_current || here;
            },
        }
    }
}

/// What `clean` learned of one registered worktree before deciding: its id
/// and branch, the branch it is checked against, whether git reports it
/// merged there, whether its directory exists, and what git status
/// reported of a merged one (`None` when it was not asked or could not
/// tell).
#[derive(Debug, PartialEq, Eq)]
pub struct CleanProbe {
    pub id: String,
    pub branch: String,
    pub into: String,
    pub merged: bool,
    pub dir_exists: bool,
    pub dirty: Option<(bool, bool)>,
}

/// The decision for a probed worktree.
pub open spec fn probe_choice(p: CleanProbe) -> CleanDecision {
    clean_choice(p.merged, p.dir_exists, p.dirty)
}

/// The record `clean` emits for a probed worktree: `skipped` for a skipped
/// one, `removed` for a removed one, none for one left alone.
pub open spec fn probe_record(p: CleanProbe) -> Seq<Seq<char>> {
    match probe_choice(p) {
        CleanDecision::Keep => Seq::empty(),
        CleanDecision::Skip => seq!["skipped"@, p.id@, p.branch@, "dirty"@],
        CleanDecision::Remove => seq!["removed"@, p.id@, p.branch@, "merged:"@ + p.into@],
    }
}

/// How many of the probed worktrees get decision `d`.
pub open spec fn decided(ps: Seq<CleanProbe>, d: CleanDecision) -> nat
    decreases ps.len(),
{
    if ps.len() == 0 {
        0
    } else {
        decided(ps.drop_last(), d) + if probe_choice(ps.last()) == d {
            1nat
        } else {
            0nat
        }
    }
}

/// A count as a `u32` keeps it: stopping at the largest `u32`.
pub open spec fn capped(n: nat) -> nat {
    if n > u32::MAX {
        u32::MAX as nat
    } else {
        n
    }
}

proof fn lemma_none_decided(ps: Seq<CleanProbe>, d: CleanDecision)
    requires
        decided(ps, d) == 0,
    ensures
        forall|i: int| 0 <= i < ps.len() ==> probe_choice(#[trigger] ps[i]) != d,
    decreases ps.len(),
{
    if ps.len() > 0 {
        lemma_none_decided(ps.drop_last(), d);
        assert forall|i: int| 0 <= i < ps.len() implies probe_choice(#[trigger] ps[i]) != d by {
            if i < ps.len() - 1 {
                assert(ps[i] == ps.drop_last()[i]);
            }
        }
    }
}

/// What `clean` does over all registered worktrees: the decision and the
/// record for each, in turn, and the tally of the whole run.
#[derive(Debug, PartialEq, Eq)]
pub struct CleanPlan {
    pub decisions: Vec<CleanDecision>,
    pub records: Vec<Vec<String>>,
    pub tally: CleanTally,
}

/// Plans `clean` over the probed worktrees, from within `current_id`. A
/// merged worktree is removed unless its directory exists with uncommitted
/// changes, when it is skipped; an unmerged one is left alone. The tally
/// counts the removed and the skipped worktrees, and says whether the
/// current one was removed (the only case in which `clean` leads back to
/// the primary worktree). When nothing is removed or skipped, every
/// worktree is left alone and no record is emitted.
pub fn clean_plan(probes: &Vec<CleanProbe>, current_id: Option<&str>) -> (r: CleanPlan)
    ensures
        r.decisions@.len() == probes@.len(),
        r.records@.len() == probes@.len(),
        forall|i: int| 0 <= i < probes@.len() ==> r.decisions@[i] == probe_choice(#[trigger] probes@[i])
            && texts(r.records@[i]@) == probe_record(probes@[i]),
        r.tally.removed == capped(decided(probes@, CleanDecision::Remove)),
        r.tally.skipped == capped(decided(probes@, CleanDecision::Skip)),
        r.tally.removed_current == exists|i: int| 0 <= i < probes@.len() && probe_choice(#[trigger] probes@[i])
            is Remove && opt_str(current_id) == Some(probes@[i].id@),
        r.tally.removed == 0 && r.tally.skipped == 0 ==> forall|i: int| 0 <= i < probes@.len() ==> (
            #[trigger] r.decisions@[i]) is Keep && r.records@[i]@.len() == 0,
{
    let mut decisions: Vec<CleanDecision> = Vec::new();
    let mut records: Vec<Vec<String>> = Vec::new();
    let mut tally = CleanTally::new();
    let mut i: usize = 0;
    while i < probes.len()
        invariant
            i <= probes.len(),
            decisions@.len() == i,
            records@.len() == i,
            forall|j: int| 0 <= j < i ==> decisions@[j] == probe_choice(#[trigger] probes@[j])
                && texts(records@[j]@) == probe_record(probes@[j]),
            tally.removed == capped(decided(probes@.take(i as int), CleanDecision::Remove)),
            tally.skipped == capped(decided(probes@.take(i as int), CleanDecision::Skip)),
            tally.removed_current == exists|j: int| 0 <= j < i && probe_choice(#[trigger] probes@[j]) is Remove
                && opt_str(current_id) == Some(probes@[j].id@),
        decreases probes.len() - i,
    {
        let p = &probes[i];
        let d = clean_decision(p.merged, p.dir_exists, p.dirty);
        let rec = match d {
            CleanDecision::Keep => Vec::new(),
            CleanDecision::Skip => skipped_record(p.id.as_str(), p.branch.as_str()),
            CleanDecision::Remove => merged_record(p.id.as_str(), p.branch.as_str(), p.into.as_str()),
        };
        proof {
            if d is Keep {
                assert(texts(rec@) =~= Seq::<Seq<char>>::empty());
            }
            assert(probes@.take(i + 1).drop_last() =~= probes@.take(i as int));
            assert(probes@.take(i + 1).last() == probes@[i as int]);
        }
        tally.count(d, p.id.as_str(), current_id);
        decisions.push(d);
        records.push(rec);
        i = i + 1;
        assert(forall|j: int| 0 <= j < i ==> decisions@[j] == probe_choice(#[trigger] probes@[j])
            && texts(records@[j]@) == probe_record(probes@[j])) by {
            assert forall|j: int| 0 <= j < i implies decisions@[j] == probe_choice(#[trigger] probes@[j])
                && texts(records@[j]@) == probe_record(probes@[j]) by {
                if j < i - 1 {
                } else {
                    assert(records@[j] == rec);
                }
            }
        }
    }
    assert(probes@.take(i as int) =~= probes@);
    proof {
        if tally.removed == 0 && tally.skipped == 0 {
            lemma_none_decided(probes@, CleanDecision::Remove);
            lemma_none_decided(probes@, CleanDecision::Skip);
            assert forall|j: int| 0 <= j < probes@.len() implies (#[trigger] decisions@[j]) is Keep
                && records@[j]@.len() == 0 by {
                assert(decisions@[j] == probe_choice(probes@[j]));
                assert(texts(records@[j]@).len() == records@[j]@.len());
            }
        }
    }
    CleanPlan { decisions, records, tally }
}

/// The closing note of `clean`.
pub fn clean_summary(removed: u32, skipped: u32) -> (r: String)
    ensures
        removed == 0 && skipped == 0 ==> r@ == "✓ No merged worktrees to clean"@,
        !(removed == 0 && skipped == 0) && skipped == 0 ==> r@ == "✓ Cleaned "@ + decimal(removed as nat)
            + " worktree(s)"@,
        !(removed == 0 && skipped == 0) && skipped > 0 ==> r@ == "✓ Cleaned "@ + decimal(removed as nat)
            + " worktree(s)"@ + ", skipped "@ + decimal(skipped as nat),
{
    if removed == 0 && skipped == 0 {
        return "✓ No merged worktrees to clean".to_owned();
    }
    let mut r = cat3("✓ Cleaned ", decimal_text(removed as u64).as_str(), " worktree(s)");
    if skipped > 0 {
        r.append(", skipped ");
        r.append(decimal_text(skipped as u64).as_str());
    }
    r
}

/// The directory of the worktree on branch `name` (`grove path <name>`).
pub fn path(meta: &Meta, name: &str) -> (r: Result<String, CommandError>)
    requires
        meta.wf(),
    ensures
        has_branch(meta.rows_view(), name@) ==> (r matches Ok(p) && p@ == worktree_dir(
            meta.root(),
            row_with_branch(meta.rows_view(), name@).0,
        )),
        !has_branch(meta.rows_view(), name@) ==> (r matches Err(CommandError::NotFound(n)) && n@ == name@),
{
    match meta.find_by_branch(name) {
        Some(id) => Ok(meta.worktree_path(id.as_str())),
        None => Err(CommandError::NotFound(name.to_owned())),
    }
}

/// The `path` record.
pub fn path_record(path: &str) -> (r: Vec<String>)
    ensures
        texts(r@) == seq!["path"@, path@],
{
    let mut r: Vec<String> = Vec::new();
    r.push("path".to_owned());
    r.push(path.to_owned());
    assert(texts(r@) =~= seq!["path"@, path@]);
    r
}

/// The `cd` record, which stands in porcelain output for the line the shell
/// wrapper would act on.
pub fn cd_record(path: &str) -> (r: Vec<String>)
    ensures
        texts(r@) == seq!["cd"@, path@],
{
    let mut r: Vec<String> = Vec::new();
    r.push("cd".to_owned());
    r.push(path.to_owned());
    assert(texts(r@) =~= seq!["cd"@, path@]);
    r
}

/// The source and destination of `pull`: from the primary worktree into the
/// current one. Refused in the primary worktree.
pub fn pull(meta: &Meta, current_id: Option<&str>) -> (r: Result<(String, String), CommandError>)
    ensures
        match current_id {
            Some(id) => r matches Ok(d) && d.0@ == meta.root() && d.1@ == worktree_dir(meta.root(), id@),
            None => r matches Err(CommandError::InPrimary(c)) && c@ == "pull"@,
        },
{
    match current_id {
        Some(id) => Ok((meta.repo_root().clone(), meta.worktree_path(id))),
        None => Err(CommandError::InPrimary("pull".to_owned())),
    }
}

/// The source and destination of `push`: from the current worktree into the
/// primary one. Refused in the primary worktree.
pub fn push(meta: &Meta, current_id: Option<&str>) -> (r: Result<(String, String), CommandError>)
    ensures
        match current_id {
            Some(id) => r matches Ok(d) && d.0@ == worktree_dir(meta.root(), id@) && d.1@ == meta.root(),
            None => r matches Err(CommandError::InPrimary(c)) && c@ == "push"@,
        },
{
    match current_id {
        Some(id) => Ok((meta.worktree_path(id), meta.repo_root().clone())),
        None => Err(CommandError::InPrimary("push".to_owned())),
    }
}

/// The names offered for completion after `cmd`: the default branch (when
/// known) unless completing `rm`, which cannot remove the primary worktree,
/// then every registered branch, sorted.
pub fn complete(meta: &Meta, cmd: Option<&str>, main_branch: Option<&str>) -> (r: Vec<String>)
    requires
        meta.wf(),
    ensures
        ({
            let branches = sorted_listing(meta.rows_view(), any_pick()).map_values(|x: RowView| x.1);
            let include_main = !(cmd matches Some(c) && c@ == "rm"@);
            texts(r@) == match main_branch {
                Some(m) => if include_main {
                    seq![m@] + branches
                } else {
                    branches
                },
                None => branches,
            }
        }),
{
    let mut out: Vec<String> = Vec::new();
    let include_main = match cmd {
        Some(c) => !same_text(c, "rm"),
        None => true,
    };
    match main_branch {
        Some(m) => if include_main {
            out.push(m.to_owned());
        },
        None => {},
    }
    let ghost head = texts(out@);
    let all = meta.all();
    let ghost lv = row_views(all@);
    let mut i: usize = 0;
    while i < all.len()
        invariant
            i <= all.len(),
            lv == row_views(all@),
            texts(out@) == head + lv.take(i as int).map_values(|x: RowView| x.1),
        decreases all.len() - i,
    {
        let ghost before = texts(out@);
        out.push(all[i].1.branch.clone());
        assert(lv[i as int].1 == all@[i as int].1.branch@);
        assert(lv.take(i + 1).map_values(|x: RowView| x.1) =~= lv.take(i as int).map_values(|x: RowView| x.1).push(
            lv[i as int].1,
        ));
        assert(texts(out@) =~= before.push(lv[i as int].1));
        i = i + 1;
    }
    assert(lv.take(i as int) =~= lv);
    proof {
        match main_branch {
            Some(m) => if include_main {
                assert(head =~= seq![m@]);
            } else {
                assert(head =~= Seq::<Seq<char>>::empty());
            },
            None => {
                assert(head =~= Seq::<Seq<char>>::empty());
            },
        }
    }
    out
}

/// The records of a sync: `imported` per imported worktree, then `removed`
/// with reason `stale` per dropped entry.
pub fn sync_records(report: &SyncReport) -> (r: Vec<Vec<String>>)
    ensures
        r@.len() == report.imported@.len() + report.removed@.len(),
        forall|i: int| 0 <= i < report.imported@.len() ==> texts(#[trigger] r@[i]@) == seq![
            "imported"@,
            report.imported@[i].0@,
            report.imported@[i].1.branch@,
        ],
        forall|i: int| 0 <= i < report.removed@.len() ==> texts(#[trigger] r@[report.imported@.len() + i]@) == seq![
            "removed"@,
            report.removed@[i].0@,
            report.removed@[i].1@,
            "stale"@,
        ],
{
    let mut r: Vec<Vec<String>> = Vec::new();
    let mut i: usize = 0;
    while i < report.imported.len()
        invariant
            i <= report.imported@.len(),
            r@.len() == i,
            forall|k: int| 0 <= k < i ==> texts(#[trigger] r@[k]@) == seq![
                "imported"@,
                report.imported@[k].0@,
                report.imported@[k].1.branch@,
            ],
        decreases report.imported@.len() - i,
    {
        let mut rec: Vec<String> = Vec::new();
        rec.push("imported".to_owned());
        rec.push(report.imported[i].0.clone());
        rec.push(report.imported[i].1.branch.clone());
        assert(texts(rec@) =~= seq!["imported"@, report.imported@[i as int].0@, report.imported@[i as int].1.branch@]);
        r.push(rec);
        i = i + 1;
    }
    let n = report.imported.len();
    let mut j: usize = 0;
    while j < report.removed.len()
        invariant
            j <= report.removed@.len(),
            n == report.imported@.len(),
            r@.len() == n + j,
            forall|k: int| 0 <= k < n ==> texts(#[trigger] r@[k]@) == seq![
                "imported"@,
                report.imported@[k].0@,
                report.imported@[k].1.branch@,
            ],
            forall|k: int| 0 <= k < j ==> texts(#[trigger] r@[n + k]@) == seq![
                "removed"@,
                report.removed@[k].0@,
                report.removed@[k].1@,
                "stale"@,
            ],
        decreases report.removed@.len() - j,
    {
        let mut rec: Vec<String> = Vec::new();
        rec.push("removed".to_owned());
        rec.push(report.removed[j].0.clone());
        rec.push(report.removed[j].1.clone());
        rec.push("stale".to_owned());
        assert(texts(rec@) =~= seq!["removed"@, report.removed@[j as int].0@, report.removed@[j as int].1@, "stale"@]);
        r.push(rec);
        j = j + 1;
    }
    r
}

/// The closing note of a sync.
pub fn sync_summary(report: &SyncReport) -> (r: String)
    ensures
        report.imported@.len() == 0 && report.removed@.len() == 0 ==> r@ == "✓ Already in sync"@,
        !(report.imported@.len() == 0 && report.removed@.len() == 0) ==> r@ == "✓ Synced: "@ + decimal(
            report.imported@.len() as nat,
        ) + " imported, "@ + decimal(report.removed@.len() as nat) + " removed"@,
{
    if report.imported.len() == 0 && report.removed.len() == 0 {
        return "✓ Already in sync".to_owned();
    }
    let mut r = cat3("✓ Synced: ", decimal_text(report.imported.len() as u64).as_str(), " imported, ");
    r.append(decimal_text(report.removed.len() as u64).as_str());
    r.append(" removed");
    r
}

/// What `go` without a name does.
#[derive(Debug, Clone, Copy, PartialEq, Eq, Structural)]
pub enum Interactive {
    /// Show the listing instead: in porcelain mode a picker has no meaning
    /// for a machine consumer, and without fzf there is no picker.
    List,
    /// Let the user pick with fzf.
    Pick,
}

/// Whether `go` without a name picks with fzf or shows the listing.
pub fn go_interactive(mode: &OutputMode, fzf_available: bool) -> (r: Interactive)
    ensures
        (mode.porcelain || !fzf_available) ==> r is List,
        !(mode.porcelain || !fzf_available) ==> r is Pick,
{
    if mode.porcelain || !fzf_available {
        Interactive::List
    } else {
        Interactive::Pick
    }
}

/// When the current directory lies in a worktree store but git finds no
/// repository there (the worktree was removed from under the shell), the
/// repository to return to: the text of `cwd` before the first `/.git/wt/`.
/// The caller returns there only if that directory still holds a
/// repository.
pub fn check_orphaned_worktree(in_repository: bool, cwd: &str) -> (r: Option<String>)
    ensures
        in_repository ==> r is None,
        !in_repository ==> opt_text(r) == store_owner(cwd@),
{
    if in_repository {
        None
    } else {
        store_owner_of(cwd)
    }
}

/// Whether an error message describes a recoverable refusal (one the user
/// can override with `--force` or `-f`), which is shown as a warning rather
/// than as an error.
pub open spec fn recoverable_message(msg: Seq<char>) -> bool {
    (exists|k: int| occurs_at(msg, "Use --force"@, k)) || (exists|k: int| occurs_at(msg, "Use -f"@, k))
}

/// Whether an error message describes a recoverable refusal.
pub fn is_recoverable(msg: &str) -> (r: bool)
    ensures
        r == recoverable_message(msg@),
{
    let m = chars_of(msg);
    let a = chars_of("Use --force");
    let b = chars_of("Use -f");
    let fa = find_from(&m, &a, 0);
    let fb = find_from(&m, &b, 0);
    proof {
        if fa is None {
            assert forall|k: int| !occurs_at(msg@, "Use --force"@, k) by {
                if k < 0 {
                } else {
                    assert(!occurs_at(m@, a@, k));
                }
            }
        }
        if fb is None {
            assert forall|k: int| !occurs_at(msg@, "Use -f"@, k) by {
                if k < 0 {
                } else {
                    assert(!occurs_at(m@, b@, k));
                }
            }
        }
    }
    fa.is_some() || fb.is_some()
}

} // verus!
