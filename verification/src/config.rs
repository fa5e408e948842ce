//! Configuration: the global file (`~/.config/grove/config.toml`) and the
//! local `.grove.toml`, merged with the local one taking precedence.

use vstd::prelude::*;
use crate::text::{same_text, decimal, decimal_text};
use crate::template::{HookContext, expand_template, expanded};

verus! {

/// A block of hook tasks that run in parallel: named tasks, each a command
/// template. No two tasks share a name.
#[derive(Debug, PartialEq, Eq)]
pub struct HookBlock {
    tasks: Vec<(String, String)>,
}

/// No two tasks share a name.
pub open spec fn distinct_names(tasks: Seq<(String, String)>) -> bool {
    forall|i: int, j: int| 0 <= i < j < tasks.len() ==> tasks[i].0@ != tasks[j].0@
}

impl HookBlock {
    /// The tasks of the block, in order.
    pub closed spec fn task_list(self) -> Seq<(String, String)> {
        self.tasks@
    }

    #[verifier::type_invariant]
    spec fn names_distinct(self) -> bool {
        distinct_names(self.tasks@)
    }

    /// A block of these tasks, or `None` when two of them share a name.
    pub fn new(tasks: Vec<(String, String)>) -> (r: Option<HookBlock>)
        ensures
            r is Some <==> distinct_names(tasks@),
            r matches Some(b) ==> b.task_list() == tasks@,
    {
        let mut i: usize = 0;
        while i < tasks.len()
            invariant
                i <= tasks.len(),
                forall|a: int, b: int| 0 <= a < b < tasks@.len() && a < i ==> tasks@[a].0@ != tasks@[b].0@,
            decreases tasks.len() - i,
        {
            let mut j: usize = i + 1;
            while j < tasks.len()
                invariant
                    i < tasks.len(),
                    i + 1 <= j <= tasks.len(),
                    forall|a: int, b: int| 0 <= a < b < tasks@.len() && a < i ==> tasks@[a].0@ != tasks@[b].0@,
                    forall|b: int| i < b < j ==> tasks@[i as int].0@ != tasks@[b].0@,
                decreases tasks.len() - j,
            {
                if same_text(tasks[i].0.as_str(), tasks[j].0.as_str()) {
                    return None;
                }
                j = j + 1;
            }
            i = i + 1;
        }
        Some(HookBlock { tasks })
    }

    /// The tasks of the block, in order; their names are distinct.
    pub fn tasks(&self) -> (r: &Vec<(String, String)>)
        ensures
            r@ == self.task_list(),
            distinct_names(r@),
    {
        proof {
            use_type_invariant(self);
        }
        &self.tasks
    }
}

/// All hook configurations.
#[derive(Debug, PartialEq, Eq)]
pub struct Hooks {
    pub post_create: Vec<HookBlock>,
    pub pre_remove: Vec<HookBlock>,
}

/// Configuration for grove, merged from global and local sources.
#[derive(Debug, PartialEq, Eq)]
pub struct Config {
    pub copy: Vec<String>,
    pub copy_ignored: bool,
    pub hooks: Hooks,
}

/// The hooks section of one configuration file.
#[derive(Debug, PartialEq, Eq)]
pub struct RawHooks {
    pub post_create: Vec<HookBlock>,
    pub pre_remove: Vec<HookBlock>,
}

/// One configuration file as written: `copy` patterns, the optional
/// `copyignored` switch and the optional hooks section.
#[derive(Debug, PartialEq, Eq)]
pub struct RawConfig {
    pub copy: Vec<String>,
    pub copy_ignored: Option<bool>,
    pub hooks: Option<RawHooks>,
}

impl RawConfig {
    /// A configuration file that sets nothing.
    pub fn empty() -> (r: RawConfig)
        ensures
            r.copy@.len() == 0,
            r.copy_ignored is None,
            r.hooks is None,
    {
        RawConfig { copy: Vec::new(), copy_ignored: None, hooks: None }
    }
}

/// The post-create blocks a file declares.
pub open spec fn post_create_of(raw: RawConfig) -> Seq<HookBlock> {
    match raw.hooks {
        Some(h) => h.post_create@,
        None => Seq::empty(),
    }
}

/// The pre-remove blocks a file declares.
pub open spec fn pre_remove_of(raw: RawConfig) -> Seq<HookBlock> {
    match raw.hooks {
        Some(h) => h.pre_remove@,
        None => Seq::empty(),
    }
}

/// The `copy` patterns of a file as read (none when it is absent).
pub open spec fn copy_of(raw: Option<RawConfig>) -> Seq<String> {
    match raw {
        Some(r) => r.copy@,
        None => Seq::empty(),
    }
}

/// The `copyignored` setting of a file as read (unset when it is absent).
pub open spec fn copy_ignored_of(raw: Option<RawConfig>) -> Option<bool> {
    match raw {
        Some(r) => r.copy_ignored,
        None => None,
    }
}

/// The post-create blocks of a file as read (none when it is absent).
pub open spec fn post_create_in(raw: Option<RawConfig>) -> Seq<HookBlock> {
    match raw {
        Some(r) => post_create_of(r),
        None => Seq::empty(),
    }
}

/// The pre-remove blocks of a file as read (none when it is absent).
pub open spec fn pre_remove_in(raw: Option<RawConfig>) -> Seq<HookBlock> {
    match raw {
        Some(r) => pre_remove_of(r),
        None => Seq::empty(),
    }
}

/// The `copyignored` switch after merging: the local setting if given,
/// else the global one, else off.
pub open spec fn merged_copy_ignored(global: Option<bool>, local: Option<bool>) -> bool {
    match local {
        Some(b) => b,
        None => match global {
            Some(b) => b,
            None => false,
        },
    }
}

/// Merges hook blocks: the global blocks, then the local ones.
pub fn merge_hook_blocks(global: Option<Vec<HookBlock>>, local: Option<Vec<HookBlock>>) -> (r: Vec<
    HookBlock,
>)
    ensures
        r@ == (match global {
            Some(g) => g@,
            None => Seq::<HookBlock>::empty(),
        }) + (match local {
            Some(l) => l@,
            None => Seq::<HookBlock>::empty(),
        }),
{
    let mut result: Vec<HookBlock> = match global {
        Some(g) => g,
        None => Vec::new(),
    };
    let mut rest: Vec<HookBlock> = match local {
        Some(l) => l,
        None => Vec::new(),
    };
    result.append(&mut rest);
    result
}

impl Config {
    /// Merges the global and local configurations (local wins): the local
    /// `copy` patterns extend the global list, a local `copyignored`
    /// overrides the global one, and local hook blocks run after global ones.
    pub fn merge(global: RawConfig, local: RawConfig) -> (c: Config)
        ensures
            c.copy@ == global.copy@ + local.copy@,
            c.copy_ignored == merged_copy_ignored(global.copy_ignored, local.copy_ignored),
            c.hooks.post_create@ == post_create_of(global) + post_create_of(local),
            c.hooks.pre_remove@ == pre_remove_of(global) + pre_remove_of(local),
    {
        let ghost g = global;
        let ghost l = local;
        let RawConfig { copy: global_copy, copy_ignored: global_ci, hooks: global_hooks } = global;
        let RawConfig { copy: local_copy, copy_ignored: local_ci, hooks: local_hooks } = local;
        let mut copy = global_copy;
        let mut more = local_copy;
        copy.append(&mut more);
        let copy_ignored = match local_ci {
            Some(b) => b,
            None => match global_ci {
                Some(b) => b,
                None => false,
            },
        };
        let (g_post, g_pre) = match global_hooks {
            Some(h) => (Some(h.post_create), Some(h.pre_remove)),
            None => (None, None),
        };
        let (l_post, l_pre) = match local_hooks {
            Some(h) => (Some(h.post_create), Some(h.pre_remove)),
            None => (None, None),
        };
        let hooks = Hooks {
            post_create: merge_hook_blocks(g_post, l_post),
            pre_remove: merge_hook_blocks(g_pre, l_pre),
        };
        Config { copy, copy_ignored, hooks }
    }

    /// Loads the configuration from the global and the local file as read
    /// (`None` for a file that is missing or could not be read or parsed,
    /// which counts as empty), local taking precedence over global.
    pub fn load(global: Option<RawConfig>, local: Option<RawConfig>) -> (c: Config)
        ensures
            c.copy@ == copy_of(global) + copy_of(local),
            c.copy_ignored == merged_copy_ignored(copy_ignored_of(global), copy_ignored_of(local)),
            c.hooks.post_create@ == post_create_in(global) + post_create_in(local),
            c.hooks.pre_remove@ == pre_remove_in(global) + pre_remove_in(local),
    {
        let g = match global {
            Some(r) => r,
            None => RawConfig::empty(),
        };
        let l = match local {
            Some(r) => r,
            None => RawConfig::empty(),
        };
        Config::merge(g, l)
    }
}

/// A hook command ready to run: the task's name and its expanded command.
#[derive(Debug, PartialEq, Eq)]
pub struct HookCommand {
    pub name: String,
    pub command: String,
}

impl HookBlock {
    /// The commands of this block with their template variables filled in,
    /// in the order of its tasks.
    pub fn commands(&self, ctx: &HookContext) -> (r: Vec<HookCommand>)
        ensures
            r@.len() == self.task_list().len(),
            forall|i: int|
                0 <= i < r@.len() ==> r@[i].name@ == self.task_list()[i].0@ && r@[i].command@
                    == expanded(self.task_list()[i].1@, ctx.path@, ctx.branch@, ctx.id@, ctx.repo@),
    {
        let mut out: Vec<HookCommand> = Vec::new();
        let mut i: usize = 0;
        let tasks = self.tasks();
        while i < tasks.len()
            invariant
                tasks@ == self.task_list(),
                i <= tasks.len(),
                out@.len() == i,
                forall|j: int|
                    0 <= j < i ==> out@[j].name@ == self.task_list()[j].0@ && out@[j].command@
                        == expanded(self.task_list()[j].1@, ctx.path@, ctx.branch@, ctx.id@, ctx.repo@),
            decreases tasks.len() - i,
        {
            let name = tasks[i].0.clone();
            let command = expand_template(tasks[i].1.as_str(), ctx);
            out.push(HookCommand { name, command });
            i = i + 1;
        }
        out
    }
}

/// `plan` holds, block by block and task by task, the name of each task of
/// `blocks` and its command with the template variables filled in.
pub open spec fn is_hook_plan(
    blocks: Seq<HookBlock>,
    path: Seq<char>,
    branch: Seq<char>,
    id: Seq<char>,
    repo: Seq<char>,
    plan: Seq<Vec<HookCommand>>,
) -> bool {
    &&& plan.len() == blocks.len()
    &&& forall|b: int|
        0 <= b < plan.len() ==> plan[b]@.len() == blocks[b].task_list().len() && forall|i: int|
            0 <= i < plan[b]@.len() ==> plan[b]@[i].name@ == blocks[b].task_list()[i].0@
                && plan[b]@[i].command@ == expanded(blocks[b].task_list()[i].1@, path, branch, id, repo)
}

/// The hook commands to run, block by block. Blocks run one after another
/// and the sequence stops at the first block with a failing task; the tasks
/// of one block run in parallel.
pub fn run_hooks(blocks: &Vec<HookBlock>, ctx: &HookContext) -> (r: Vec<Vec<HookCommand>>)
    ensures
        is_hook_plan(blocks@, ctx.path@, ctx.branch@, ctx.id@, ctx.repo@, r@),
{
    let mut out: Vec<Vec<HookCommand>> = Vec::new();
    let mut b: usize = 0;
    while b < blocks.len()
        invariant
            b <= blocks.len(),
            out@.len() == b,
            forall|k: int|
                0 <= k < b ==> out@[k]@.len() == blocks@[k].task_list().len() && forall|i: int|
                    0 <= i < out@[k]@.len() ==> out@[k]@[i].name@ == blocks@[k].task_list()[i].0@
                        && out@[k]@[i].command@ == expanded(
                        blocks@[k].task_list()[i].1@,
                        ctx.path@,
                        ctx.branch@,
                        ctx.id@,
                        ctx.repo@,
                    ),
        decreases blocks.len() - b,
    {
        let cmds = blocks[b].commands(ctx);
        out.push(cmds);
        b = b + 1;
    }
    out
}

/// Whether a `grove.copyignored` value turns copying of all ignored files
/// on: `true`, `1` or `yes`.
pub open spec fn copyignored_value_on(v: Seq<char>) -> bool {
    v == seq!['t', 'r', 'u', 'e'] || v == seq!['1'] || v == seq!['y', 'e', 's']
}

/// Whether `grove.copyignored` is enabled, given its configured value (if
/// any).
pub fn copyignored_enabled(value: Option<&str>) -> (r: bool)
    ensures
        r == match value {
            Some(v) => copyignored_value_on(v@),
            None => false,
        },
{
    match value {
        Some(v) => {
            proof {
                reveal_strlit("true");
                reveal_strlit("1");
                reveal_strlit("yes");
                assert("true"@ =~= seq!['t', 'r', 'u', 'e']);
                assert("1"@ =~= seq!['1']);
                assert("yes"@ =~= seq!['y', 'e', 's']);
            }
            same_text(v, "true") || same_text(v, "1") || same_text(v, "yes")
        },
        None => false,
    }
}

/// The outcome of a block of hook tasks run in parallel: the first failure
/// in task order, if any (each outcome is the task's error message, or
/// `None` when it succeeded).
pub fn first_failure(outcomes: &Vec<Option<String>>) -> (r: Option<String>)
    ensures
        match r {
            Some(e) => exists|k: int|
                0 <= k < outcomes@.len() && #[trigger] outcomes@[k] is Some && outcomes@[k]->0@ == e@ && forall|j: int|
                    0 <= j < k ==> outcomes@[j] is None,
            None => forall|j: int| 0 <= j < outcomes@.len() ==> outcomes@[j] is None,
        },
{
    let mut k: usize = 0;
    while k < outcomes.len()
        invariant
            k <= outcomes.len(),
            forall|j: int| 0 <= j < k ==> outcomes@[j] is None,
        decreases outcomes.len() - k,
    {
        match &outcomes[k] {
            Some(m) => {
                return Some(m.clone());
            },
            None => {},
        }
        k = k + 1;
    }
    None
}

/// The debug text of an exit code (`{:?}` of `Option<i32>`).
pub open spec fn exit_code_text(code: Option<i32>) -> Seq<char> {
    match code {
        Some(c) => "Some("@ + (if c < 0 { "-"@ + decimal((-c) as nat) } else { decimal(c as nat) }) + ")"@,
        None => "None"@,
    }
}

/// The message of a hook whose command exited unsuccessfully.
pub fn hook_failed_message(name: &str, code: Option<i32>) -> (r: String)
    ensures
        r@ == "Hook '"@ + name@ + "' failed with exit code "@ + exit_code_text(code),
{
    let mut r = crate::commands::cat3("Hook '", name, "' failed with exit code ");
    match code {
        Some(c) => {
            r.append("Some(");
            if c < 0 {
                r.append("-");
                let m: i64 = -(c as i64);
                r.append(decimal_text(m as u64).as_str());
            } else {
                r.append(decimal_text(c as u64).as_str());
            }
            r.append(")");
        },
        None => {
            r.append("None");
        },
    }
    r
}

/// The message of a hook whose command could not be started.
pub fn hook_start_message(name: &str) -> (r: String)
    ensures
        r@ == "Failed to execute hook '"@ + name@ + "'"@,
{
    crate::commands::cat3("Failed to execute hook '", name, "'")
}

} // verus!
