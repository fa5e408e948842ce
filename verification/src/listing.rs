//! The worktree listing: which worktrees it shows, in what order and at what
//! nesting, and the status flags of each.
//!
//! A listing is built in two steps. `collect_entries` lays out the rows from
//! the registry alone (a `Slot` per row); the caller then asks git about each
//! row and `Entry::from_slot` completes it with that status.

use vstd::prelude::*;
use crate::meta::{
    Meta, RowView, WorktreeInfo, row_views, sorted_listing, child_pick, top_pick, orphan_pick,
    opt_text, has_id, row_with_id, unique_rows, is_listing, is_orphan_row, lemma_listing_exists,
    sorted_by_branch,
};
use crate::paths::worktree_dir;
use crate::text::{texts, decimal, decimal_text, text_before};

verus! {

/// Status information for a worktree.
#[derive(Debug, Clone, Copy, PartialEq, Eq, Structural)]
pub struct WorktreeStatus {
    pub has_modified: bool,
    pub has_untracked: bool,
    pub ahead: u32,
    pub behind: u32,
    pub dir_exists: bool,
}

/// A row of the listing as the registry places it, before git is asked
/// about its status.
#[derive(Debug, PartialEq, Eq)]
pub struct Slot {
    /// `None` for the primary worktree (the repo root), which has no id.
    pub id: Option<String>,
    pub branch: String,
    pub path: String,
    pub parent: Option<String>,
    pub is_primary: bool,
    pub is_current: bool,
    pub is_orphan: bool,
    /// The branch that ahead/behind counts fall back to when there is no
    /// upstream: the parent's branch, or the default branch at top level.
    pub compare_to: Option<String>,
    /// Nesting depth; 0 for top level.
    pub depth: usize,
    /// Whether this row has children in the tree.
    pub has_children: bool,
    /// Whether this is the last sibling at its level.
    pub is_last: bool,
}

/// What a slot says.
pub struct SlotView {
    pub id: Option<Seq<char>>,
    pub branch: Seq<char>,
    pub path: Seq<char>,
    pub parent: Option<Seq<char>>,
    pub is_primary: bool,
    pub is_current: bool,
    pub is_orphan: bool,
    pub compare_to: Option<Seq<char>>,
    pub depth: nat,
    pub has_children: bool,
    pub is_last: bool,
}

/// The view of a slot.
pub open spec fn slot_view(s: Slot) -> SlotView {
    SlotView {
        id: opt_text(s.id),
        branch: s.branch@,
        path: s.path@,
        parent: opt_text(s.parent),
        is_primary: s.is_primary,
        is_current: s.is_current,
        is_orphan: s.is_orphan,
        compare_to: opt_text(s.compare_to),
        depth: s.depth as nat,
        has_children: s.has_children,
        is_last: s.is_last,
    }
}

/// The views of a list of slots.
pub open spec fn slot_views(v: Seq<Slot>) -> Seq<SlotView> {
    v.map_values(|s: Slot| slot_view(s))
}

/// Where a group of sibling rows hangs in the tree.
pub enum Level {
    /// Top-level worktrees, compared against the default branch.
    Top(Seq<char>),
    /// Children of the worktree with this id and branch.
    Child(Seq<char>, Seq<char>),
    /// Worktrees whose parent is gone.
    Orphan,
}

/// The slot of registry row `r`.
pub open spec fn slot_of(
    root: Seq<char>,
    r: RowView,
    level: Level,
    orphan: bool,
    current: Option<Seq<char>>,
    depth: nat,
    has_children: bool,
    is_last: bool,
) -> SlotView {
    SlotView {
        id: Some(r.0),
        branch: r.1,
        path: worktree_dir(root, r.0),
        parent: match level {
            Level::Top(_) => None,
            Level::Child(p, _) => Some(p),
            Level::Orphan => r.2,
        },
        is_primary: false,
        is_current: current == Some(r.0),
        is_orphan: orphan,
        compare_to: match level {
            Level::Top(d) => Some(d),
            Level::Child(_, b) => Some(b),
            Level::Orphan => None,
        },
        depth,
        has_children,
        is_last,
    }
}

/// The children of the worktree with id `id`, sorted by branch.
pub open spec fn kids_of(rows: Seq<RowView>, id: Seq<char>) -> Seq<RowView> {
    sorted_listing(rows, child_pick(id))
}

/// The slots of the first `n` of the sibling rows `kids`, each followed by
/// the slots of its descendants, descending at most `fuel` further levels.
/// `more_after` says whether rows follow the group at its level, so that its
/// last row is not the last sibling.
pub open spec fn forest(
    rows: Seq<RowView>,
    root: Seq<char>,
    kids: Seq<RowView>,
    n: nat,
    level: Level,
    orphan: bool,
    current: Option<Seq<char>>,
    depth: nat,
    more_after: bool,
    fuel: nat,
) -> Seq<SlotView>
    decreases fuel, n,
{
    if n == 0 || n > kids.len() {
        Seq::empty()
    } else {
        let c = kids[n - 1];
        let gk = kids_of(rows, c.0);
        forest(rows, root, kids, (n - 1) as nat, level, orphan, current, depth, more_after, fuel)
            + seq![slot_of(root, c, level, orphan, current, depth, gk.len() > 0, n == kids.len() && !more_after)]
            + if fuel == 0 {
            Seq::empty()
        } else {
            forest(rows, root, gk, gk.len(), Level::Child(c.0, c.1), orphan, current, depth + 1, false, (fuel - 1) as nat)
        }
    }
}

/// The slot of the primary worktree.
pub open spec fn primary_slot(root: Seq<char>, default_branch: Seq<char>, current: Option<Seq<char>>, alone: bool) -> SlotView {
    SlotView {
        id: None,
        branch: default_branch,
        path: root,
        parent: None,
        is_primary: true,
        is_current: current is None,
        is_orphan: false,
        compare_to: None,
        depth: 0,
        has_children: false,
        is_last: alone,
    }
}

/// The slots of the listing and the index where the orphans begin: the
/// primary worktree, then each top-level worktree followed by its
/// descendants, then each orphan followed by its descendants, following
/// descendants at most `fuel` levels below the top.
pub open spec fn listing_slots_to(
    rows: Seq<RowView>,
    root: Seq<char>,
    current: Option<Seq<char>>,
    default_branch: Seq<char>,
    fuel: nat,
) -> (Seq<SlotView>, nat) {
    let top = sorted_listing(rows, top_pick());
    let orph = sorted_listing(rows, orphan_pick(rows));
    let head = seq![primary_slot(root, default_branch, current, top.len() == 0 && orph.len() == 0)]
        + forest(rows, root, top, top.len(), Level::Top(default_branch), false, current, 0, orph.len() > 0, fuel);
    (head + forest(rows, root, orph, orph.len(), Level::Orphan, true, current, 0, false, fuel), head.len())
}

/// The slots of the listing and the index where the orphans begin, with
/// descendants followed as many levels deep as there are registered
/// worktrees (which, by `lemma_listing_depth_suffices`, leaves none out).
pub open spec fn listing_slots(
    rows: Seq<RowView>,
    root: Seq<char>,
    current: Option<Seq<char>>,
    default_branch: Seq<char>,
) -> (Seq<SlotView>, nat) {
    listing_slots_to(rows, root, current, default_branch, rows.len())
}

fn opt_owned(o: Option<&str>) -> (r: Option<String>)
    ensures
        opt_text(r) == match o {
            Some(s) => Some(s@),
            None => None,
        },
{
    match o {
        Some(s) => Some(s.to_owned()),
        None => None,
    }
}

fn is_current_id(current_id: Option<&str>, id: &str) -> (r: bool)
    ensures
        r == (match current_id {
            Some(s) => Some(s@),
            None => None,
        } == Some(id@)),
{
    match current_id {
        Some(c) => crate::text::same_text(c, id),
        None => false,
    }
}

/// The view of an optional string slice.
pub open spec fn opt_str(o: Option<&str>) -> Option<Seq<char>> {
    match o {
        Some(s) => Some(s@),
        None => None,
    }
}

/// Appends the slots of the descendants of worktree `parent_id`,
/// descending at most `fuel` levels below its children.
fn collect_children(
    meta: &Meta,
    parent_id: &String,
    parent_branch: &String,
    current_id: Option<&str>,
    is_orphan: bool,
    depth: usize,
    fuel: usize,
    out: &mut Vec<Slot>,
)
    requires
        meta.wf(),
        depth + fuel <= usize::MAX,
    ensures
        slot_views(final(out)@) == slot_views(old(out)@) + {
            let kids = kids_of(meta.rows_view(), parent_id@);
            forest(
                meta.rows_view(),
                meta.root(),
                kids,
                kids.len(),
                Level::Child(parent_id@, parent_branch@),
                is_orphan,
                opt_str(current_id),
                depth as nat,
                false,
                fuel as nat,
            )
        },
    decreases fuel,
{
    let ghost rows = meta.rows_view();
    let ghost root = meta.root();
    let ghost start = slot_views(out@);
    let ghost level = Level::Child(parent_id@, parent_branch@);
    let ghost current = opt_str(current_id);
    let children = meta.children(parent_id.as_str());
    let ghost kids = row_views(children@);
    let count = children.len();
    let mut i: usize = 0;
    while i < count
        invariant
            meta.wf(),
            rows == meta.rows_view(),
            root == meta.root(),
            count == children.len(),
            kids == row_views(children@),
            kids == kids_of(rows, parent_id@),
            i <= count,
            depth + fuel <= usize::MAX,
            level == Level::Child(parent_id@, parent_branch@),
            current == opt_str(current_id),
            slot_views(out@) == start + forest(rows, root, kids, i as nat, level, is_orphan, current, depth as nat, false, fuel as nat),
        decreases count - i,
    {
        let child_id = &children[i].0;
        let child_branch = &children[i].1.branch;
        let ghost c = kids[i as int];
        assert(c.0 == child_id@ && c.1 == child_branch@);
        let path = meta.worktree_path(child_id.as_str());
        let grandchildren = meta.children(child_id.as_str());
        let has_children = grandchildren.len() > 0;
        let ghost before = slot_views(out@);
        out.push(Slot {
            id: Some(child_id.clone()),
            branch: child_branch.clone(),
            path,
            parent: Some(parent_id.clone()),
            is_primary: false,
            is_current: is_current_id(current_id, child_id.as_str()),
            is_orphan,
            compare_to: Some(parent_branch.clone()),
            depth,
            has_children,
            is_last: i + 1 == count,
        });
        let ghost gk = kids_of(rows, c.0);
        assert(slot_views(out@) =~= before.push(
            slot_of(root, c, level, is_orphan, current, depth as nat, gk.len() > 0, i + 1 == kids.len() && !false),
        ));
        if fuel > 0 {
            collect_children(meta, child_id, child_branch, current_id, is_orphan, depth + 1, fuel - 1, out);
        }
        proof {
            let n = (i + 1) as nat;
            assert(kids[n - 1] == c);
            let sub = if fuel == 0 {
                Seq::<SlotView>::empty()
            } else {
                forest(rows, root, gk, gk.len(), Level::Child(c.0, c.1), is_orphan, current, (depth + 1) as nat, false, (fuel - 1) as nat)
            };
            assert(forest(rows, root, kids, n, level, is_orphan, current, depth as nat, false, fuel as nat)
                == forest(rows, root, kids, i as nat, level, is_orphan, current, depth as nat, false, fuel as nat)
                + seq![slot_of(root, c, level, is_orphan, current, depth as nat, gk.len() > 0, n == kids.len() && !false)]
                + sub);
            assert(slot_views(out@) =~= start + forest(rows, root, kids, n, level, is_orphan, current, depth as nat, false, fuel as nat));
        }
        i = i + 1;
    }
}

/// Every row of the listing, in display order, with the index at which the
/// orphaned worktrees begin (where the tree view draws a break). The
/// primary worktree is the registry's repository root.
///
/// `current_id` is the worktree the caller stands in (`None` in the primary
/// worktree). Descendants are followed at most as many levels deep as there
/// are registered worktrees, which no chain of children can exceed
/// (`lemma_listing_depth_suffices`).
pub fn collect_entries(meta: &Meta, current_id: Option<&str>, default_branch: &str) -> (r: (Vec<Slot>, usize))
    requires
        meta.wf(),
    ensures
        (slot_views(r.0@), r.1 as nat) == listing_slots(meta.rows_view(), meta.root(), opt_str(current_id), default_branch@),
{
    let ghost rows = meta.rows_view();
    let ghost root = meta.root();
    let ghost current = opt_str(current_id);
    let top_level = meta.top_level();
    let orphans = meta.orphans();
    let ghost top = row_views(top_level@);
    let ghost orph = crate::meta::orphan_views(orphans@);
    let fuel = meta.rows().len();
    let mut entries: Vec<Slot> = Vec::new();
    entries.push(Slot {
        id: None,
        branch: default_branch.to_owned(),
        path: meta.repo_root().clone(),
        parent: None,
        is_primary: true,
        is_current: current_id.is_none(),
        is_orphan: false,
        compare_to: None,
        depth: 0,
        has_children: false,
        is_last: top_level.len() == 0 && orphans.len() == 0,
    });
    let ghost head0 = seq![primary_slot(root, default_branch@, current, top.len() == 0 && orph.len() == 0)];
    assert(slot_views(entries@) =~= head0);
    let ghost level = Level::Top(default_branch@);
    let top_count = top_level.len();
    let mut i: usize = 0;
    assert(forest(rows, root, top, 0, level, false, current, 0, orph.len() > 0, fuel as nat) =~= Seq::<SlotView>::empty());
    while i < top_count
        invariant
            meta.wf(),
            rows == meta.rows_view(),
            root == meta.root(),
            fuel == rows.len(),
            top_count == top_level.len(),
            top == row_views(top_level@),
            top == sorted_listing(rows, top_pick()),
            orph == crate::meta::orphan_views(orphans@),
            orph.len() == orphans.len(),
            i <= top_count,
            level == Level::Top(default_branch@),
            current == opt_str(current_id),
            slot_views(entries@) == head0 + forest(rows, root, top, i as nat, level, false, current, 0, orph.len() > 0, fuel as nat),
        decreases top_count - i,
    {
        let id = &top_level[i].0;
        let branch = &top_level[i].1.branch;
        let ghost c = top[i as int];
        assert(c.0 == id@ && c.1 == branch@);
        let path = meta.worktree_path(id.as_str());
        let kids = meta.children(id.as_str());
        let ghost before = slot_views(entries@);
        entries.push(Slot {
            id: Some(id.clone()),
            branch: branch.clone(),
            path,
            parent: None,
            is_primary: false,
            is_current: is_current_id(current_id, id.as_str()),
            is_orphan: false,
            compare_to: Some(default_branch.to_owned()),
            depth: 0,
            has_children: kids.len() > 0,
            is_last: i + 1 == top_count && orphans.len() == 0,
        });
        let ghost gk = kids_of(rows, c.0);
        assert(slot_views(entries@) =~= before.push(
            slot_of(root, c, level, false, current, 0, gk.len() > 0, i + 1 == top.len() && !(orph.len() > 0)),
        ));
        if fuel > 0 {
            collect_children(meta, id, branch, current_id, false, 1, fuel - 1, &mut entries);
        }
        proof {
            let n = (i + 1) as nat;
            assert(top[n - 1] == c);
            assert(slot_views(entries@) =~= head0 + forest(rows, root, top, n, level, false, current, 0, orph.len() > 0, fuel as nat));
        }
        i = i + 1;
    }
    let orphan_start = entries.len();
    let ghost head = slot_views(entries@);
    let orphan_count = orphans.len();
    let mut j: usize = 0;
    assert(forest(rows, root, orph, 0, Level::Orphan, true, current, 0, false, fuel as nat) =~= Seq::<SlotView>::empty());
    while j < orphan_count
        invariant
            meta.wf(),
            rows == meta.rows_view(),
            root == meta.root(),
            fuel == rows.len(),
            orphan_count == orphans.len(),
            orph == crate::meta::orphan_views(orphans@),
            orph == sorted_listing(rows, orphan_pick(rows)),
            j <= orphan_count,
            current == opt_str(current_id),
            slot_views(entries@) == head + forest(rows, root, orph, j as nat, Level::Orphan, true, current, 0, false, fuel as nat),
        decreases orphan_count - j,
    {
        let id = &orphans[j].0;
        let info: &WorktreeInfo = &orphans[j].1;
        let ghost c = orph[j as int];
        assert(c.0 == id@ && c.1 == info.branch@ && c.2 == opt_text(info.parent));
        let path = meta.worktree_path(id.as_str());
        let kids = meta.children(id.as_str());
        let ghost before = slot_views(entries@);
        entries.push(Slot {
            id: Some(id.clone()),
            branch: info.branch.clone(),
            path,
            parent: info.duplicate().parent,
            is_primary: false,
            is_current: is_current_id(current_id, id.as_str()),
            is_orphan: true,
            compare_to: None,
            depth: 0,
            has_children: kids.len() > 0,
            is_last: j + 1 == orphan_count,
        });
        let ghost gk = kids_of(rows, c.0);
        assert(slot_views(entries@) =~= before.push(
            slot_of(root, c, Level::Orphan, true, current, 0, gk.len() > 0, j + 1 == orph.len() && !false),
        ));
        if fuel > 0 {
            collect_children(meta, id, &info.branch, current_id, true, 1, fuel - 1, &mut entries);
        }
        proof {
            let n = (j + 1) as nat;
            assert(orph[n - 1] == c);
            assert(slot_views(entries@) =~= head + forest(rows, root, orph, n, Level::Orphan, true, current, 0, false, fuel as nat));
        }
        j = j + 1;
    }
    (entries, orphan_start)
}

/// A row of the listing: its slot completed with what git reports.
#[derive(Debug, PartialEq, Eq)]
pub struct Entry {
    /// `None` for the primary worktree (the repo root), which has no id.
    pub id: Option<String>,
    pub branch: String,
    pub path: String,
    pub parent: Option<String>,
    pub is_primary: bool,
    pub is_current: bool,
    pub is_orphan: bool,
    pub status: WorktreeStatus,
    /// Ref that `ahead`/`behind` were measured against, if any.
    pub base_ref: Option<String>,
    /// Nesting depth; 0 for top level.
    pub depth: usize,
    /// Whether this entry has children in the tree.
    pub has_children: bool,
    /// Whether this is the last sibling at its level.
    pub is_last: bool,
}

/// The flag characters of an entry, in order: `p` primary, `c` current,
/// `m` modified, `u` untracked, `x` directory missing, `o` orphan.
pub open spec fn flag_chars(e: Entry) -> Seq<char> {
    (if e.is_primary { seq!['p'] } else { Seq::empty() })
        + (if e.is_current { seq!['c'] } else { Seq::empty() })
        + (if e.status.has_modified { seq!['m'] } else { Seq::empty() })
        + (if e.status.has_untracked { seq!['u'] } else { Seq::empty() })
        + (if !e.status.dir_exists { seq!['x'] } else { Seq::empty() })
        + (if e.is_orphan { seq!['o'] } else { Seq::empty() })
}

/// The flags field of an entry: its flag characters, or `-` when none apply.
pub open spec fn flags_field(e: Entry) -> Seq<char> {
    if flag_chars(e).len() == 0 {
        seq!['-']
    } else {
        flag_chars(e)
    }
}

fn push_if(s: &mut String, cond: bool, c: char)
    ensures
        final(s)@ == old(s)@ + if cond { seq![c] } else { Seq::empty() },
{
    if cond {
        crate::text::push_char(s, c);
    } else {
        assert(old(s)@ + Seq::<char>::empty() =~= old(s)@);
    }
}

impl Entry {
    /// Flag characters for porcelain output.
    pub fn flags(&self) -> (r: String)
        ensures
            r@ == flags_field(*self),
    {
        let mut flags = String::new();
        push_if(&mut flags, self.is_primary, 'p');
        push_if(&mut flags, self.is_current, 'c');
        push_if(&mut flags, self.status.has_modified, 'm');
        push_if(&mut flags, self.status.has_untracked, 'u');
        push_if(&mut flags, !self.status.dir_exists, 'x');
        push_if(&mut flags, self.is_orphan, 'o');
        assert(flags@ =~= flag_chars(*self));
        if !(self.is_primary || self.is_current || self.status.has_modified || self.status.has_untracked
            || !self.status.dir_exists || self.is_orphan) {
            assert(flag_chars(*self).len() == 0);
            let r = crate::porcelain::NONE.to_owned();
            proof {
                reveal_strlit("-");
            }
            r
        } else {
            assert(flag_chars(*self).len() > 0);
            flags
        }
    }

    /// The entry for a slot, given the status git reported and the ref its
    /// ahead/behind counts were measured against.
    pub fn from_slot(slot: Slot, status: WorktreeStatus, base_ref: Option<String>) -> (e: Entry)
        ensures
            opt_text(e.id) == opt_text(slot.id),
            e.branch@ == slot.branch@,
            e.path@ == slot.path@,
            opt_text(e.parent) == opt_text(slot.parent),
            e.is_primary == slot.is_primary,
            e.is_current == slot.is_current,
            e.is_orphan == slot.is_orphan,
            e.status == status,
            opt_text(e.base_ref) == opt_text(base_ref),
            e.depth == slot.depth,
            e.has_children == slot.has_children,
            e.is_last == slot.is_last,
    {
        Entry {
            id: slot.id,
            branch: slot.branch,
            path: slot.path,
            parent: slot.parent,
            is_primary: slot.is_primary,
            is_current: slot.is_current,
            is_orphan: slot.is_orphan,
            status,
            base_ref,
            depth: slot.depth,
            has_children: slot.has_children,
            is_last: slot.is_last,
        }
    }
}

/// Status for one worktree from what git reported: `dirty` is (modified,
/// untracked) and `counts` is (ahead, behind, the ref measured against);
/// either is `None` when git could not tell, which reads as clean and as
/// even with nothing.
pub fn collect_status(
    dirty: Option<(bool, bool)>,
    counts: Option<(u32, u32, Option<String>)>,
    dir_exists: bool,
) -> (r: (WorktreeStatus, Option<String>))
    ensures
        r.0.dir_exists == dir_exists,
        match dirty {
            Some(d) => r.0.has_modified == d.0 && r.0.has_untracked == d.1,
            None => !r.0.has_modified && !r.0.has_untracked,
        },
        match counts {
            Some(c) => r.0.ahead == c.0 && r.0.behind == c.1 && opt_text(r.1) == opt_text(c.2),
            None => r.0.ahead == 0 && r.0.behind == 0 && r.1 is None,
        },
{
    let (has_modified, has_untracked) = match dirty {
        Some(d) => d,
        None => (false, false),
    };
    let (ahead, behind, base_ref) = match counts {
        Some(c) => c,
        None => (0, 0, None),
    };
    (WorktreeStatus { has_modified, has_untracked, ahead, behind, dir_exists }, base_ref)
}

/// The text of an optional field: the value, or `-` when absent.
pub open spec fn or_none(o: Option<Seq<char>>) -> Seq<char> {
    match o {
        Some(s) => s,
        None => seq!['-'],
    }
}

fn field_or_none(o: &Option<String>) -> (r: String)
    ensures
        r@ == or_none(opt_text(*o)),
{
    match o {
        Some(s) => s.clone(),
        None => {
            proof {
                reveal_strlit("-");
            }
            crate::porcelain::NONE.to_owned()
        },
    }
}

/// The fields of the `wt` record of an entry: id, branch, path, parent id,
/// flags, ahead, behind and the ref those were measured against.
pub open spec fn wt_fields(e: Entry) -> Seq<Seq<char>> {
    seq![
        seq!['w', 't'],
        or_none(opt_text(e.id)),
        e.branch@,
        e.path@,
        or_none(opt_text(e.parent)),
        flags_field(e),
        decimal(e.status.ahead as nat),
        decimal(e.status.behind as nat),
        or_none(opt_text(e.base_ref)),
    ]
}

/// The `wt` record of an entry.
pub fn wt_record(e: &Entry) -> (r: Vec<String>)
    ensures
        texts(r@) == wt_fields(*e),
{
    let mut r: Vec<String> = Vec::new();
    proof {
        reveal_strlit("wt");
        assert("wt"@ =~= seq!['w', 't']);
    }
    r.push("wt".to_owned());
    r.push(field_or_none(&e.id));
    r.push(e.branch.clone());
    r.push(e.path.clone());
    r.push(field_or_none(&e.parent));
    r.push(e.flags());
    r.push(decimal_text(e.status.ahead as u64));
    r.push(decimal_text(e.status.behind as u64));
    r.push(field_or_none(&e.base_ref));
    assert(texts(r@) =~= wt_fields(*e));
    r
}

/// The records of a listing: `repo` with the root and the default branch,
/// then one `wt` record per entry.
pub fn emit_listing(repo_root: &str, default_branch: &str, entries: &Vec<Entry>) -> (r: Vec<Vec<String>>)
    ensures
        r@.len() == entries@.len() + 1,
        texts(r@[0]@) == seq![seq!['r', 'e', 'p', 'o'], repo_root@, default_branch@],
        forall|i: int| 0 <= i < entries@.len() ==> texts(#[trigger] r@[i + 1]@) == wt_fields(entries@[i]),
{
    let mut head: Vec<String> = Vec::new();
    proof {
        reveal_strlit("repo");
        assert("repo"@ =~= seq!['r', 'e', 'p', 'o']);
    }
    head.push("repo".to_owned());
    head.push(repo_root.to_owned());
    head.push(default_branch.to_owned());
    assert(texts(head@) =~= seq![seq!['r', 'e', 'p', 'o'], repo_root@, default_branch@]);
    let mut r: Vec<Vec<String>> = Vec::new();
    r.push(head);
    let mut i: usize = 0;
    while i < entries.len()
        invariant
            i <= entries.len(),
            r@.len() == i + 1,
            texts(r@[0]@) == seq![seq!['r', 'e', 'p', 'o'], repo_root@, default_branch@],
            forall|k: int| 0 <= k < i ==> texts(#[trigger] r@[k + 1]@) == wt_fields(entries@[k]),
        decreases entries.len() - i,
    {
        let rec = wt_record(&entries[i]);
        r.push(rec);
        i = i + 1;
    }
    r
}

/// The branches offered by `go` without a name: the default branch, then
/// each top-level worktree followed by its descendants, in tree order
/// (orphans are not offered).
pub fn interactive_choices(meta: &Meta, main_branch: &str) -> (r: Vec<String>)
    requires
        meta.wf(),
    ensures
        ({
            let (slots, start) = listing_slots(meta.rows_view(), meta.root(), None, main_branch@);
            texts(r@) == seq![main_branch@] + slots.subrange(1, start as int).map_values(|s: SlotView| s.branch)
        }),
{
    let (slots, orphan_start) = collect_entries(meta, None, main_branch);
    let ghost sv = slot_views(slots@);
    let mut out: Vec<String> = Vec::new();
    out.push(main_branch.to_owned());
    let mut i: usize = 1;
    assert(sv.subrange(1, 1).map_values(|s: SlotView| s.branch) =~= Seq::<Seq<char>>::empty());
    assert(texts(out@) =~= seq![main_branch@]);
    while i < orphan_start
        invariant
            1 <= i <= orphan_start <= slots@.len(),
            sv == slot_views(slots@),
            texts(out@) == seq![main_branch@] + sv.subrange(1, i as int).map_values(|s: SlotView| s.branch),
        decreases orphan_start - i,
    {
        let ghost before = texts(out@);
        out.push(slots[i].branch.clone());
        assert(sv[i as int].branch == slots@[i as int].branch@);
        assert(sv.subrange(1, i + 1).map_values(|s: SlotView| s.branch) =~= sv.subrange(1, i as int).map_values(
            |s: SlotView| s.branch,
        ).push(sv[i as int].branch));
        assert(texts(out@) =~= before.push(sv[i as int].branch));
        i = i + 1;
    }
    out
}

/// The parent recorded for an optional id: none for the primary worktree
/// or an unknown id.
pub open spec fn recorded_parent(rows: Seq<RowView>, id: Option<Seq<char>>) -> Option<Seq<char>> {
    match id {
        Some(i) => if has_id(rows, i) {
            row_with_id(rows, i).2
        } else {
            None
        },
        None => None,
    }
}

/// The slot of the single `wt` record that `add` and `go` emit for the
/// worktree they acted on, so that callers get the same fields as from a
/// listing without a second invocation.
pub fn wt_slot(
    meta: &Meta,
    id: Option<&str>,
    branch: &str,
    path: &str,
    is_primary: bool,
    is_current: bool,
    compare_to: Option<&str>,
) -> (r: Slot)
    requires
        meta.wf(),
    ensures
        slot_view(r) == (SlotView {
            id: opt_str(id),
            branch: branch@,
            path: path@,
            parent: recorded_parent(meta.rows_view(), opt_str(id)),
            is_primary,
            is_current,
            is_orphan: false,
            compare_to: opt_str(compare_to),
            depth: 0,
            has_children: false,
            is_last: true,
        }),
{
    let parent = match id {
        Some(i) => meta.parent_of(i),
        None => None,
    };
    Slot {
        id: opt_owned(id),
        branch: branch.to_owned(),
        path: path.to_owned(),
        parent,
        is_primary,
        is_current,
        is_orphan: false,
        compare_to: opt_owned(compare_to),
        depth: 0,
        has_children: false,
        is_last: true,
    }
}

/// A row with no parent, or whose parent is not registered: the rows the
/// listing starts its trees from.
pub open spec fn is_root(rows: Seq<RowView>, r: RowView) -> bool {
    r.2 is None || is_orphan_row(rows, r)
}

/// `ch` is a chain of registered rows that starts at a root and in which
/// each row is a child of the one before.
pub open spec fn is_chain(rows: Seq<RowView>, ch: Seq<RowView>) -> bool {
    &&& forall|i: int| 0 <= i < ch.len() ==> rows.contains(#[trigger] ch[i])
    &&& ch.len() > 0 ==> is_root(rows, ch[0])
    &&& forall|i: int| 0 < i < ch.len() ==> (#[trigger] ch[i]).2 == Some(ch[i - 1].0)
}

proof fn lemma_same_id_same_row(rows: Seq<RowView>, a: RowView, b: RowView)
    requires
        unique_rows(rows),
        rows.contains(a),
        rows.contains(b),
        a.0 == b.0,
    ensures
        a == b,
{
    let i = choose|i: int| 0 <= i < rows.len() && rows[i] == a;
    let j = choose|j: int| 0 <= j < rows.len() && rows[j] == b;
    if i < j {
        assert(rows[i].0 != rows[j].0);
    } else if j < i {
        assert(rows[j].0 != rows[i].0);
    }
}

/// A chain never comes back to a row it passed.
proof fn lemma_chain_distinct(rows: Seq<RowView>, ch: Seq<RowView>, i: int, j: int)
    requires
        unique_rows(rows),
        is_chain(rows, ch),
        0 <= i < j < ch.len(),
    ensures
        ch[i] != ch[j],
    decreases i,
{
    if ch[i] == ch[j] {
        assert(rows.contains(ch[j - 1]));
        if i == 0 {
            let p = ch[j - 1];
            let k = choose|k: int| 0 <= k < rows.len() && rows[k] == p;
            assert(rows[k].0 == p.0);
            assert(has_id(rows, p.0));
            assert(ch[0].2 == Some(p.0));
            assert(!is_root(rows, ch[0]));
        } else {
            assert(ch[i].2 == Some(ch[i - 1].0));
            assert(ch[j].2 == Some(ch[j - 1].0));
            assert(rows.contains(ch[i - 1]));
            lemma_same_id_same_row(rows, ch[i - 1], ch[j - 1]);
            lemma_chain_distinct(rows, ch, i - 1, j - 1);
        }
    }
}

/// No chain is longer than the registry.
proof fn lemma_chain_len(rows: Seq<RowView>, ch: Seq<RowView>)
    requires
        unique_rows(rows),
        is_chain(rows, ch),
    ensures
        ch.len() <= rows.len(),
{
    assert(ch.no_duplicates()) by {
        assert forall|i: int, j: int| 0 <= i < ch.len() && 0 <= j < ch.len() && i != j implies ch[i] != ch[j] by {
            if i < j {
                lemma_chain_distinct(rows, ch, i, j);
            } else {
                lemma_chain_distinct(rows, ch, j, i);
            }
        }
    }
    ch.unique_seq_to_set();
    rows.lemma_cardinality_of_set();
    vstd::seq_lib::seq_to_set_is_finite(rows);
    assert(ch.to_set().subset_of(rows.to_set())) by {
        assert forall|x: RowView| ch.to_set().contains(x) implies rows.to_set().contains(x) by {
            let k = choose|k: int| 0 <= k < ch.len() && ch[k] == x;
            assert(rows.contains(ch[k]));
        }
    }
    vstd::set_lib::lemma_len_subset(ch.to_set(), rows.to_set());
}

/// More fuel changes nothing in a group whose rows extend the chain `ch`
/// when the fuel already reaches as deep as the registry allows.
proof fn lemma_forest_fuel(
    rows: Seq<RowView>,
    root: Seq<char>,
    kids: Seq<RowView>,
    n: nat,
    level: Level,
    orphan: bool,
    current: Option<Seq<char>>,
    depth: nat,
    more_after: bool,
    f: nat,
    g: nat,
    ch: Seq<RowView>,
)
    requires
        unique_rows(rows),
        n <= kids.len(),
        forall|i: int| 0 <= i < kids.len() ==> is_chain(rows, ch.push(#[trigger] kids[i])),
        f + ch.len() >= rows.len(),
        f <= g,
    ensures
        forest(rows, root, kids, n, level, orphan, current, depth, more_after, f) == forest(
            rows,
            root,
            kids,
            n,
            level,
            orphan,
            current,
            depth,
            more_after,
            g,
        ),
    decreases f, n,
{
    if n > 0 {
        lemma_forest_fuel(rows, root, kids, (n - 1) as nat, level, orphan, current, depth, more_after, f, g, ch);
        let c = kids[n - 1];
        let ch2 = ch.push(c);
        assert(is_chain(rows, ch2));
        if f == 0 {
            lemma_chain_len(rows, ch2);
            assert(false);
        } else {
            let gk = kids_of(rows, c.0);
            lemma_listing_exists(rows, child_pick(c.0));
            assert(is_listing(rows, child_pick(c.0), gk));
            assert forall|i: int| 0 <= i < gk.len() implies is_chain(rows, ch2.push(#[trigger] gk[i])) by {
                assert(gk.contains(gk[i]));
                assert(rows.contains(gk[i]) && child_pick(c.0)(gk[i]));
                let ch3 = ch2.push(gk[i]);
                assert forall|k: int| 0 <= k < ch3.len() implies rows.contains(#[trigger] ch3[k]) by {
                    if k < ch2.len() {
                        assert(ch3[k] == ch2[k]);
                    }
                }
                assert forall|k: int| 0 < k < ch3.len() implies (#[trigger] ch3[k]).2 == Some(ch3[k - 1].0) by {
                    if k < ch2.len() {
                        assert(ch3[k] == ch2[k] && ch3[k - 1] == ch2[k - 1]);
                    }
                }
                if ch2.len() == 0 {
                } else {
                    assert(ch3[0] == ch2[0]);
                }
            }
            lemma_forest_fuel(
                rows,
                root,
                gk,
                gk.len(),
                Level::Child(c.0, c.1),
                orphan,
                current,
                depth + 1,
                false,
                (f - 1) as nat,
                (g - 1) as nat,
                ch2,
            );
        }
    }
}

/// The rows a group of roots starts from each form a chain by themselves.
proof fn lemma_roots_are_chains(rows: Seq<RowView>, kids: Seq<RowView>, pick: spec_fn(RowView) -> bool)
    requires
        is_listing(rows, pick, kids),
        forall|x: RowView| #[trigger] pick(x) ==> is_root(rows, x),
    ensures
        forall|i: int| 0 <= i < kids.len() ==> is_chain(rows, Seq::<RowView>::empty().push(#[trigger] kids[i])),
{
    assert forall|i: int| 0 <= i < kids.len() implies is_chain(rows, Seq::<RowView>::empty().push(#[trigger] kids[i])) by {
        assert(kids.contains(kids[i]));
        let ch = Seq::<RowView>::empty().push(kids[i]);
        assert(ch[0] == kids[i]);
    }
}

/// Following descendants deeper than the listing does changes nothing: no
/// chain of children, from a top-level or orphaned worktree down, is longer
/// than the registry, so the listing shows every descendant of the rows it
/// starts from.
pub proof fn lemma_listing_depth_suffices(
    rows: Seq<RowView>,
    root: Seq<char>,
    current: Option<Seq<char>>,
    default_branch: Seq<char>,
    deeper: nat,
)
    requires
        unique_rows(rows),
    ensures
        listing_slots(rows, root, current, default_branch) == listing_slots_to(
            rows,
            root,
            current,
            default_branch,
            rows.len() + deeper,
        ),
{
    let top = sorted_listing(rows, top_pick());
    let orph = sorted_listing(rows, orphan_pick(rows));
    lemma_listing_exists(rows, top_pick());
    lemma_listing_exists(rows, orphan_pick(rows));
    lemma_roots_are_chains(rows, top, top_pick());
    lemma_roots_are_chains(rows, orph, orphan_pick(rows));
    let n = rows.len();
    lemma_forest_fuel(rows, root, top, top.len(), Level::Top(default_branch), false, current, 0, orph.len() > 0, n,
        n + deeper, Seq::empty());
    lemma_forest_fuel(rows, root, orph, orph.len(), Level::Orphan, true, current, 0, false, n, n + deeper, Seq::empty());
}

/// The ids of the rows `forest` lays out, in the same order.
pub open spec fn forest_ids(rows: Seq<RowView>, kids: Seq<RowView>, n: nat, fuel: nat) -> Seq<Seq<char>>
    decreases fuel, n,
{
    if n == 0 || n > kids.len() {
        Seq::empty()
    } else {
        let c = kids[n - 1];
        let gk = kids_of(rows, c.0);
        forest_ids(rows, kids, (n - 1) as nat, fuel) + seq![c.0] + if fuel == 0 {
            Seq::empty()
        } else {
            forest_ids(rows, gk, gk.len(), (fuel - 1) as nat)
        }
    }
}

/// `forest` lays out exactly the rows of `forest_ids`.
proof fn lemma_forest_ids(
    rows: Seq<RowView>,
    root: Seq<char>,
    kids: Seq<RowView>,
    n: nat,
    level: Level,
    orphan: bool,
    current: Option<Seq<char>>,
    depth: nat,
    more_after: bool,
    fuel: nat,
)
    ensures
        ({
            let fs = forest(rows, root, kids, n, level, orphan, current, depth, more_after, fuel);
            let ids = forest_ids(rows, kids, n, fuel);
            fs.len() == ids.len() && forall|k: int| 0 <= k < fs.len() ==> #[trigger] fs[k].id == Some(ids[k])
        }),
    decreases fuel, n,
{
    if n > 0 && n <= kids.len() {
        let c = kids[n - 1];
        let gk = kids_of(rows, c.0);
        lemma_forest_ids(rows, root, kids, (n - 1) as nat, level, orphan, current, depth, more_after, fuel);
        let a = forest(rows, root, kids, (n - 1) as nat, level, orphan, current, depth, more_after, fuel);
        let ai = forest_ids(rows, kids, (n - 1) as nat, fuel);
        let slot = slot_of(root, c, level, orphan, current, depth, gk.len() > 0, n == kids.len() && !more_after);
        if fuel == 0 {
            let fs = a + seq![slot] + Seq::<SlotView>::empty();
            let ids = ai + seq![c.0] + Seq::<Seq<char>>::empty();
            assert forall|k: int| 0 <= k < fs.len() implies #[trigger] fs[k].id == Some(ids[k]) by {
                if k < a.len() {
                    assert(fs[k] == a[k] && ids[k] == ai[k]);
                } else {
                    assert(fs[k] == slot && ids[k] == c.0);
                }
            }
        } else {
            lemma_forest_ids(rows, root, gk, gk.len(), Level::Child(c.0, c.1), orphan, current, depth + 1, false, (fuel - 1) as nat);
            let b = forest(rows, root, gk, gk.len(), Level::Child(c.0, c.1), orphan, current, depth + 1, false, (fuel - 1) as nat);
            let bi = forest_ids(rows, gk, gk.len(), (fuel - 1) as nat);
            let fs = a + seq![slot] + b;
            let ids = ai + seq![c.0] + bi;
            assert forall|k: int| 0 <= k < fs.len() implies #[trigger] fs[k].id == Some(ids[k]) by {
                if k < a.len() {
                    assert(fs[k] == a[k] && ids[k] == ai[k]);
                } else if k == a.len() {
                    assert(fs[k] == slot && ids[k] == c.0);
                } else {
                    assert(fs[k] == b[k - a.len() - 1] && ids[k] == bi[k - a.len() - 1]);
                }
            }
        }
    }
}

/// A group of siblings shows each of them.
proof fn lemma_ids_show_kid(rows: Seq<RowView>, kids: Seq<RowView>, n: nat, fuel: nat, i: int)
    requires
        0 <= i < n <= kids.len(),
    ensures
        forest_ids(rows, kids, n, fuel).contains(kids[i].0),
    decreases n,
{
    let c = kids[n - 1];
    let gk = kids_of(rows, c.0);
    let a = forest_ids(rows, kids, (n - 1) as nat, fuel);
    let sub = if fuel == 0 {
        Seq::<Seq<char>>::empty()
    } else {
        forest_ids(rows, gk, gk.len(), (fuel - 1) as nat)
    };
    let all = a + seq![c.0] + sub;
    if i == n - 1 {
        assert(all[a.len() as int] == c.0);
    } else {
        lemma_ids_show_kid(rows, kids, (n - 1) as nat, fuel, i);
        let k = choose|k: int| 0 <= k < a.len() && a[k] == kids[i].0;
        assert(all[k] == kids[i].0);
    }
}

/// A group of siblings shows everything the group of children of one of
/// them shows, one level less deep.
proof fn lemma_ids_show_sub(rows: Seq<RowView>, kids: Seq<RowView>, n: nat, fuel: nat, i: int, x: Seq<char>)
    requires
        0 <= i < n <= kids.len(),
        fuel > 0,
        forest_ids(rows, kids_of(rows, kids[i].0), kids_of(rows, kids[i].0).len(), (fuel - 1) as nat).contains(x),
    ensures
        forest_ids(rows, kids, n, fuel).contains(x),
    decreases n,
{
    let c = kids[n - 1];
    let gk = kids_of(rows, c.0);
    let a = forest_ids(rows, kids, (n - 1) as nat, fuel);
    let sub = forest_ids(rows, gk, gk.len(), (fuel - 1) as nat);
    let all = a + seq![c.0] + sub;
    if i == n - 1 {
        let k = choose|k: int| 0 <= k < sub.len() && sub[k] == x;
        assert(all[a.len() + 1 + k] == x);
    } else {
        lemma_ids_show_sub(rows, kids, (n - 1) as nat, fuel, i, x);
        let k = choose|k: int| 0 <= k < a.len() && a[k] == x;
        assert(all[k] == x);
    }
}

/// Down a chain, each row shows up in the listing that starts from the
/// chain's root: at step `j`, everything the children of `ch[j]` show
/// (with `fuel - j - 1` levels to go) is shown by the group of roots.
proof fn lemma_chain_shown_from(rows: Seq<RowView>, roots: Seq<RowView>, fuel: nat, ch: Seq<RowView>, j: int, x: Seq<char>)
    requires
        unique_rows(rows),
        is_chain(rows, ch),
        roots.contains(ch[0]),
        0 <= j < ch.len(),
        ch.len() <= fuel,
        forest_ids(rows, kids_of(rows, ch[j].0), kids_of(rows, ch[j].0).len(), (fuel - j - 1) as nat).contains(x),
    ensures
        forest_ids(rows, roots, roots.len(), fuel).contains(x),
    decreases j,
{
    if j == 0 {
        let i = choose|i: int| 0 <= i < roots.len() && roots[i] == ch[0];
        lemma_ids_show_sub(rows, roots, roots.len(), fuel, i, x);
    } else {
        let p = ch[j - 1];
        let kids = kids_of(rows, p.0);
        lemma_listing_exists(rows, child_pick(p.0));
        assert(ch[j].2 == Some(p.0));
        assert(rows.contains(ch[j]));
        assert(kids.contains(ch[j]));
        let i = choose|i: int| 0 <= i < kids.len() && kids[i] == ch[j];
        lemma_ids_show_sub(rows, kids, kids.len(), (fuel - j) as nat, i, x);
        lemma_chain_shown_from(rows, roots, fuel, ch, j - 1, x);
    }
}

/// The last row of a chain shows up in the listing of the chain's roots.
proof fn lemma_chain_shown(rows: Seq<RowView>, roots: Seq<RowView>, fuel: nat, ch: Seq<RowView>)
    requires
        unique_rows(rows),
        is_chain(rows, ch),
        roots.contains(ch[0]),
        0 < ch.len() <= fuel,
    ensures
        forest_ids(rows, roots, roots.len(), fuel).contains(ch.last().0),
{
    let j = ch.len() - 1;
    if j == 0 {
        let i = choose|i: int| 0 <= i < roots.len() && roots[i] == ch[0];
        lemma_ids_show_kid(rows, roots, roots.len(), fuel, i);
    } else {
        let p = ch[j - 1];
        let kids = kids_of(rows, p.0);
        lemma_listing_exists(rows, child_pick(p.0));
        assert(ch[j].2 == Some(p.0));
        assert(rows.contains(ch[j]));
        assert(kids.contains(ch[j]));
        let i = choose|i: int| 0 <= i < kids.len() && kids[i] == ch[j];
        lemma_ids_show_kid(rows, kids, kids.len(), (fuel - j) as nat, i);
        lemma_chain_shown_from(rows, roots, fuel, ch, j - 1, ch[j].0);
    }
}


/// Some registered row has this id, branch and recorded parent.
pub open spec fn has_row(rows: Seq<RowView>, id: Seq<char>, branch: Seq<char>, parent: Option<Seq<char>>) -> bool {
    exists|i: int| 0 <= i < rows.len() && rows[i].0 == id && rows[i].1 == branch && rows[i].2 == parent
}

/// What every slot of a registered worktree says, whatever its place: its
/// id, branch and parent are those of a registered row, its path is that id's
/// directory, it is current exactly when its id is the current one, it is
/// marked orphaned as its group is, and it lies at least `depth` deep.
pub open spec fn row_slot(
    rows: Seq<RowView>,
    root: Seq<char>,
    current: Option<Seq<char>>,
    orphan: bool,
    depth: nat,
    s: SlotView,
) -> bool {
    &&& s.id is Some
    &&& has_row(rows, s.id->0, s.branch, s.parent)
    &&& s.path == worktree_dir(root, s.id->0)
    &&& !s.is_primary
    &&& s.is_current == (s.id == current)
    &&& s.is_orphan == orphan
    &&& s.depth >= depth
}

/// The parent a slot records at a level: none at top level, the parent's
/// id for a child, the (unregistered) recorded parent for an orphan.
pub open spec fn level_parent(level: Level, r: RowView) -> Option<Seq<char>> {
    match level {
        Level::Top(_) => None,
        Level::Child(p, _) => Some(p),
        Level::Orphan => r.2,
    }
}

/// The branch ahead/behind counts fall back to at a level.
pub open spec fn level_compare(level: Level) -> Option<Seq<char>> {
    match level {
        Level::Top(d) => Some(d),
        Level::Child(_, b) => Some(b),
        Level::Orphan => None,
    }
}

/// Slot `s` is the slot of one of the first `n` rows of `kids`, at `level`.
pub open spec fn kid_slot(kids: Seq<RowView>, n: nat, level: Level, s: SlotView) -> bool {
    exists|i: int|
        0 <= i < n && s.id == Some(kids[i].0) && s.branch == kids[i].1 && s.parent == level_parent(level, kids[i])
            && s.compare_to == level_compare(level)
}

/// Slot `k` hangs below an earlier slot `j`, one level up, with nothing
/// shallower between them: its parent is that slot's worktree, and its
/// counts fall back to that slot's branch.
pub open spec fn linked(fs: Seq<SlotView>, k: int) -> bool {
    exists|j: int|
        0 <= j < k && fs[j].depth + 1 == fs[k].depth && fs[k].parent == fs[j].id && fs[k].compare_to == Some(
            fs[j].branch,
        ) && forall|m: int| j < m < k ==> fs[m].depth >= fs[k].depth
}

/// Slots `j` and `k` (`j` first) are siblings: at the same depth, with
/// nothing shallower between them.
pub open spec fn siblings(fs: Seq<SlotView>, j: int, k: int) -> bool {
    &&& 0 <= j < k < fs.len()
    &&& fs[j].depth == fs[k].depth
    &&& forall|m: int| j < m < k ==> fs[m].depth >= fs[k].depth
}

proof fn lemma_kids_in_rows(rows: Seq<RowView>, id: Seq<char>)
    requires
        unique_rows(rows),
    ensures
        sorted_by_branch(kids_of(rows, id)),
        forall|i: int| 0 <= i < kids_of(rows, id).len() ==> rows.contains(#[trigger] kids_of(rows, id)[i]),
        forall|i: int| 0 <= i < kids_of(rows, id).len() ==> (#[trigger] kids_of(rows, id)[i]).2 == Some(id),
{
    lemma_listing_exists(rows, child_pick(id));
    let gk = kids_of(rows, id);
    assert forall|i: int| 0 <= i < gk.len() implies rows.contains(#[trigger] gk[i]) && gk[i].2 == Some(id) by {
        assert(gk.contains(gk[i]));
    }
}

/// Each slot `forest` lays out for a group of sibling rows is a registered
/// worktree's slot.
proof fn lemma_forest_slots(
    rows: Seq<RowView>,
    root: Seq<char>,
    kids: Seq<RowView>,
    n: nat,
    level: Level,
    orphan: bool,
    current: Option<Seq<char>>,
    depth: nat,
    more_after: bool,
    fuel: nat,
)
    requires
        unique_rows(rows),
        sorted_by_branch(kids),
        forall|i: int| 0 <= i < kids.len() ==> rows.contains(#[trigger] kids[i]),
        forall|i: int| 0 <= i < kids.len() ==> level_parent(level, #[trigger] kids[i]) == kids[i].2,
        n <= kids.len(),
    ensures
        forall|k: int| 0 <= k < forest(rows, root, kids, n, level, orphan, current, depth, more_after, fuel).len() ==> row_slot(
            rows,
            root,
            current,
            orphan,
            depth,
            #[trigger] forest(rows, root, kids, n, level, orphan, current, depth, more_after, fuel)[k],
        ),
    decreases fuel, n,
{
    let fs = forest(rows, root, kids, n, level, orphan, current, depth, more_after, fuel);
    if n == 0 {
        return;
    }
    let c = kids[n - 1];
    let gk = kids_of(rows, c.0);
    let a = forest(rows, root, kids, (n - 1) as nat, level, orphan, current, depth, more_after, fuel);
    let slot = slot_of(root, c, level, orphan, current, depth, gk.len() > 0, n == kids.len() && !more_after);
    let clevel = Level::Child(c.0, c.1);
    let b = if fuel == 0 {
        Seq::<SlotView>::empty()
    } else {
        forest(rows, root, gk, gk.len(), clevel, orphan, current, depth + 1, false, (fuel - 1) as nat)
    };
    assert(fs == a + seq![slot] + b);
    let al = a.len() as int;
    lemma_forest_slots(rows, root, kids, (n - 1) as nat, level, orphan, current, depth, more_after, fuel);
    assert(rows.contains(c));
    let ci = choose|i: int| 0 <= i < rows.len() && rows[i] == c;
    assert(has_row(rows, c.0, c.1, c.2)) by {
        assert(rows[ci].0 == c.0 && rows[ci].1 == c.1 && rows[ci].2 == c.2);
    }
    if fuel > 0 {
        lemma_kids_in_rows(rows, c.0);
        lemma_forest_slots(rows, root, gk, gk.len(), clevel, orphan, current, depth + 1, false, (fuel - 1) as nat);
    }
    assert forall|k: int| 0 <= k < fs.len() implies row_slot(rows, root, current, orphan, depth, #[trigger] fs[k]) by {
        if k < al {
            assert(fs[k] == a[k]);
        } else if k == al {
            assert(fs[k] == slot);
        } else {
            assert(fs[k] == b[k - al - 1]);
        }
    }
}

/// The slots at a group's own depth are those of the group's rows, at the
/// group's level.
proof fn lemma_forest_kids(
    rows: Seq<RowView>,
    root: Seq<char>,
    kids: Seq<RowView>,
    n: nat,
    level: Level,
    orphan: bool,
    current: Option<Seq<char>>,
    depth: nat,
    more_after: bool,
    fuel: nat,
)
    requires
        unique_rows(rows),
        sorted_by_branch(kids),
        forall|i: int| 0 <= i < kids.len() ==> rows.contains(#[trigger] kids[i]),
        forall|i: int| 0 <= i < kids.len() ==> level_parent(level, #[trigger] kids[i]) == kids[i].2,
        n <= kids.len(),
    ensures
        forall|k: int| 0 <= k < forest(rows, root, kids, n, level, orphan, current, depth, more_after, fuel).len() && (#[trigger] forest(rows, root, kids, n, level, orphan, current, depth, more_after, fuel)[k]).depth == depth ==> kid_slot(
            kids,
            n,
            level,
            forest(rows, root, kids, n, level, orphan, current, depth, more_after, fuel)[k],
        ),
    decreases fuel, n,
{
    let fs = forest(rows, root, kids, n, level, orphan, current, depth, more_after, fuel);
    if n == 0 {
        return;
    }
    let c = kids[n - 1];
    let gk = kids_of(rows, c.0);
    let a = forest(rows, root, kids, (n - 1) as nat, level, orphan, current, depth, more_after, fuel);
    let slot = slot_of(root, c, level, orphan, current, depth, gk.len() > 0, n == kids.len() && !more_after);
    let clevel = Level::Child(c.0, c.1);
    let b = if fuel == 0 {
        Seq::<SlotView>::empty()
    } else {
        forest(rows, root, gk, gk.len(), clevel, orphan, current, depth + 1, false, (fuel - 1) as nat)
    };
    assert(fs == a + seq![slot] + b);
    let al = a.len() as int;
    lemma_forest_kids(rows, root, kids, (n - 1) as nat, level, orphan, current, depth, more_after, fuel);
    if fuel > 0 {
        lemma_kids_in_rows(rows, c.0);
        lemma_forest_slots(rows, root, gk, gk.len(), clevel, orphan, current, depth + 1, false, (fuel - 1) as nat);
    }
    assert forall|k: int| 0 <= k < fs.len() && (#[trigger] fs[k]).depth == depth implies kid_slot(kids, n, level, fs[k]) by {
        if k < al {
            assert(fs[k] == a[k]);
            let i = choose|i: int|
                0 <= i < n - 1 && a[k].id == Some(kids[i].0) && a[k].branch == kids[i].1 && a[k].parent == level_parent(
                    level,
                    kids[i],
                ) && a[k].compare_to == level_compare(level);
        } else if k == al {
            assert(fs[k] == slot);
            let i = n - 1;
            assert(slot.parent == level_parent(level, kids[i]));
        } else {
            assert(fs[k] == b[k - al - 1]);
        }
    }
}

/// Each slot below a group's own depth hangs below the slot of its parent.
#[verifier::spinoff_prover]
#[verifier::rlimit(60)]
proof fn lemma_forest_linked(
    rows: Seq<RowView>,
    root: Seq<char>,
    kids: Seq<RowView>,
    n: nat,
    level: Level,
    orphan: bool,
    current: Option<Seq<char>>,
    depth: nat,
    more_after: bool,
    fuel: nat,
)
    requires
        unique_rows(rows),
        sorted_by_branch(kids),
        forall|i: int| 0 <= i < kids.len() ==> rows.contains(#[trigger] kids[i]),
        forall|i: int| 0 <= i < kids.len() ==> level_parent(level, #[trigger] kids[i]) == kids[i].2,
        n <= kids.len(),
    ensures
        forall|k: int| 0 <= k < forest(rows, root, kids, n, level, orphan, current, depth, more_after, fuel).len() && forest(rows, root, kids, n, level, orphan, current, depth, more_after, fuel)[k].depth > depth ==> #[trigger] linked(
            forest(rows, root, kids, n, level, orphan, current, depth, more_after, fuel),
            k,
        ),
    decreases fuel, n,
{
    let fs = forest(rows, root, kids, n, level, orphan, current, depth, more_after, fuel);
    if n == 0 {
        return;
    }
    let c = kids[n - 1];
    let gk = kids_of(rows, c.0);
    let a = forest(rows, root, kids, (n - 1) as nat, level, orphan, current, depth, more_after, fuel);
    let slot = slot_of(root, c, level, orphan, current, depth, gk.len() > 0, n == kids.len() && !more_after);
    let clevel = Level::Child(c.0, c.1);
    let b = if fuel == 0 {
        Seq::<SlotView>::empty()
    } else {
        forest(rows, root, gk, gk.len(), clevel, orphan, current, depth + 1, false, (fuel - 1) as nat)
    };
    assert(fs == a + seq![slot] + b);
    let al = a.len() as int;
    lemma_forest_linked(rows, root, kids, (n - 1) as nat, level, orphan, current, depth, more_after, fuel);
    if fuel > 0 {
        lemma_kids_in_rows(rows, c.0);
        lemma_forest_slots(rows, root, gk, gk.len(), clevel, orphan, current, depth + 1, false, (fuel - 1) as nat);
        lemma_forest_kids(rows, root, gk, gk.len(), clevel, orphan, current, depth + 1, false, (fuel - 1) as nat);
        lemma_forest_linked(rows, root, gk, gk.len(), clevel, orphan, current, depth + 1, false, (fuel - 1) as nat);
    }
    assert forall|k: int| 0 <= k < fs.len() && fs[k].depth > depth implies #[trigger] linked(fs, k) by {
        if k < al {
            assert(fs[k] == a[k]);
            assert(linked(a, k));
            let j = choose|j: int|
                0 <= j < k && a[j].depth + 1 == a[k].depth && a[k].parent == a[j].id && a[k].compare_to == Some(
                    a[j].branch,
                ) && forall|m: int| j < m < k ==> a[m].depth >= a[k].depth;
            assert(fs[j] == a[j]);
            assert forall|m: int| j < m < k implies fs[m].depth >= fs[k].depth by {
                assert(fs[m] == a[m]);
            }
        } else if k == al {
            assert(fs[k] == slot);
        } else {
            let k2 = k - al - 1;
            assert(fs[k] == b[k2]);
            if b[k2].depth == depth + 1 {
                assert(kid_slot(gk, gk.len(), clevel, b[k2]));
                assert(fs[al] == slot);
                assert forall|m: int| al < m < k implies fs[m].depth >= fs[k].depth by {
                    assert(fs[m] == b[m - al - 1]);
                }
            } else {
                assert(linked(b, k2));
                let j2 = choose|j2: int|
                    0 <= j2 < k2 && b[j2].depth + 1 == b[k2].depth && b[k2].parent == b[j2].id && b[k2].compare_to
                        == Some(b[j2].branch) && forall|m: int| j2 < m < k2 ==> b[m].depth >= b[k2].depth;
                let j = j2 + al + 1;
                assert(fs[j] == b[j2]);
                assert forall|m: int| j < m < k implies fs[m].depth >= fs[k].depth by {
                    assert(fs[m] == b[m - al - 1]);
                }
            }
        }
    }
}

/// Siblings in a group's slots come in ascending order of branch.
#[verifier::spinoff_prover]
proof fn lemma_forest_siblings(
    rows: Seq<RowView>,
    root: Seq<char>,
    kids: Seq<RowView>,
    n: nat,
    level: Level,
    orphan: bool,
    current: Option<Seq<char>>,
    depth: nat,
    more_after: bool,
    fuel: nat,
)
    requires
        unique_rows(rows),
        sorted_by_branch(kids),
        forall|i: int| 0 <= i < kids.len() ==> rows.contains(#[trigger] kids[i]),
        forall|i: int| 0 <= i < kids.len() ==> level_parent(level, #[trigger] kids[i]) == kids[i].2,
        n <= kids.len(),
    ensures
        forall|j: int, k: int| #[trigger] siblings(forest(rows, root, kids, n, level, orphan, current, depth, more_after, fuel), j, k) ==> text_before(
            forest(rows, root, kids, n, level, orphan, current, depth, more_after, fuel)[j].branch,
            forest(rows, root, kids, n, level, orphan, current, depth, more_after, fuel)[k].branch,
        ),
    decreases fuel, n,
{
    let fs = forest(rows, root, kids, n, level, orphan, current, depth, more_after, fuel);
    if n == 0 {
        return;
    }
    let c = kids[n - 1];
    let gk = kids_of(rows, c.0);
    let a = forest(rows, root, kids, (n - 1) as nat, level, orphan, current, depth, more_after, fuel);
    let slot = slot_of(root, c, level, orphan, current, depth, gk.len() > 0, n == kids.len() && !more_after);
    let clevel = Level::Child(c.0, c.1);
    let b = if fuel == 0 {
        Seq::<SlotView>::empty()
    } else {
        forest(rows, root, gk, gk.len(), clevel, orphan, current, depth + 1, false, (fuel - 1) as nat)
    };
    assert(fs == a + seq![slot] + b);
    let al = a.len() as int;
    lemma_forest_siblings(rows, root, kids, (n - 1) as nat, level, orphan, current, depth, more_after, fuel);
    lemma_forest_kids(rows, root, kids, (n - 1) as nat, level, orphan, current, depth, more_after, fuel);
    if fuel > 0 {
        lemma_kids_in_rows(rows, c.0);
        lemma_forest_slots(rows, root, gk, gk.len(), clevel, orphan, current, depth + 1, false, (fuel - 1) as nat);
        lemma_forest_siblings(rows, root, gk, gk.len(), clevel, orphan, current, depth + 1, false, (fuel - 1) as nat);
    }
    assert forall|j: int, k: int| #[trigger] siblings(fs, j, k) implies text_before(fs[j].branch, fs[k].branch) by {
        if k < al {
            assert(fs[j] == a[j] && fs[k] == a[k]);
            assert forall|m: int| j < m < k implies a[m].depth >= a[k].depth by {
                assert(fs[m] == a[m]);
            }
            assert(siblings(a, j, k));
        } else if k == al {
            assert(fs[k] == slot);
            assert(fs[j] == a[j]);
            assert(a[j].depth == depth);
            let i = choose|i: int|
                0 <= i < n - 1 && a[j].id == Some(kids[i].0) && a[j].branch == kids[i].1 && a[j].parent == level_parent(
                    level,
                    kids[i],
                ) && a[j].compare_to == level_compare(level);
        } else {
            let k2 = k - al - 1;
            assert(fs[k] == b[k2]);
            if j <= al {
                assert(fs[al] == slot);
                if j < al {
                    assert(fs[al].depth >= fs[k].depth);
                }
            } else {
                let j2 = j - al - 1;
                assert(fs[j] == b[j2]);
                assert forall|m: int| j2 < m < k2 implies b[m].depth >= b[k2].depth by {
                    assert(fs[m + al + 1] == b[m]);
                }
                assert(siblings(b, j2, k2));
            }
        }
    }
}


/// The shape of the listing. It starts with the primary worktree; every
/// other slot is a registered worktree's, current exactly when its id is
/// the current one, and marked orphaned exactly from the orphan start on.
/// A top-level slot (depth 0 before the orphans) is a worktree without a
/// parent, compared against the default branch; an orphan slot at depth 0
/// is a worktree whose parent is not registered, which it still names, with
/// no branch to compare against. Every deeper slot hangs below the slot of
/// its parent, one level up: its parent is that worktree (a registered
/// one) and its counts fall back to that worktree's branch. The orphans
/// start at depth 0. Siblings within the top-level part
/// or within the orphaned part come in ascending order of branch.
pub proof fn lemma_listing_shape(
    rows: Seq<RowView>,
    root: Seq<char>,
    current: Option<Seq<char>>,
    default_branch: Seq<char>,
)
    requires
        unique_rows(rows),
    ensures
        ({
            let (slots, start) = listing_slots(rows, root, current, default_branch);
            &&& 1 <= start <= slots.len()
            &&& slots[0].id is None && slots[0].is_primary && slots[0].branch == default_branch
            &&& slots[0].path == root && slots[0].parent is None && slots[0].depth == 0
            &&& slots[0].compare_to is None
            &&& forall|k: int| 0 <= k < slots.len() ==> (#[trigger] slots[k]).is_orphan == (k >= start)
            &&& forall|k: int| 0 <= k < slots.len() ==> (#[trigger] slots[k]).is_current == (slots[k].id == current)
            &&& forall|k: int| 1 <= k < slots.len() ==> row_slot(rows, root, current, k >= start, 0, #[trigger] slots[k])
            &&& forall|k: int| 1 <= k < start && (#[trigger] slots[k]).depth == 0 ==> slots[k].parent is None
                && slots[k].compare_to == Some(default_branch) && exists|i: int| 0 <= i < rows.len()
                && rows[i].2 is None && Some(rows[i].0) == slots[k].id && rows[i].1 == slots[k].branch
            &&& forall|k: int| start <= k < slots.len() && (#[trigger] slots[k]).depth == 0 ==> slots[k].compare_to is None
                && exists|i: int| 0 <= i < rows.len() && is_orphan_row(rows, rows[i]) && Some(rows[i].0) == slots[k].id
                && rows[i].1 == slots[k].branch && slots[k].parent == rows[i].2
            &&& forall|k: int| 1 <= k < slots.len() && slots[k].depth > 0 ==> #[trigger] linked(slots, k)
            &&& forall|k: int| 1 <= k < slots.len() && (#[trigger] slots[k]).depth > 0 ==> (slots[k].parent matches Some(
                p,
            ) && has_id(rows, p))
            &&& start < slots.len() ==> slots[start as int].depth == 0
            &&& forall|j: int, k: int| 1 <= j && (k < start || start <= j) && #[trigger] siblings(slots, j, k)
                ==> text_before(slots[j].branch, slots[k].branch)
        }),
{
    let n = rows.len();
    let top = sorted_listing(rows, top_pick());
    let orph = sorted_listing(rows, orphan_pick(rows));
    lemma_listing_exists(rows, top_pick());
    lemma_listing_exists(rows, orphan_pick(rows));
    assert forall|i: int| 0 <= i < top.len() implies rows.contains(#[trigger] top[i]) && top[i].2 is None by {
        assert(top.contains(top[i]));
    }
    assert forall|i: int| 0 <= i < orph.len() implies rows.contains(#[trigger] orph[i]) && is_orphan_row(rows, orph[i]) by {
        assert(orph.contains(orph[i]));
    }
    let tl = Level::Top(default_branch);
    let ol = Level::Orphan;
    let more = orph.len() > 0;
    lemma_forest_slots(rows, root, top, top.len(), tl, false, current, 0, more, n);
    lemma_forest_kids(rows, root, top, top.len(), tl, false, current, 0, more, n);
    lemma_forest_linked(rows, root, top, top.len(), tl, false, current, 0, more, n);
    lemma_forest_siblings(rows, root, top, top.len(), tl, false, current, 0, more, n);
    lemma_forest_slots(rows, root, orph, orph.len(), ol, true, current, 0, false, n);
    lemma_forest_kids(rows, root, orph, orph.len(), ol, true, current, 0, false, n);
    lemma_forest_linked(rows, root, orph, orph.len(), ol, true, current, 0, false, n);
    lemma_forest_siblings(rows, root, orph, orph.len(), ol, true, current, 0, false, n);
    let tf = forest(rows, root, top, top.len(), tl, false, current, 0, more, n);
    let of = forest(rows, root, orph, orph.len(), ol, true, current, 0, false, n);
    let p = primary_slot(root, default_branch, current, top.len() == 0 && orph.len() == 0);
    let head = seq![p] + tf;
    let slots = head + of;
    let start = head.len() as int;
    assert(listing_slots(rows, root, current, default_branch) == (slots, head.len()));
    let tl_len = tf.len() as int;
    assert(slots[0] == p);
    assert forall|k: int| 1 <= k < slots.len() implies row_slot(rows, root, current, k >= start, 0, #[trigger] slots[k]) by {
        if k < start {
            assert(slots[k] == tf[k - 1]);
        } else {
            assert(slots[k] == of[k - start]);
        }
    }
    assert forall|k: int| 0 <= k < slots.len() implies (#[trigger] slots[k]).is_orphan == (k >= start)
        && slots[k].is_current == (slots[k].id == current) by {
        if k >= 1 {
            assert(row_slot(rows, root, current, k >= start, 0, slots[k]));
        }
    }
    assert forall|k: int| 1 <= k < start && (#[trigger] slots[k]).depth == 0 implies slots[k].parent is None
        && slots[k].compare_to == Some(default_branch) && exists|i: int| 0 <= i < rows.len()
        && rows[i].2 is None && Some(rows[i].0) == slots[k].id && rows[i].1 == slots[k].branch by {
        assert(slots[k] == tf[k - 1]);
        assert(kid_slot(top, top.len(), tl, tf[k - 1]));
        let i = choose|i: int| 0 <= i < top.len() && tf[k - 1].id == Some(top[i].0) && tf[k - 1].branch == top[i].1
            && tf[k - 1].parent == level_parent(tl, top[i]) && tf[k - 1].compare_to == level_compare(tl);
        assert(rows.contains(top[i]));
        let r = choose|r: int| 0 <= r < rows.len() && rows[r] == top[i];
    }
    assert forall|k: int| start <= k < slots.len() && (#[trigger] slots[k]).depth == 0 implies slots[k].compare_to is None
        && exists|i: int| 0 <= i < rows.len() && is_orphan_row(rows, rows[i]) && Some(rows[i].0) == slots[k].id
        && rows[i].1 == slots[k].branch && slots[k].parent == rows[i].2 by {
        assert(slots[k] == of[k - start]);
        assert(kid_slot(orph, orph.len(), ol, of[k - start]));
        let i = choose|i: int| 0 <= i < orph.len() && of[k - start].id == Some(orph[i].0) && of[k - start].branch
            == orph[i].1 && of[k - start].parent == level_parent(ol, orph[i]) && of[k - start].compare_to == level_compare(ol);
        assert(rows.contains(orph[i]));
        let r = choose|r: int| 0 <= r < rows.len() && rows[r] == orph[i];
    }
    assert forall|k: int| 1 <= k < slots.len() && slots[k].depth > 0 implies #[trigger] linked(slots, k) by {
        if k < start {
            let k2 = k - 1;
            assert(slots[k] == tf[k2]);
            assert(linked(tf, k2));
            let j2 = choose|j2: int|
                0 <= j2 < k2 && tf[j2].depth + 1 == tf[k2].depth && tf[k2].parent == tf[j2].id && tf[k2].compare_to
                    == Some(tf[j2].branch) && forall|m: int| j2 < m < k2 ==> tf[m].depth >= tf[k2].depth;
            assert(slots[j2 + 1] == tf[j2]);
            assert forall|m: int| j2 + 1 < m < k implies slots[m].depth >= slots[k].depth by {
                assert(slots[m] == tf[m - 1]);
            }
        } else {
            let k2 = k - start;
            assert(slots[k] == of[k2]);
            assert(linked(of, k2));
            let j2 = choose|j2: int|
                0 <= j2 < k2 && of[j2].depth + 1 == of[k2].depth && of[k2].parent == of[j2].id && of[k2].compare_to
                    == Some(of[j2].branch) && forall|m: int| j2 < m < k2 ==> of[m].depth >= of[k2].depth;
            assert(slots[j2 + start] == of[j2]);
            assert forall|m: int| j2 + start < m < k implies slots[m].depth >= slots[k].depth by {
                assert(slots[m] == of[m - start]);
            }
        }
    }
    assert forall|k: int| 1 <= k < slots.len() && (#[trigger] slots[k]).depth > 0 implies (slots[k].parent matches Some(
        p,
    ) && has_id(rows, p)) by {
        assert(linked(slots, k));
        let j = choose|j: int|
            0 <= j < k && slots[j].depth + 1 == slots[k].depth && slots[k].parent == slots[j].id && slots[k].compare_to
                == Some(slots[j].branch);
        if j == 0 {
            if k < start {
                assert(slots[k] == tf[k - 1]);
                assert(linked(tf, k - 1));
                let j2 = choose|j2: int|
                    0 <= j2 < k - 1 && tf[j2].depth + 1 == tf[k - 1].depth && tf[k - 1].parent == tf[j2].id
                        && tf[k - 1].compare_to == Some(tf[j2].branch);
                assert(slots[j2 + 1] == tf[j2]);
                assert(slots[j2 + 1].id == slots[k].parent);
            } else {
                assert(slots[k] == of[k - start]);
                assert(linked(of, k - start));
                let j2 = choose|j2: int|
                    0 <= j2 < k - start && of[j2].depth + 1 == of[k - start].depth && of[k - start].parent == of[j2].id
                        && of[k - start].compare_to == Some(of[j2].branch);
                assert(slots[j2 + start] == of[j2]);
                assert(slots[j2 + start].id == slots[k].parent);
            }
        } else {
            assert(slots[j].id == slots[k].parent);
        }
        assert(exists|jj: int| 1 <= jj < k && slots[jj].id == slots[k].parent);
        let jj = choose|jj: int| 1 <= jj < k && slots[jj].id == slots[k].parent;
        let pid = slots[k].parent->0;
        assert(row_slot(rows, root, current, jj >= start, 0, slots[jj]));
        let i = choose|i: int| 0 <= i < rows.len() && rows[i].0 == pid && rows[i].1 == slots[jj].branch && rows[i].2
            == slots[jj].parent;
    }
    if start < slots.len() {
        assert(slots[start] == of[0]);
        if of[0].depth > 0 {
            assert(linked(of, 0));
        }
    }
    assert forall|j: int, k: int| 1 <= j && (k < start || start <= j) && #[trigger] siblings(slots, j, k)
        implies text_before(slots[j].branch, slots[k].branch) by {
        if k < start {
            assert(slots[j] == tf[j - 1] && slots[k] == tf[k - 1]);
            assert forall|m: int| j - 1 < m < k - 1 implies (#[trigger] tf[m]).depth >= tf[k - 1].depth by {
                assert(slots[m + 1] == tf[m]);
            }
            assert(siblings(tf, j - 1, k - 1));
        } else {
            assert(slots[j] == of[j - start] && slots[k] == of[k - start]);
            assert forall|m: int| j - start < m < k - start implies (#[trigger] of[m]).depth >= of[k - start].depth by {
                assert(slots[m + start] == of[m]);
            }
            assert(siblings(of, j - start, k - start));
        }
    }
}


/// The rows reached from the first `n` of `roots`, in pre-order: each root,
/// then everything reached from its children, which come sorted by branch;
/// descending at most `fuel` levels below the roots.
pub open spec fn preorder(rows: Seq<RowView>, roots: Seq<RowView>, n: nat, fuel: nat) -> Seq<RowView>
    decreases fuel, n,
{
    if n == 0 || n > roots.len() {
        Seq::empty()
    } else {
        let c = roots[n - 1];
        let gk = kids_of(rows, c.0);
        preorder(rows, roots, (n - 1) as nat, fuel) + seq![c] + if fuel == 0 {
            Seq::empty()
        } else {
            preorder(rows, gk, gk.len(), (fuel - 1) as nat)
        }
    }
}

/// Slot `s` is the slot of row `r`.
pub open spec fn slot_for(s: SlotView, r: RowView) -> bool {
    s.id == Some(r.0) && s.branch == r.1 && s.parent == r.2
}

proof fn lemma_forest_preorder(
    rows: Seq<RowView>,
    root: Seq<char>,
    kids: Seq<RowView>,
    n: nat,
    level: Level,
    orphan: bool,
    current: Option<Seq<char>>,
    depth: nat,
    more_after: bool,
    fuel: nat,
)
    requires
        unique_rows(rows),
        forall|i: int| 0 <= i < kids.len() ==> level_parent(level, #[trigger] kids[i]) == kids[i].2,
    ensures
        ({
            let fs = forest(rows, root, kids, n, level, orphan, current, depth, more_after, fuel);
            let p = preorder(rows, kids, n, fuel);
            fs.len() == p.len() && forall|k: int| 0 <= k < fs.len() ==> slot_for(#[trigger] fs[k], p[k])
        }),
    decreases fuel, n,
{
    if n > 0 && n <= kids.len() {
        let c = kids[n - 1];
        let gk = kids_of(rows, c.0);
        lemma_forest_preorder(rows, root, kids, (n - 1) as nat, level, orphan, current, depth, more_after, fuel);
        let a = forest(rows, root, kids, (n - 1) as nat, level, orphan, current, depth, more_after, fuel);
        let ap = preorder(rows, kids, (n - 1) as nat, fuel);
        let slot = slot_of(root, c, level, orphan, current, depth, gk.len() > 0, n == kids.len() && !more_after);
        assert(slot_for(slot, c));
        let clevel = Level::Child(c.0, c.1);
        let b = if fuel == 0 {
            Seq::<SlotView>::empty()
        } else {
            forest(rows, root, gk, gk.len(), clevel, orphan, current, depth + 1, false, (fuel - 1) as nat)
        };
        let bp = if fuel == 0 {
            Seq::<RowView>::empty()
        } else {
            preorder(rows, gk, gk.len(), (fuel - 1) as nat)
        };
        if fuel > 0 {
            lemma_kids_in_rows(rows, c.0);
            lemma_forest_preorder(rows, root, gk, gk.len(), clevel, orphan, current, depth + 1, false, (fuel - 1) as nat);
        }
        let fs = a + seq![slot] + b;
        let ps = ap + seq![c] + bp;
        assert forall|k: int| 0 <= k < fs.len() implies slot_for(#[trigger] fs[k], ps[k]) by {
            if k < a.len() {
                assert(fs[k] == a[k] && ps[k] == ap[k]);
            } else if k == a.len() {
                assert(fs[k] == slot && ps[k] == c);
            } else {
                assert(fs[k] == b[k - a.len() - 1] && ps[k] == bp[k - a.len() - 1]);
            }
        }
    }
}

/// The listing is a pre-order walk. After the primary worktree come the
/// rows reached from the top-level worktrees, sorted by branch, each
/// followed by the rows reached from its children, themselves sorted by
/// branch; then, from the orphan start on, the same walk from the orphaned
/// worktrees. Each slot carries its row's id, branch and parent.
pub proof fn lemma_listing_preorder(
    rows: Seq<RowView>,
    root: Seq<char>,
    current: Option<Seq<char>>,
    default_branch: Seq<char>,
)
    requires
        unique_rows(rows),
    ensures
        ({
            let (slots, start) = listing_slots(rows, root, current, default_branch);
            let top = sorted_listing(rows, top_pick());
            let orph = sorted_listing(rows, orphan_pick(rows));
            let p = preorder(rows, top, top.len(), rows.len());
            let q = preorder(rows, orph, orph.len(), rows.len());
            &&& is_listing(rows, top_pick(), top)
            &&& is_listing(rows, orphan_pick(rows), orph)
            &&& forall|id: Seq<char>| is_listing(rows, child_pick(id), #[trigger] kids_of(rows, id))
            &&& slots.len() == 1 + p.len() + q.len()
            &&& start == 1 + p.len()
            &&& forall|k: int| 0 <= k < p.len() ==> slot_for(slots[1 + k], #[trigger] p[k])
            &&& forall|k: int| 0 <= k < q.len() ==> slot_for(slots[start + k], #[trigger] q[k])
        }),
{
    let n = rows.len();
    let top = sorted_listing(rows, top_pick());
    let orph = sorted_listing(rows, orphan_pick(rows));
    lemma_listing_exists(rows, top_pick());
    lemma_listing_exists(rows, orphan_pick(rows));
    assert forall|id: Seq<char>| is_listing(rows, child_pick(id), #[trigger] kids_of(rows, id)) by {
        lemma_listing_exists(rows, child_pick(id));
    }
    assert forall|i: int| 0 <= i < top.len() implies level_parent(Level::Top(default_branch), #[trigger] top[i]) == top[i].2 by {
        assert(top.contains(top[i]));
    }
    let more = orph.len() > 0;
    lemma_forest_preorder(rows, root, top, top.len(), Level::Top(default_branch), false, current, 0, more, n);
    lemma_forest_preorder(rows, root, orph, orph.len(), Level::Orphan, true, current, 0, false, n);
    let tf = forest(rows, root, top, top.len(), Level::Top(default_branch), false, current, 0, more, n);
    let of = forest(rows, root, orph, orph.len(), Level::Orphan, true, current, 0, false, n);
    let pslot = primary_slot(root, default_branch, current, top.len() == 0 && orph.len() == 0);
    let head = seq![pslot] + tf;
    let slots = head + of;
    assert(listing_slots(rows, root, current, default_branch) == (slots, head.len()));
    let p = preorder(rows, top, top.len(), n);
    let q = preorder(rows, orph, orph.len(), n);
    assert forall|k: int| 0 <= k < p.len() implies slot_for(slots[1 + k], #[trigger] p[k]) by {
        assert(slots[1 + k] == tf[k]);
    }
    assert forall|k: int| 0 <= k < q.len() implies slot_for(slots[head.len() + k], #[trigger] q[k]) by {
        assert(slots[head.len() + k] == of[k]);
    }
}

/// Whether a listing shows the worktree with id `id`.
pub open spec fn shows(slots: Seq<SlotView>, id: Seq<char>) -> bool {
    exists|k: int| 0 <= k < slots.len() && slots[k].id == Some(id)
}

/// The listing shows every worktree that is top level, orphaned, or a
/// descendant of one: the last row of every chain of children that starts
/// at such a worktree.
pub proof fn lemma_listing_shows_descendants(
    rows: Seq<RowView>,
    root: Seq<char>,
    current: Option<Seq<char>>,
    default_branch: Seq<char>,
    ch: Seq<RowView>,
)
    requires
        unique_rows(rows),
        is_chain(rows, ch),
        ch.len() > 0,
    ensures
        shows(listing_slots(rows, root, current, default_branch).0, ch.last().0),
{
    let n = rows.len();
    let top = sorted_listing(rows, top_pick());
    let orph = sorted_listing(rows, orphan_pick(rows));
    lemma_listing_exists(rows, top_pick());
    lemma_listing_exists(rows, orphan_pick(rows));
    lemma_chain_len(rows, ch);
    let x = ch.last().0;
    let top_f = forest(rows, root, top, top.len(), Level::Top(default_branch), false, current, 0, orph.len() > 0, n);
    let orph_f = forest(rows, root, orph, orph.len(), Level::Orphan, true, current, 0, false, n);
    let head = seq![primary_slot(root, default_branch, current, top.len() == 0 && orph.len() == 0)] + top_f;
    let all = head + orph_f;
    assert(all == listing_slots(rows, root, current, default_branch).0);
    assert(rows.contains(ch[0]));
    if ch[0].2 is None {
        assert(top.contains(ch[0]));
        lemma_chain_shown(rows, top, n, ch);
        lemma_forest_ids(rows, root, top, top.len(), Level::Top(default_branch), false, current, 0, orph.len() > 0, n);
        let ids = forest_ids(rows, top, top.len(), n);
        let k = choose|k: int| 0 <= k < ids.len() && ids[k] == x;
        assert(top_f[k].id == Some(x));
        assert(all[k + 1] == top_f[k]);
    } else {
        assert(is_orphan_row(rows, ch[0]));
        assert(orph.contains(ch[0]));
        lemma_chain_shown(rows, orph, n, ch);
        lemma_forest_ids(rows, root, orph, orph.len(), Level::Orphan, true, current, 0, false, n);
        let ids = forest_ids(rows, orph, orph.len(), n);
        let k = choose|k: int| 0 <= k < ids.len() && ids[k] == x;
        assert(orph_f[k].id == Some(x));
        assert(all[head.len() + k] == orph_f[k]);
    }
}

proof fn lemma_listing_ids_distinct(
    rows: Seq<RowView>,
    root: Seq<char>,
    current: Option<Seq<char>>,
    default_branch: Seq<char>,
    j: int,
    k: int,
)
    requires
        unique_rows(rows),
        1 <= j < k < listing_slots(rows, root, current, default_branch).0.len(),
    ensures
        listing_slots(rows, root, current, default_branch).0[j].id != listing_slots(
            rows,
            root,
            current,
            default_branch,
        ).0[k].id,
    decreases listing_slots(rows, root, current, default_branch).0[j].depth + listing_slots(
        rows,
        root,
        current,
        default_branch,
    ).0[k].depth,
{
    lemma_listing_shape(rows, root, current, default_branch);
    let ls = listing_slots(rows, root, current, default_branch);
    let slots = ls.0;
    let start = ls.1 as int;
    if slots[j].id == slots[k].id {
        assert(row_slot(rows, root, current, j >= start, 0, slots[j]));
        assert(row_slot(rows, root, current, k >= start, 0, slots[k]));
        let x = slots[j].id->0;
        let i1 = choose|i: int|
            0 <= i < rows.len() && rows[i].0 == x && rows[i].1 == slots[j].branch && rows[i].2 == slots[j].parent;
        let i2 = choose|i: int|
            0 <= i < rows.len() && rows[i].0 == x && rows[i].1 == slots[k].branch && rows[i].2 == slots[k].parent;
        if i1 < i2 {
            assert(rows[i1].0 != rows[i2].0);
        } else if i2 < i1 {
            assert(rows[i2].0 != rows[i1].0);
        }
        assert(slots[j].branch == slots[k].branch && slots[j].parent == slots[k].parent);
        if slots[j].depth == 0 && slots[k].depth == 0 {
            if k < start || start <= j {
                assert(siblings(slots, j, k));
                crate::text::lemma_text_before_irreflexive(slots[k].branch);
            } else {
                assert(slots[j].parent is None);
                let r = choose|r: int| 0 <= r < rows.len() && is_orphan_row(rows, rows[r]) && Some(rows[r].0) == slots[k].id
                    && rows[r].1 == slots[k].branch && slots[k].parent == rows[r].2;
            }
        } else if slots[j].depth == 0 || slots[k].depth == 0 {
            let (d0, d1) = if slots[j].depth == 0 { (j, k) } else { (k, j) };
            assert(slots[d1].depth > 0);
            let p = slots[d1].parent->0;
            assert(has_id(rows, p));
            if d0 >= start {
                let r = choose|r: int| 0 <= r < rows.len() && is_orphan_row(rows, rows[r]) && Some(rows[r].0)
                    == slots[d0].id && rows[r].1 == slots[d0].branch && slots[d0].parent == rows[r].2;
            }
        } else {
            assert(linked(slots, j));
            assert(linked(slots, k));
            let mj = choose|m: int|
                0 <= m < j && slots[m].depth + 1 == slots[j].depth && slots[j].parent == slots[m].id
                    && slots[j].compare_to == Some(slots[m].branch) && forall|q: int| m < q < j ==> slots[q].depth
                    >= slots[j].depth;
            let mk = choose|m: int|
                0 <= m < k && slots[m].depth + 1 == slots[k].depth && slots[k].parent == slots[m].id
                    && slots[k].compare_to == Some(slots[m].branch) && forall|q: int| m < q < k ==> slots[q].depth
                    >= slots[k].depth;
            assert(slots[j].parent is Some);
            assert(mj != 0 && mk != 0);
            if mj == mk {
                if j < start && start <= k {
                    assert(slots[start].depth == 0);
                }
                assert(siblings(slots, j, k));
                crate::text::lemma_text_before_irreflexive(slots[k].branch);
            } else if mj < mk {
                lemma_listing_ids_distinct(rows, root, current, default_branch, mj, mk);
            } else {
                lemma_listing_ids_distinct(rows, root, current, default_branch, mk, mj);
            }
        }
    }
}

/// Every registered worktree descends from one the listing starts from:
/// following parent links up from it, without a cycle, reaches a worktree
/// with no parent or with an unregistered one.
pub open spec fn rooted(rows: Seq<RowView>) -> bool {
    forall|i: int|
        0 <= i < rows.len() ==> exists|ch: Seq<RowView>| #[trigger] is_chain(rows, ch) && ch.len() > 0 && ch.last() == #[trigger] rows[i]
}

/// The listing shows each worktree at most once, and shows only registered
/// worktrees; when the registry's parent links hold no cycle, it shows
/// every registered worktree, so each exactly once.
pub proof fn lemma_listing_shows_each_once(
    rows: Seq<RowView>,
    root: Seq<char>,
    current: Option<Seq<char>>,
    default_branch: Seq<char>,
)
    requires
        unique_rows(rows),
    ensures
        ({
            let slots = listing_slots(rows, root, current, default_branch).0;
            &&& forall|j: int, k: int| 1 <= j < k < slots.len() ==> #[trigger] slots[j].id != #[trigger] slots[k].id
            &&& forall|k: int| 1 <= k < slots.len() ==> ((#[trigger] slots[k]).id matches Some(x) && has_id(rows, x))
            &&& rooted(rows) ==> forall|i: int| 0 <= i < rows.len() ==> shows(slots, #[trigger] rows[i].0)
        }),
{
    lemma_listing_shape(rows, root, current, default_branch);
    let ls = listing_slots(rows, root, current, default_branch);
    let slots = ls.0;
    let start = ls.1 as int;
    assert forall|j: int, k: int| 1 <= j < k < slots.len() implies #[trigger] slots[j].id != #[trigger] slots[k].id by {
        lemma_listing_ids_distinct(rows, root, current, default_branch, j, k);
    }
    assert forall|k: int| 1 <= k < slots.len() implies ((#[trigger] slots[k]).id matches Some(x) && has_id(rows, x)) by {
        assert(row_slot(rows, root, current, k >= start, 0, slots[k]));
        let x = slots[k].id->0;
        let i = choose|i: int| 0 <= i < rows.len() && rows[i].0 == x && rows[i].1 == slots[k].branch && rows[i].2
            == slots[k].parent;
    }
    if rooted(rows) {
        assert forall|i: int| 0 <= i < rows.len() implies shows(slots, #[trigger] rows[i].0) by {
            let ch = choose|ch: Seq<RowView>| #[trigger] is_chain(rows, ch) && ch.len() > 0 && ch.last() == rows[i];
            lemma_listing_shows_descendants(rows, root, current, default_branch, ch);
        }
    }
}

} // verus!
