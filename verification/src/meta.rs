//! The worktree registry: one row per grove worktree (id, branch, parent,
//! creation time) and the counter that hands out ids.
//!
//! Ids and branch names are unique. Removing a worktree leaves its children
//! in place with their parent reference intact, which makes them orphans.

use vstd::prelude::*;
use crate::text::{
    chars_of, same_text, texts, text_before, text_less, lemma_text_before_total, lemma_text_before_asym,
    lemma_text_before_trans, lemma_text_before_irreflexive,
};
use crate::ids::{base36, base36_encode, base36_decode, parse_base36};
use crate::paths::{join, worktree_dir, store_dir, seq_prefix, components, final_name, path_starts_with, file_name, same_path, wt_dir};
use crate::git::{GitWorktree, WorktreeView, worktree_view, worktree_views};

verus! {

/// Information about a single worktree.
#[derive(Debug, PartialEq, Eq)]
pub struct WorktreeInfo {
    pub branch: String,
    pub parent: Option<String>,
    /// Creation time as an RFC 3339 timestamp.
    pub created: String,
}

/// What a row says: id, branch, parent id and creation time.
pub type RowView = (Seq<char>, Seq<char>, Option<Seq<char>>, Seq<char>);

/// The view of an optional string.
pub open spec fn opt_text(o: Option<String>) -> Option<Seq<char>> {
    match o {
        Some(s) => Some(s@),
        None => None,
    }
}

/// The view of a row.
pub open spec fn row_view(r: (String, WorktreeInfo)) -> RowView {
    (r.0@, r.1.branch@, opt_text(r.1.parent), r.1.created@)
}

/// The views of a list of rows.
pub open spec fn row_views(v: Seq<(String, WorktreeInfo)>) -> Seq<RowView> {
    v.map_values(|r: (String, WorktreeInfo)| row_view(r))
}

/// Some row has id `id`.
pub open spec fn has_id(rows: Seq<RowView>, id: Seq<char>) -> bool {
    exists|k: int| 0 <= k < rows.len() && rows[k].0 == id
}

/// Some row has branch `b`.
pub open spec fn has_branch(rows: Seq<RowView>, b: Seq<char>) -> bool {
    exists|k: int| 0 <= k < rows.len() && rows[k].1 == b
}

/// No two rows share an id, and no two share a branch.
pub open spec fn unique_rows(rows: Seq<RowView>) -> bool {
    &&& forall|i: int, j: int| 0 <= i < j < rows.len() ==> rows[i].0 != rows[j].0
    &&& forall|i: int, j: int| 0 <= i < j < rows.len() ==> rows[i].1 != rows[j].1
}

/// Errors of the registry.
#[derive(Debug, PartialEq, Eq)]
pub enum MetaError {
    /// The counter holds this value, past every id that fits in 32 bits.
    IdsExhausted(u64),
    /// The counter cannot move on: it holds the largest value the
    /// database keeps.
    CounterOverflow,
    /// A worktree with this branch is already registered.
    BranchTaken,
    /// A worktree with this id is already registered.
    IdTaken,
    /// The system clock gave no time that can be written down (it reads
    /// before 1970, or past what a timestamp can hold).
    ClockUnavailable,
}

/// Metadata registry for the worktrees of a repository.
#[derive(Debug)]
pub struct Meta {
    rows: Vec<(String, WorktreeInfo)>,
    next: u64,
    repo_root: String,
}

/// The largest value the counter can hold and still move on.
pub open spec fn counter_limit() -> nat {
    0x7fff_ffff_ffff_ffff
}

/// The counter after an id is drawn from `c`.
pub open spec fn counter_after_draw(c: nat) -> nat {
    if c < counter_limit() {
        c + 1
    } else {
        c
    }
}

/// The counter after `k` ids are drawn from `c`.
pub open spec fn counter_after_draws(c: nat, k: nat) -> nat
    decreases k,
{
    if k == 0 {
        c
    } else {
        counter_after_draw(counter_after_draws(c, (k - 1) as nat))
    }
}

proof fn lemma_draws_from_one(k: nat)
    requires
        k < counter_limit(),
    ensures
        counter_after_draws(1, k) == k + 1,
    decreases k,
{
    if k > 0 {
        lemma_draws_from_one((k - 1) as nat);
    }
}

/// Ids come in order and never twice. A fresh registry's counter is 1, so
/// draw number `k` (counting from 1, each draw being a `next_id`, or the
/// draw of an `add_worktree`) is made from counter `k` and gives the
/// numeral of `k` while `k` fits in 32 bits; draws `j` and `k` with
/// `j != k` give different ids.
pub proof fn lemma_fresh_ids(j: nat, k: nat)
    requires
        1 <= j <= u32::MAX,
        1 <= k <= u32::MAX,
    ensures
        counter_after_draws(1, (k - 1) as nat) == k,
        forall|r: Result<String, MetaError>|
            #[trigger] drawn(counter_after_draws(1, (k - 1) as nat), r) <==> (r matches Ok(id) && id@ == base36(k)),
        j != k ==> base36(j) != base36(k),
{
    lemma_draws_from_one((k - 1) as nat);
    if j != k && base36(j) == base36(k) {
        crate::ids::lemma_base36_injective(j as u32, k as u32);
    }
}

/// Successive `next_id` calls on a fresh registry give `1`, `2`, `3`, ...:
/// when `ms[0]` is a fresh registry (counter 1) and each `ms[j + 1]` and
/// `rs[j]` are the registry and the result after a `next_id` call on
/// `ms[j]`, as its contract states them, call number `j + 1` gives the
/// numeral of `j + 1` (while that fits in 32 bits).
pub proof fn lemma_successive_next_ids(ms: Seq<Meta>, rs: Seq<Result<String, MetaError>>)
    requires
        ms.len() == rs.len() + 1,
        rs.len() <= u32::MAX,
        ms[0].counter() == 1,
        forall|j: int|
            0 <= j < rs.len() ==> ms[j + 1].counter() == counter_after_draw(#[trigger] ms[j].counter())
                && drawn(ms[j].counter(), rs[j]),
    ensures
        forall|j: int| 0 <= j < rs.len() ==> (#[trigger] rs[j] matches Ok(id) && id@ == base36((j + 1) as nat)),
{
    assert forall|j: int| 0 <= j <= rs.len() implies (#[trigger] ms[j]).counter() == j + 1 by {
        lemma_counter_steps(ms, rs, j);
    }
    assert forall|j: int| 0 <= j < rs.len() implies (#[trigger] rs[j] matches Ok(id) && id@ == base36((j + 1) as nat)) by {
        assert(ms[j].counter() == j + 1);
        assert(drawn(ms[j].counter(), rs[j]));
    }
}

proof fn lemma_counter_steps(ms: Seq<Meta>, rs: Seq<Result<String, MetaError>>, j: int)
    requires
        ms.len() == rs.len() + 1,
        rs.len() <= u32::MAX,
        ms[0].counter() == 1,
        forall|i: int|
            0 <= i < rs.len() ==> ms[i + 1].counter() == counter_after_draw(#[trigger] ms[i].counter())
                && drawn(ms[i].counter(), rs[i]),
        0 <= j <= rs.len(),
    ensures
        ms[j].counter() == j + 1,
    decreases j,
{
    if j > 0 {
        lemma_counter_steps(ms, rs, j - 1);
        assert(ms[j - 1].counter() == j);
    }
}

/// `r` is what drawing an id from counter `c` gives: the counter in base 36
/// while it fits in 32 bits.
pub open spec fn drawn(c: nat, r: Result<String, MetaError>) -> bool {
    if c >= counter_limit() {
        r matches Err(MetaError::CounterOverflow)
    } else if c > u32::MAX {
        r matches Err(MetaError::IdsExhausted(v)) && v == c
    } else {
        r matches Ok(id) && id@ == base36(c)
    }
}

impl WorktreeInfo {
    /// A copy of this information.
    pub fn duplicate(&self) -> (r: WorktreeInfo)
        ensures
            r.branch@ == self.branch@,
            opt_text(r.parent) == opt_text(self.parent),
            r.created@ == self.created@,
    {
        WorktreeInfo {
            branch: self.branch.clone(),
            parent: match &self.parent {
                Some(p) => Some(p.clone()),
                None => None,
            },
            created: self.created.clone(),
        }
    }
}

impl Meta {
    /// The rows, in the order they were registered.
    pub closed spec fn rows_view(&self) -> Seq<RowView> {
        row_views(self.rows@)
    }

    /// The next value the id counter will hand out.
    pub closed spec fn counter(&self) -> nat {
        self.next as nat
    }

    /// The repository root.
    pub closed spec fn root(&self) -> Seq<char> {
        self.repo_root@
    }

    /// Ids and branches are unique.
    pub closed spec fn wf(&self) -> bool {
        unique_rows(row_views(self.rows@))
    }

    /// A well-formed registry's rows have unique ids and unique branches,
    /// as the listing laws ask.
    pub proof fn lemma_wf_unique(&self)
        requires
            self.wf(),
        ensures
            unique_rows(self.rows_view()),
    {
    }

    /// An empty registry whose counter starts at 1.
    pub fn new(repo_root: String) -> (m: Meta)
        ensures
            m.wf(),
            m.rows_view() == Seq::<RowView>::empty(),
            m.counter() == 1,
            m.root() == repo_root@,
    {
        let m = Meta { rows: Vec::new(), next: 1, repo_root };
        assert(m.rows_view() =~= Seq::<RowView>::empty());
        m
    }

    /// A registry holding stored rows and counter, or `None` when two rows
    /// share an id or a branch.
    pub fn from_rows(repo_root: String, rows: Vec<(String, WorktreeInfo)>, next: u64) -> (r: Option<Meta>)
        ensures
            match r {
                Some(m) => m.wf() && m.rows_view() == row_views(rows@) && m.counter() == next
                    && m.root() == repo_root@,
                None => !unique_rows(row_views(rows@)),
            },
    {
        let ghost rv = row_views(rows@);
        let mut i: usize = 0;
        while i < rows.len()
            invariant
                i <= rows.len(),
                rv == row_views(rows@),
                forall|a: int, b: int| 0 <= a < b < rows.len() && a < i ==> rv[a].0 != rv[b].0 && rv[a].1 != rv[b].1,
            decreases rows.len() - i,
        {
            let mut j: usize = i + 1;
            while j < rows.len()
                invariant
                    i < rows.len(),
                    i < j <= rows.len(),
                    rv == row_views(rows@),
                    forall|a: int, b: int| 0 <= a < b < rows.len() && a < i ==> rv[a].0 != rv[b].0 && rv[a].1 != rv[b].1,
                    forall|b: int| i < b < j ==> rv[i as int].0 != rv[b].0 && rv[i as int].1 != rv[b].1,
                decreases rows.len() - j,
            {
                if same_text(rows[i].0.as_str(), rows[j].0.as_str())
                    || same_text(rows[i].1.branch.as_str(), rows[j].1.branch.as_str()) {
                    assert(rv[i as int] == row_view(rows@[i as int]));
                    assert(rv[j as int] == row_view(rows@[j as int]));
                    assert(rv[i as int].0 == rv[j as int].0 || rv[i as int].1 == rv[j as int].1);
                    assert(!unique_rows(rv));
                    return None;
                }
                j = j + 1;
            }
            i = i + 1;
        }
        Some(Meta { rows, next, repo_root })
    }

    /// The stored rows, in registration order.
    pub fn rows(&self) -> (r: &Vec<(String, WorktreeInfo)>)
        ensures
            row_views(r@) == self.rows_view(),
    {
        &self.rows
    }

    /// The value the id counter holds.
    pub fn counter_value(&self) -> (r: u64)
        ensures
            r == self.counter(),
    {
        self.next
    }

    /// The repository root.
    pub fn repo_root(&self) -> (r: &String)
        ensures
            r@ == self.root(),
    {
        &self.repo_root
    }

    /// Generates the next worktree id: the counter in base 36, after which
    /// the counter moves on by one. A counter past 32 bits still moves on
    /// (the database's counter only stops at the largest 64-bit signed
    /// integer), but gives no id.
    pub fn next_id(&mut self) -> (r: Result<String, MetaError>)
        requires
            old(self).wf(),
        ensures
            final(self).wf(),
            final(self).rows_view() == old(self).rows_view(),
            final(self).root() == old(self).root(),
            final(self).counter() == counter_after_draw(old(self).counter()),
            drawn(old(self).counter(), r),
    {
        if self.next >= 0x7fff_ffff_ffff_ffff {
            return Err(MetaError::CounterOverflow);
        }
        let v = self.next;
        self.next = v + 1;
        if v > 0xffff_ffff {
            return Err(MetaError::IdsExhausted(v));
        }
        Ok(base36_encode(v as u32))
    }

    /// Index of the row with id `id`.
    fn index_of_id(&self, id: &str) -> (r: Option<usize>)
        ensures
            match r {
                Some(k) => k < self.rows_view().len() && self.rows_view()[k as int].0 == id@,
                None => !has_id(self.rows_view(), id@),
            },
    {
        let ghost rv = self.rows_view();
        let mut k: usize = 0;
        while k < self.rows.len()
            invariant
                k <= self.rows.len(),
                rv == row_views(self.rows@),
                forall|j: int| 0 <= j < k ==> rv[j].0 != id@,
            decreases self.rows.len() - k,
        {
            if same_text(self.rows[k].0.as_str(), id) {
                return Some(k);
            }
            k = k + 1;
        }
        None
    }

    /// Index of the row with branch `branch`.
    fn index_of_branch(&self, branch: &str) -> (r: Option<usize>)
        ensures
            match r {
                Some(k) => k < self.rows_view().len() && self.rows_view()[k as int].1 == branch@,
                None => !has_branch(self.rows_view(), branch@),
            },
    {
        let ghost rv = self.rows_view();
        let mut k: usize = 0;
        while k < self.rows.len()
            invariant
                k <= self.rows.len(),
                rv == row_views(self.rows@),
                forall|j: int| 0 <= j < k ==> rv[j].1 != branch@,
            decreases self.rows.len() - k,
        {
            if same_text(self.rows[k].1.branch.as_str(), branch) {
                return Some(k);
            }
            k = k + 1;
        }
        None
    }

    /// Adds a new worktree created at `created`, returning the id it was
    /// given. The id is taken from the counter first, so a refused addition
    /// still uses one up.
    pub fn add_worktree_at(&mut self, branch: &str, parent: Option<&str>, created: String) -> (r: Result<String, MetaError>)
        requires
            old(self).wf(),
        ensures
            final(self).wf(),
            final(self).root() == old(self).root(),
            final(self).counter() == counter_after_draw(old(self).counter()),
            old(self).counter() > u32::MAX ==> (drawn(old(self).counter(), r)
                && final(self).rows_view() == old(self).rows_view()),
            old(self).counter() <= u32::MAX && has_branch(old(self).rows_view(), branch@) ==> (
                r matches Err(MetaError::BranchTaken) && final(self).rows_view() == old(self).rows_view()),
            old(self).counter() <= u32::MAX && !has_branch(old(self).rows_view(), branch@)
                && has_id(old(self).rows_view(), base36(old(self).counter())) ==> (
                r matches Err(MetaError::IdTaken) && final(self).rows_view() == old(self).rows_view()),
            old(self).counter() <= u32::MAX && !has_branch(old(self).rows_view(), branch@)
                && !has_id(old(self).rows_view(), base36(old(self).counter())) ==> (
                r matches Ok(id) && id@ == base36(old(self).counter())
                && final(self).rows_view() == old(self).rows_view().push(
                    (id@, branch@, match parent { Some(p) => Some(p@), None => None }, created@),
                )),
    {
        let id = self.next_id()?;
        if self.index_of_branch(branch).is_some() {
            return Err(MetaError::BranchTaken);
        }
        if self.index_of_id(id.as_str()).is_some() {
            return Err(MetaError::IdTaken);
        }
        let p = match parent {
            Some(p) => Some(p.to_owned()),
            None => None,
        };
        let info = WorktreeInfo { branch: branch.to_owned(), parent: p, created };
        let ghost before = self.rows@;
        let ghost newrow = (id@, branch@, match parent { Some(p) => Some(p@), None => None }, created@);
        self.rows.push((id.clone(), info));
        proof {
            assert(row_views(self.rows@) =~= row_views(before).push(newrow));
            let rv = row_views(self.rows@);
            let n = before.len() as int;
            assert forall|i: int| 0 <= i < n implies rv[i].0 != rv[n].0 && rv[i].1 != rv[n].1 by {
                assert(rv[i] == row_views(before)[i]);
            }
        }
        Ok(id)
    }
}


/// The current time as an RFC 3339 timestamp: the system clock read as a
/// duration since 1970 (`SystemTime::now`, `duration_since(UNIX_EPOCH)`),
/// turned into a `chrono::DateTime<Utc>` by `DateTime::from_timestamp` and
/// written by `DateTime::to_rfc3339`. `None` when the clock reads before
/// 1970 or past what chrono represents. Nothing is stated of the text, which
/// depends on the clock. `to_rfc3339` writes into a `String` through helpers
/// that fail only on two-digit fields of 100 or more, which no `DateTime`
/// holds, so its `expect` is not reached.
#[verifier::external_body]
fn now_rfc3339() -> Option<String> {
    let since = std::time::SystemTime::now().duration_since(std::time::UNIX_EPOCH).ok()?;
    let secs = i64::try_from(since.as_secs()).ok()?;
    chrono::DateTime::from_timestamp(secs, since.subsec_nanos()).map(|t| t.to_rfc3339())
}

/// The row with id `id` (meaningful when there is one).
pub open spec fn row_with_id(rows: Seq<RowView>, id: Seq<char>) -> RowView {
    rows[choose|k: int| 0 <= k < rows.len() && rows[k].0 == id]
}

/// The row with branch `b` (meaningful when there is one).
pub open spec fn row_with_branch(rows: Seq<RowView>, b: Seq<char>) -> RowView {
    rows[choose|k: int| 0 <= k < rows.len() && rows[k].1 == b]
}

/// The view of worktree information.
pub open spec fn info_view(i: WorktreeInfo) -> (Seq<char>, Option<Seq<char>>, Seq<char>) {
    (i.branch@, opt_text(i.parent), i.created@)
}

/// The information part of a row.
pub open spec fn row_info(r: RowView) -> (Seq<char>, Option<Seq<char>>, Seq<char>) {
    (r.1, r.2, r.3)
}

/// The row at `k` is the one with its id (ids being unique).
proof fn lemma_row_with_id(rows: Seq<RowView>, k: int)
    requires
        unique_rows(rows),
        0 <= k < rows.len(),
    ensures
        row_with_id(rows, rows[k].0) == rows[k],
{
    let j = choose|j: int| 0 <= j < rows.len() && rows[j].0 == rows[k].0;
    if j != k {
        if j < k {
            assert(rows[j].0 != rows[k].0);
        } else {
            assert(rows[k].0 != rows[j].0);
        }
    }
}

/// The row at `k` is the one with its branch (branches being unique).
proof fn lemma_row_with_branch(rows: Seq<RowView>, k: int)
    requires
        unique_rows(rows),
        0 <= k < rows.len(),
    ensures
        row_with_branch(rows, rows[k].1) == rows[k],
{
    let j = choose|j: int| 0 <= j < rows.len() && rows[j].1 == rows[k].1;
    if j != k {
        if j < k {
            assert(rows[j].1 != rows[k].1);
        } else {
            assert(rows[k].1 != rows[j].1);
        }
    }
}

proof fn lemma_unique_remove(rows: Seq<RowView>, k: int)
    requires
        unique_rows(rows),
        0 <= k < rows.len(),
    ensures
        unique_rows(rows.remove(k)),
{
    let r = rows.remove(k);
    assert forall|i: int, j: int| 0 <= i < j < r.len() implies r[i].0 != r[j].0 && r[i].1 != r[j].1 by {
        let i2 = if i < k { i } else { i + 1 };
        let j2 = if j < k { j } else { j + 1 };
        assert(r[i] == rows[i2]);
        assert(r[j] == rows[j2]);
    }
}

/// What drawing an id and registering a worktree on `branch` with `parent`
/// did, from `before` to `after`, with outcome `r`: the id is drawn from the counter, which
/// moves on; a counter past 32 bits gives no id; a registered branch or id
/// refuses the addition; otherwise one row is appended (its creation time
/// is the one the row holds).
pub open spec fn drawn_and_added(
    before: Meta,
    after: Meta,
    branch: Seq<char>,
    parent: Option<Seq<char>>,
    r: Result<String, MetaError>,
) -> bool {
    let rows = before.rows_view();
    let c = before.counter();
    &&& after.root() == before.root()
    &&& after.counter() == counter_after_draw(c)
    &&& c > u32::MAX ==> (drawn(c, r) && after.rows_view() == rows)
    &&& c <= u32::MAX && has_branch(rows, branch) ==> (r matches Err(MetaError::BranchTaken)
        && after.rows_view() == rows)
    &&& c <= u32::MAX && !has_branch(rows, branch) && has_id(rows, base36(c)) ==> (r matches Err(
        MetaError::IdTaken,
    ) && after.rows_view() == rows)
    &&& c <= u32::MAX && !has_branch(rows, branch) && !has_id(rows, base36(c)) ==> (r matches Ok(id)
        && id@ == base36(c) && after.rows_view() == rows.push((id@, branch, parent, after.rows_view().last().3)))
}

/// What `add_worktree` did: either the clock could not be read and nothing
/// changed, or a row was drawn and added as `drawn_and_added` says.
pub open spec fn registered(
    before: Meta,
    after: Meta,
    branch: Seq<char>,
    parent: Option<Seq<char>>,
    r: Result<String, MetaError>,
) -> bool {
    ||| (r matches Err(MetaError::ClockUnavailable) && after == before)
    ||| drawn_and_added(before, after, branch, parent, r)
}

impl Meta {
    /// Adds a new worktree created now, returning the id it was given; refused
    /// with `ClockUnavailable`, changing nothing, when the clock cannot be read.
    pub fn add_worktree(&mut self, branch: &str, parent: Option<&str>) -> (r: Result<String, MetaError>)
        requires
            old(self).wf(),
        ensures
            final(self).wf(),
            registered(*old(self), *final(self), branch@, match parent {
                Some(p) => Some(p@),
                None => None,
            }, r),
    {
        let created = match now_rfc3339() {
            Some(t) => t,
            None => {
                return Err(MetaError::ClockUnavailable);
            },
        };
        self.add_worktree_at(branch, parent, created)
    }

    /// The information of worktree `id`.
    pub fn get_worktree(&self, id: &str) -> (r: Option<WorktreeInfo>)
        requires
            self.wf(),
        ensures
            match r {
                Some(info) => has_id(self.rows_view(), id@) && info_view(info) == row_info(
                    row_with_id(self.rows_view(), id@),
                ),
                None => !has_id(self.rows_view(), id@),
            },
    {
        match self.index_of_id(id) {
            Some(k) => {
                proof {
                    lemma_row_with_id(self.rows_view(), k as int);
                    assert(self.rows_view()[k as int] == row_view(self.rows@[k as int]));
                }
                Some(self.rows[k].1.duplicate())
            },
            None => None,
        }
    }

    /// The id of the worktree on branch `branch`.
    pub fn find_by_branch(&self, branch: &str) -> (r: Option<String>)
        requires
            self.wf(),
        ensures
            match r {
                Some(id) => has_branch(self.rows_view(), branch@) && id@ == row_with_branch(
                    self.rows_view(),
                    branch@,
                ).0,
                None => !has_branch(self.rows_view(), branch@),
            },
    {
        match self.index_of_branch(branch) {
            Some(k) => {
                proof {
                    lemma_row_with_branch(self.rows_view(), k as int);
                    assert(self.rows_view()[k as int] == row_view(self.rows@[k as int]));
                }
                Some(self.rows[k].0.clone())
            },
            None => None,
        }
    }

    /// The id of the worktree on branch `branch`, looking first among the
    /// children of `parent_id` (when given), then among all worktrees.
    pub fn find_by_branch_with_context(&self, branch: &str, parent_id: Option<&str>) -> (r: Option<String>)
        requires
            self.wf(),
        ensures
            match r {
                Some(id) => has_branch(self.rows_view(), branch@) && id@ == row_with_branch(
                    self.rows_view(),
                    branch@,
                ).0,
                None => !has_branch(self.rows_view(), branch@),
            },
    {
        if let Some(pid) = parent_id {
            let mut k: usize = 0;
            while k < self.rows.len()
                invariant
                    k <= self.rows.len(),
                    self.wf(),
                decreases self.rows.len() - k,
            {
                let row = &self.rows[k];
                let is_child = match &row.1.parent {
                    Some(p) => same_text(p.as_str(), pid),
                    None => false,
                };
                if is_child && same_text(row.1.branch.as_str(), branch) {
                    proof {
                        assert(self.rows_view()[k as int] == row_view(self.rows@[k as int]));
                        lemma_row_with_branch(self.rows_view(), k as int);
                    }
                    return Some(row.0.clone());
                }
                k = k + 1;
            }
        }
        self.find_by_branch(branch)
    }

    /// The parent id recorded for worktree `id` (`None` when the worktree is
    /// unknown or top level).
    pub fn parent_of(&self, id: &str) -> (r: Option<String>)
        requires
            self.wf(),
        ensures
            has_id(self.rows_view(), id@) ==> opt_text(r) == row_with_id(self.rows_view(), id@).2,
            !has_id(self.rows_view(), id@) ==> r is None,
    {
        match self.get_worktree(id) {
            Some(info) => info.parent,
            None => None,
        }
    }

    /// The directory of worktree `id`: `<repo>/.git/wt/<id>`.
    pub fn worktree_path(&self, id: &str) -> (r: String)
        ensures
            r@ == worktree_dir(self.root(), id@),
    {
        let dir = wt_dir(self.repo_root.as_str());
        join(dir.as_str(), id)
    }

    /// Removes worktree `id`, returning its information. Its children keep
    /// their parent reference and so become orphans.
    pub fn remove_worktree(&mut self, id: &str) -> (r: Option<WorktreeInfo>)
        requires
            old(self).wf(),
        ensures
            final(self).wf(),
            final(self).root() == old(self).root(),
            final(self).counter() == old(self).counter(),
            match r {
                Some(info) => has_id(old(self).rows_view(), id@) && info_view(info) == row_info(
                    row_with_id(old(self).rows_view(), id@),
                ) && exists|k: int|
                    0 <= k < old(self).rows_view().len() && old(self).rows_view()[k].0 == id@
                        && final(self).rows_view() == old(self).rows_view().remove(k),
                None => !has_id(old(self).rows_view(), id@) && final(self).rows_view() == old(
                    self,
                ).rows_view(),
            },
    {
        match self.index_of_id(id) {
            Some(k) => {
                let ghost before = self.rows@;
                proof {
                    lemma_row_with_id(self.rows_view(), k as int);
                    lemma_unique_remove(self.rows_view(), k as int);
                    assert(self.rows_view()[k as int] == row_view(self.rows@[k as int]));
                }
                let (_, info) = self.rows.remove(k);
                assert(row_views(self.rows@) =~= row_views(before).remove(k as int));
                Some(info)
            },
            None => None,
        }
    }

    /// Removes worktree `id` if it is registered.
    pub fn remove(&mut self, id: &str)
        requires
            old(self).wf(),
        ensures
            final(self).wf(),
            final(self).root() == old(self).root(),
            final(self).counter() == old(self).counter(),
            has_id(old(self).rows_view(), id@) ==> exists|k: int|
                0 <= k < old(self).rows_view().len() && old(self).rows_view()[k].0 == id@
                    && final(self).rows_view() == old(self).rows_view().remove(k),
            !has_id(old(self).rows_view(), id@) ==> final(self).rows_view() == old(self).rows_view(),
    {
        let _ = self.remove_worktree(id);
    }
}


/// Rows strictly ordered by branch.
pub open spec fn sorted_by_branch(v: Seq<RowView>) -> bool {
    forall|i: int, j: int| 0 <= i < j < v.len() ==> text_before(v[i].1, v[j].1)
}

/// Which rows a listing takes.
#[derive(Debug, PartialEq, Eq)]
pub enum Selection {
    /// Every worktree.
    All,
    /// Worktrees without a parent.
    TopLevel,
    /// Worktrees whose parent is the given id.
    ChildrenOf(String),
    /// Worktrees whose parent is set but no longer registered.
    Orphans,
}

/// Whether a listing of `rows` with selection `sel` takes row `r`.
pub open spec fn selects(rows: Seq<RowView>, sel: Selection, r: RowView) -> bool {
    match sel {
        Selection::All => true,
        Selection::TopLevel => r.2 is None,
        Selection::ChildrenOf(p) => r.2 == Some(p@),
        Selection::Orphans => is_orphan_row(rows, r),
    }
}

/// `r` names a parent that is not registered.
pub open spec fn is_orphan_row(rows: Seq<RowView>, r: RowView) -> bool {
    r.2 matches Some(p) && !has_id(rows, p)
}

/// A listing of `rows`: the rows that `pick` takes, each once, sorted by
/// branch.
pub open spec fn is_listing(rows: Seq<RowView>, pick: spec_fn(RowView) -> bool, out: Seq<RowView>) -> bool {
    &&& sorted_by_branch(out)
    &&& forall|x: RowView| out.contains(x) <==> (rows.contains(x) && pick(x))
}

/// The listing of the rows of `rows` that `pick` takes: the one sequence
/// that holds each of them once, sorted by branch.
pub open spec fn sorted_listing(rows: Seq<RowView>, pick: spec_fn(RowView) -> bool) -> Seq<RowView> {
    choose|out: Seq<RowView>| is_listing(rows, pick, out)
}

/// Rows whose parent is `pid`.
pub open spec fn child_pick(pid: Seq<char>) -> spec_fn(RowView) -> bool {
    |x: RowView| x.2 == Some(pid)
}

/// Rows without a parent.
pub open spec fn top_pick() -> spec_fn(RowView) -> bool {
    |x: RowView| x.2 is None
}

/// Every row.
pub open spec fn any_pick() -> spec_fn(RowView) -> bool {
    |x: RowView| true
}

/// Rows whose parent is set but not registered in `rows`.
pub open spec fn orphan_pick(rows: Seq<RowView>) -> spec_fn(RowView) -> bool {
    |x: RowView| is_orphan_row(rows, x)
}


/// In a sequence sorted by branch, the first row does not occur again.
proof fn lemma_sorted_rest(a: Seq<RowView>)
    requires
        sorted_by_branch(a),
        a.len() > 0,
    ensures
        sorted_by_branch(a.drop_first()),
        forall|x: RowView| a.drop_first().contains(x) <==> (a.contains(x) && x != a[0]),
{
    let r = a.drop_first();
    assert forall|i: int, j: int| 0 <= i < j < r.len() implies text_before(r[i].1, r[j].1) by {
        assert(r[i] == a[i + 1] && r[j] == a[j + 1]);
    }
    assert forall|x: RowView| r.contains(x) <==> (a.contains(x) && x != a[0]) by {
        if r.contains(x) {
            let k = choose|k: int| 0 <= k < r.len() && r[k] == x;
            assert(a[k + 1] == x);
            assert(text_before(a[0].1, a[k + 1].1));
            if x == a[0] {
                lemma_text_before_irreflexive(x.1);
            }
        }
        if a.contains(x) && x != a[0] {
            let k = choose|k: int| 0 <= k < a.len() && a[k] == x;
            assert(k != 0);
            assert(r[k - 1] == x);
        }
    }
}

/// Two sequences sorted by branch that hold the same rows are equal.
pub proof fn lemma_sorted_by_branch_unique(a: Seq<RowView>, b: Seq<RowView>)
    requires
        sorted_by_branch(a),
        sorted_by_branch(b),
        forall|x: RowView| a.contains(x) <==> b.contains(x),
    ensures
        a == b,
    decreases a.len(),
{
    if a.len() == 0 {
        if b.len() > 0 {
            assert(b.contains(b[0]));
        }
        assert(a =~= b);
    } else if b.len() == 0 {
        assert(a.contains(a[0]));
    } else {
        assert(a.contains(a[0]));
        assert(b.contains(b[0]));
        let j = choose|j: int| 0 <= j < b.len() && b[j] == a[0];
        let i = choose|i: int| 0 <= i < a.len() && a[i] == b[0];
        if i > 0 && j > 0 {
            assert(text_before(a[0].1, a[i].1));
            assert(text_before(b[0].1, b[j].1));
            lemma_text_before_asym(a[0].1, b[0].1);
        }
        assert(a[0] == b[0]);
        lemma_sorted_rest(a);
        lemma_sorted_rest(b);
        assert forall|x: RowView| a.drop_first().contains(x) <==> b.drop_first().contains(x) by {
            assert(a.contains(x) <==> b.contains(x));
        }
        lemma_sorted_by_branch_unique(a.drop_first(), b.drop_first());
        assert(a =~= seq![a[0]] + a.drop_first());
        assert(b =~= seq![b[0]] + b.drop_first());
    }
}

/// A listing is the listing.
pub proof fn lemma_listing_is_sorted_listing(rows: Seq<RowView>, pick: spec_fn(RowView) -> bool, out: Seq<RowView>)
    requires
        is_listing(rows, pick, out),
    ensures
        out == sorted_listing(rows, pick),
{
    let c = sorted_listing(rows, pick);
    assert(is_listing(rows, pick, c));
    lemma_sorted_by_branch_unique(out, c);
}

proof fn lemma_insert_sorted(out: Seq<RowView>, x: RowView, p: int)
    requires
        sorted_by_branch(out),
        0 <= p <= out.len(),
        forall|i: int| 0 <= i < p ==> text_before(out[i].1, x.1),
        p < out.len() ==> text_before(x.1, out[p].1),
    ensures
        sorted_by_branch(out.insert(p, x)),
        forall|y: RowView| out.insert(p, x).contains(y) <==> (out.contains(y) || y == x),
{
    let r = out.insert(p, x);
    assert forall|i: int, j: int| 0 <= i < j < r.len() implies text_before(r[i].1, r[j].1) by {
        if j < p {
            assert(r[i] == out[i] && r[j] == out[j]);
        } else if j == p {
            assert(r[i] == out[i]);
        } else if i < p {
            assert(r[i] == out[i] && r[j] == out[j - 1]);
            if j - 1 > p {
                lemma_text_before_trans(x.1, out[p].1, out[j - 1].1);
            }
            lemma_text_before_trans(out[i].1, x.1, out[j - 1].1);
        } else if i == p {
            assert(r[j] == out[j - 1]);
            if j - 1 > p {
                lemma_text_before_trans(x.1, out[p].1, out[j - 1].1);
            }
        } else {
            assert(r[i] == out[i - 1] && r[j] == out[j - 1]);
        }
    }
    assert forall|y: RowView| r.contains(y) <==> (out.contains(y) || y == x) by {
        if r.contains(y) {
            let k = choose|k: int| 0 <= k < r.len() && r[k] == y;
            if k < p {
                assert(out[k] == y);
            } else if k > p {
                assert(out[k - 1] == y);
            }
        }
        if out.contains(y) {
            let k = choose|k: int| 0 <= k < out.len() && out[k] == y;
            if k < p {
                assert(r[k] == y);
            } else {
                assert(r[k + 1] == y);
            }
        }
        if y == x {
            assert(r[p] == y);
        }
    }
}

/// The rows of an orphan listing, without their depths.
pub open spec fn orphan_views(v: Seq<(String, WorktreeInfo, usize)>) -> Seq<RowView> {
    v.map_values(|t: (String, WorktreeInfo, usize)| row_view((t.0, t.1)))
}

impl Meta {
    fn selected(&self, sel: &Selection, k: usize) -> (b: bool)
        requires
            self.wf(),
            k < self.rows_view().len(),
        ensures
            b == selects(self.rows_view(), *sel, self.rows_view()[k as int]),
    {
        assert(self.rows_view()[k as int] == row_view(self.rows@[k as int]));
        let row = &self.rows[k];
        match sel {
            Selection::All => true,
            Selection::TopLevel => row.1.parent.is_none(),
            Selection::ChildrenOf(p) => match &row.1.parent {
                Some(q) => same_text(q.as_str(), p.as_str()),
                None => false,
            },
            Selection::Orphans => match &row.1.parent {
                Some(q) => self.index_of_id(q.as_str()).is_none(),
                None => false,
            },
        }
    }

    /// The selected worktrees, sorted by branch name.
    #[verifier::spinoff_prover]
    pub fn listing(&self, sel: &Selection) -> (r: Vec<(String, WorktreeInfo)>)
        requires
            self.wf(),
        ensures
            is_listing(self.rows_view(), |x: RowView| selects(self.rows_view(), *sel, x), row_views(r@)),
    {
        let ghost rows = self.rows_view();
        let mut out: Vec<(String, WorktreeInfo)> = Vec::new();
        let mut k: usize = 0;
        assert(row_views(out@) =~= Seq::<RowView>::empty());
        while k < self.rows.len()
            invariant
                k <= self.rows.len(),
                self.wf(),
                rows == self.rows_view(),
                sorted_by_branch(row_views(out@)),
                forall|x: RowView|
                    #![trigger row_views(out@).contains(x)]
                    #![trigger rows.take(k as int).contains(x)]
                    row_views(out@).contains(x) <==> (rows.take(k as int).contains(x)
                    && selects(rows, *sel, x)),
            decreases self.rows.len() - k,
        {
            let ghost x = rows[k as int];
            assert(rows.take(k + 1) =~= rows.take(k as int).push(x));
            let ghost t1 = rows.take(k + 1);
            let ghost t0 = rows.take(k as int);
            assert forall|y: RowView| t1.contains(y) <==> (t0.contains(y) || y == x) by {
                if t1.contains(y) {
                    let j = choose|j: int| 0 <= j < t1.len() && t1[j] == y;
                    if j < k {
                        assert(t0[j] == y);
                    }
                }
                if t0.contains(y) {
                    let j = choose|j: int| 0 <= j < t0.len() && t0[j] == y;
                    assert(t1[j] == y);
                }
                if y == x {
                    assert(t1[k as int] == y);
                }
            }
            if self.selected(sel, k) {
                assert forall|y: RowView| row_views(out@).contains(y) implies t0.contains(y) by {
                    assert(rows.take(k as int).contains(y));
                }
                let branch = chars_of(self.rows[k].1.branch.as_str());
                assert(x == row_view(self.rows@[k as int]));
                let mut p: usize = 0;
                while p < out.len() && !text_less(&branch, &chars_of(out[p].1.branch.as_str()))
                    invariant
                        p <= out.len(),
                        branch@ == x.1,
                        sorted_by_branch(row_views(out@)),
                        forall|i: int| 0 <= i < p ==> text_before(row_views(out@)[i].1, x.1),
                        t0 == rows.take(k as int),
                        forall|y: RowView| row_views(out@).contains(y) ==> t0.contains(y),
                        forall|i: int, j: int| 0 <= i < j < rows.len() ==> rows[i].1 != rows[j].1,
                        k < rows.len(),
                        x == rows[k as int],
                    decreases out.len() - p,
                {
                    let ghost y = row_views(out@)[p as int];
                    assert(row_views(out@).contains(y));
                    assert(t0.contains(y));
                    let ghost j = choose|j: int| 0 <= j < t0.len() && t0[j] == y;
                    assert(rows[j] == y);
                    assert(y.1 != x.1);
                    proof {
                        lemma_text_before_total(x.1, y.1);
                    }
                    p = p + 1;
                }
                proof {
                    if p < out.len() {
                        assert(text_before(x.1, row_views(out@)[p as int].1));
                    }
                    lemma_insert_sorted(row_views(out@), x, p as int);
                }
                let ghost before = out@;
                let entry = (self.rows[k].0.clone(), self.rows[k].1.duplicate());
                assert(row_view(entry) == x);
                out.insert(p, entry);
                assert(row_views(out@) =~= row_views(before).insert(p as int, x));
                assert forall|y: RowView| row_views(out@).contains(y) <==> (t1.contains(y)
                    && selects(rows, *sel, y)) by {
                    assert(row_views(before).contains(y) <==> (t0.contains(y) && selects(rows, *sel, y)));
                }
            } else {
                assert forall|y: RowView| row_views(out@).contains(y) <==> (t1.contains(y)
                    && selects(rows, *sel, y)) by {
                    assert(row_views(out@).contains(y) <==> (t0.contains(y) && selects(rows, *sel, y)));
                }
            }
            k = k + 1;
        }
        assert(rows.take(k as int) =~= rows);
        out
    }

    /// Children of a worktree, sorted by branch name.
    pub fn children(&self, parent_id: &str) -> (r: Vec<(String, WorktreeInfo)>)
        requires
            self.wf(),
        ensures
            is_listing(self.rows_view(), child_pick(parent_id@), row_views(r@)),
            row_views(r@) == sorted_listing(self.rows_view(), child_pick(parent_id@)),
    {
        let sel = Selection::ChildrenOf(parent_id.to_owned());
        let r = self.listing(&sel);
        assert forall|x: RowView| row_views(r@).contains(x) <==> (self.rows_view().contains(x) && child_pick(parent_id@)(x)) by {
            assert(selects(self.rows_view(), sel, x) == (x.2 == Some(parent_id@)));
        }
        proof {
            lemma_listing_is_sorted_listing(self.rows_view(), child_pick(parent_id@), row_views(r@));
        }
        r
    }

    /// Top-level worktrees (no parent), sorted by branch name.
    pub fn top_level(&self) -> (r: Vec<(String, WorktreeInfo)>)
        requires
            self.wf(),
        ensures
            is_listing(self.rows_view(), top_pick(), row_views(r@)),
            row_views(r@) == sorted_listing(self.rows_view(), top_pick()),
    {
        let sel = Selection::TopLevel;
        let r = self.listing(&sel);
        assert forall|x: RowView| row_views(r@).contains(x) <==> (self.rows_view().contains(x) && top_pick()(x)) by {
            assert(selects(self.rows_view(), sel, x) == (x.2 is None));
        }
        proof {
            lemma_listing_is_sorted_listing(self.rows_view(), top_pick(), row_views(r@));
        }
        r
    }

    /// All worktrees, sorted by branch name.
    pub fn all(&self) -> (r: Vec<(String, WorktreeInfo)>)
        requires
            self.wf(),
        ensures
            is_listing(self.rows_view(), any_pick(), row_views(r@)),
            row_views(r@) == sorted_listing(self.rows_view(), any_pick()),
    {
        let sel = Selection::All;
        let r = self.listing(&sel);
        assert forall|x: RowView| row_views(r@).contains(x) <==> (self.rows_view().contains(x) && any_pick()(x)) by {
            assert(selects(self.rows_view(), sel, x));
        }
        proof {
            lemma_listing_is_sorted_listing(self.rows_view(), any_pick(), row_views(r@));
        }
        r
    }

    /// Orphaned worktrees (parent id set but the parent is no longer
    /// registered), sorted by branch name, each with its depth: how many of
    /// its ancestors are missing, which is always taken to be 1.
    pub fn orphans(&self) -> (r: Vec<(String, WorktreeInfo, usize)>)
        requires
            self.wf(),
        ensures
            is_listing(self.rows_view(), orphan_pick(self.rows_view()), orphan_views(r@)),
            orphan_views(r@) == sorted_listing(self.rows_view(), orphan_pick(self.rows_view())),
            forall|i: int| 0 <= i < r@.len() ==> r@[i].2 == 1,
    {
        let sel = Selection::Orphans;
        let rows = self.listing(&sel);
        let ghost lv = row_views(rows@);
        let mut out: Vec<(String, WorktreeInfo, usize)> = Vec::new();
        let mut i: usize = 0;
        while i < rows.len()
            invariant
                i <= rows.len(),
                lv == row_views(rows@),
                out@.map_values(|t: (String, WorktreeInfo, usize)| row_view((t.0, t.1))) == lv.take(i as int),
                forall|j: int| 0 <= j < out@.len() ==> out@[j].2 == 1,
            decreases rows.len() - i,
        {
            let ghost before = out@;
            let entry = (rows[i].0.clone(), rows[i].1.duplicate(), 1usize);
            let ghost ev = row_view((entry.0, entry.1));
            assert(ev == lv[i as int]);
            out.push(entry);
            assert(out@ == before.push(out@.last()));
            assert(row_view((out@.last().0, out@.last().1)) == ev);
            assert(lv.take(i + 1) =~= lv.take(i as int).push(ev));
            assert(out@.map_values(|t: (String, WorktreeInfo, usize)| row_view((t.0, t.1))) =~= lv.take(i + 1));
            i = i + 1;
        }
        assert(lv.take(i as int) =~= lv);
        assert forall|x: RowView| lv.contains(x) <==> (self.rows_view().contains(x) && orphan_pick(self.rows_view())(x)) by {
            assert(selects(self.rows_view(), sel, x) == is_orphan_row(self.rows_view(), x));
        }
        assert(orphan_views(out@) == lv);
        proof {
            lemma_listing_is_sorted_listing(self.rows_view(), orphan_pick(self.rows_view()), lv);
        }
        out
    }
}


/// What a sync changed: the worktrees taken over from git and the stale
/// entries dropped (id and branch).
#[derive(Debug, PartialEq, Eq)]
pub struct SyncReport {
    pub imported: Vec<(String, WorktreeInfo)>,
    pub removed: Vec<(String, String)>,
}

/// The views of a list of string pairs.
pub open spec fn pair_views(v: Seq<(String, String)>) -> Seq<(Seq<char>, Seq<char>)> {
    v.map_values(|p: (String, String)| (p.0@, p.1@))
}

/// Registry contents during a sync: rows, counter, rows imported so far.
pub type SyncState = (Seq<RowView>, nat, Seq<RowView>);

/// The id and branch a listed worktree would be imported under: it must lie
/// in the store directory, have a final path component (its id) and be on a
/// branch.
pub open spec fn sync_candidate(store: Seq<char>, w: WorktreeView) -> Option<(Seq<char>, Seq<char>)> {
    if seq_prefix(components(store), components(w.0)) {
        match (final_name(w.0), w.1) {
            (Some(id), Some(b)) => Some((id, b)),
            _ => None,
        }
    } else {
        None
    }
}

/// The id a listed worktree would be imported under (meaningful when it is
/// a candidate).
pub open spec fn candidate_id(store: Seq<char>, w: WorktreeView) -> Seq<char> {
    match sync_candidate(store, w) {
        Some((id, _)) => id,
        None => Seq::empty(),
    }
}

/// The counter after an import of `id`: raised past the id's number when
/// the id reads as one.
pub open spec fn counter_after_import(counter: nat, id: Seq<char>) -> nat {
    match parse_base36(id) {
        Some(n) => if counter > n { counter } else { (n + 1) as nat },
        None => counter,
    }
}

/// One listed worktree considered for import. An id already registered is
/// skipped; a branch already registered makes the insertion a no-op, though
/// the worktree is still reported and the counter still moves.
pub open spec fn import_step(st: SyncState, store: Seq<char>, w: WorktreeView, created: Seq<char>) -> SyncState {
    match sync_candidate(store, w) {
        Some((id, b)) => if has_id(st.0, id) {
            st
        } else {
            let row: RowView = (id, b, None, created);
            (
                if has_branch(st.0, b) { st.0 } else { st.0.push(row) },
                counter_after_import(st.1, id),
                st.2.push(row),
            )
        },
        None => st,
    }
}

/// The state after considering each listed worktree in turn.
pub open spec fn imports(st: SyncState, store: Seq<char>, ws: Seq<WorktreeView>, created: Seq<char>) -> SyncState
    decreases ws.len(),
{
    if ws.len() == 0 {
        st
    } else {
        import_step(imports(st, store, ws.drop_last(), created), store, ws.last(), created)
    }
}

/// A row survives a sync when git lists its directory or the directory is on
/// disk.
pub open spec fn survives_sync(root: Seq<char>, ws: Seq<WorktreeView>, on_disk: Seq<Seq<char>>, r: RowView) -> bool {
    (exists|k: int| 0 <= k < ws.len() && components(#[trigger] ws[k].0) == components(worktree_dir(root, r.0)))
        || on_disk.contains(r.0)
}

/// Id and branch of a row.
pub open spec fn id_and_branch(r: RowView) -> (Seq<char>, Seq<char>) {
    (r.0, r.1)
}

/// What a sync from `before` to `after` did, given what git lists (`ws`),
/// the ids whose directories are on disk and the creation time given to
/// imported worktrees: the imports of `imports`, then the registered
/// worktrees that do not survive dropped, in registration order.
pub open spec fn synced(
    before: Meta,
    after: Meta,
    ws: Seq<WorktreeView>,
    on_disk: Seq<Seq<char>>,
    created: Seq<char>,
    r: SyncReport,
) -> bool {
    let st = imports((before.rows_view(), before.counter(), Seq::<RowView>::empty()), store_dir(before.root()), ws, created);
    let keep = |x: RowView| survives_sync(before.root(), ws, on_disk, x);
    &&& after.root() == before.root()
    &&& after.counter() == st.1
    &&& row_views(r.imported@) == st.2
    &&& after.rows_view() == st.0.filter(keep)
    &&& pair_views(r.removed@) == st.0.filter(|x: RowView| !keep(x)).map_values(|x: RowView| id_and_branch(x))
}

/// Some listed worktree is a candidate for import whose id is not
/// registered: a sync has something to import.
pub open spec fn needs_import(rows: Seq<RowView>, store: Seq<char>, ws: Seq<WorktreeView>) -> bool {
    exists|k: int|
        0 <= k < ws.len() && (#[trigger] sync_candidate(store, ws[k])) is Some && !has_id(rows, candidate_id(store, ws[k]))
}

/// With nothing to import, the imports change nothing, whatever creation
/// time they would have stamped.
proof fn lemma_nothing_to_import(start: SyncState, store: Seq<char>, ws: Seq<WorktreeView>, created: Seq<char>)
    requires
        !needs_import(start.0, store, ws),
    ensures
        imports(start, store, ws, created) == start,
    decreases ws.len(),
{
    if ws.len() > 0 {
        let init = ws.drop_last();
        assert forall|k: int| 0 <= k < init.len() implies !((#[trigger] sync_candidate(store, init[k])) is Some
            && !has_id(start.0, candidate_id(store, init[k]))) by {
            assert(init[k] == ws[k]);
        }
        lemma_nothing_to_import(start, store, init, created);
        let w = ws.last();
        assert(ws[ws.len() - 1] == w);
        assert(sync_candidate(store, w) is Some ==> has_id(start.0, candidate_id(store, w)));
    }
}

impl Meta {
    fn register_import(&mut self, id: &String, branch: &String, created: &String)
        requires
            old(self).wf(),
            !has_id(old(self).rows_view(), id@),
        ensures
            final(self).wf(),
            final(self).root() == old(self).root(),
            final(self).rows_view() == (if has_branch(old(self).rows_view(), branch@) {
                old(self).rows_view()
            } else {
                old(self).rows_view().push((id@, branch@, None, created@))
            }),
            final(self).counter() == counter_after_import(old(self).counter(), id@),
    {
        if self.index_of_branch(branch.as_str()).is_none() {
            let info = WorktreeInfo { branch: branch.clone(), parent: None, created: created.clone() };
            let ghost before = self.rows@;
            let ghost newrow: RowView = (id@, branch@, None, created@);
            self.rows.push((id.clone(), info));
            proof {
                assert(row_views(self.rows@) =~= row_views(before).push(newrow));
                let rv = row_views(self.rows@);
                let n = before.len() as int;
                assert forall|i: int| 0 <= i < n implies rv[i].0 != rv[n].0 && rv[i].1 != rv[n].1 by {
                    assert(rv[i] == row_views(before)[i]);
                }
            }
        }
        let idc = chars_of(id.as_str());
        match base36_decode(&idc) {
            Some(n) => {
                if self.next <= n as u64 {
                    self.next = n as u64 + 1;
                }
            },
            None => {},
        }
    }

    /// Whether git lists the directory of worktree `id`.
    fn listed_in_git(&self, git_worktrees: &Vec<GitWorktree>, id: &str) -> (r: bool)
        ensures
            r == exists|k: int| 0 <= k < git_worktrees@.len()
                && components(#[trigger] worktree_views(git_worktrees@)[k].0) == components(worktree_dir(self.root(), id@)),
    {
        let ours = self.worktree_path(id);
        let ghost ws = worktree_views(git_worktrees@);
        let mut k: usize = 0;
        while k < git_worktrees.len()
            invariant
                k <= git_worktrees.len(),
                ws == worktree_views(git_worktrees@),
                ours@ == worktree_dir(self.root(), id@),
                forall|j: int| 0 <= j < k ==> components(#[trigger] ws[j].0) != components(ours@),
            decreases git_worktrees.len() - k,
        {
            assert(ws[k as int].0 == git_worktrees@[k as int].path@);
            if same_path(git_worktrees[k].path.as_str(), ours.as_str()) {
                return true;
            }
            k = k + 1;
        }
        false
    }

    /// Whether some listed worktree is a candidate for import whose id is
    /// not registered.
    fn has_new_candidate(&self, git_worktrees: &Vec<GitWorktree>) -> (r: bool)
        requires
            self.wf(),
        ensures
            r == needs_import(self.rows_view(), store_dir(self.root()), worktree_views(git_worktrees@)),
    {
        let store = wt_dir(self.repo_root.as_str());
        let ghost ws = worktree_views(git_worktrees@);
        let ghost sd = store_dir(self.root());
        let mut i: usize = 0;
        while i < git_worktrees.len()
            invariant
                i <= git_worktrees.len(),
                ws == worktree_views(git_worktrees@),
                store@ == sd,
                sd == store_dir(self.root()),
                self.wf(),
                forall|k: int| 0 <= k < i ==> !((#[trigger] sync_candidate(sd, ws[k])) is Some && !has_id(
                    self.rows_view(),
                    candidate_id(sd, ws[k]),
                )),
            decreases git_worktrees.len() - i,
        {
            let w = &git_worktrees[i];
            assert(ws[i as int] == worktree_view(*w));
            if path_starts_with(w.path.as_str(), store.as_str()) {
                match (file_name(w.path.as_str()), &w.branch) {
                    (Some(id), Some(_)) => {
                        if self.index_of_id(id.as_str()).is_none() {
                            assert(sync_candidate(sd, ws[i as int]) is Some);
                            return true;
                        }
                    },
                    _ => {},
                }
            }
            i = i + 1;
        }
        false
    }

    /// Brings the registry in line with what git lists, taking `created` as
    /// the creation time of imported worktrees.
    ///
    /// First every listed worktree inside the store directory that is on a
    /// branch and not yet registered is imported, as a top-level worktree
    /// under the name of its directory; the counter is raised past any such
    /// name that reads as a base-36 number. Then every registered worktree
    /// whose directory git does not list and that is not among `on_disk`
    /// (the ids whose directories exist) is dropped.
    #[verifier::spinoff_prover]
    pub fn sync_at(&mut self, git_worktrees: &Vec<GitWorktree>, on_disk: &Vec<String>, created: String) -> (r: SyncReport)
        requires
            old(self).wf(),
        ensures
            final(self).wf(),
            synced(*old(self), *final(self), worktree_views(git_worktrees@), texts(on_disk@), created@, r),
    {
        broadcast use Seq::lemma_filter_push;
        let store = wt_dir(self.repo_root.as_str());
        let ghost ws = worktree_views(git_worktrees@);
        let ghost start: SyncState = (self.rows_view(), self.counter(), Seq::<RowView>::empty());
        let ghost root = self.root();
        let mut imported: Vec<(String, WorktreeInfo)> = Vec::new();
        let mut i: usize = 0;
        assert(ws.take(0) =~= Seq::<WorktreeView>::empty());
        assert(row_views(imported@) =~= Seq::<RowView>::empty());
        while i < git_worktrees.len()
            invariant
                i <= git_worktrees.len(),
                ws == worktree_views(git_worktrees@),
                store@ == store_dir(root),
                self.wf(),
                self.root() == root,
                imports(start, store@, ws.take(i as int), created@) == (self.rows_view(), self.counter(), row_views(imported@)),
            decreases git_worktrees.len() - i,
        {
            let w = &git_worktrees[i];
            let ghost wv = ws[i as int];
            assert(wv == worktree_view(*w));
            assert(ws.take(i + 1).drop_last() =~= ws.take(i as int));
            assert(ws.take(i + 1).last() == wv);
            if path_starts_with(w.path.as_str(), store.as_str()) {
                match (file_name(w.path.as_str()), &w.branch) {
                    (Some(id), Some(b)) => {
                        if self.index_of_id(id.as_str()).is_none() {
                            let ghost before = row_views(imported@);
                            self.register_import(&id, b, &created);
                            let info = WorktreeInfo { branch: b.clone(), parent: None, created: created.clone() };
                            imported.push((id, info));
                            assert(row_views(imported@) =~= before.push((id@, b@, None, created@)));
                        }
                    },
                    _ => {},
                }
            }
            i = i + 1;
        }
        assert(ws.take(i as int) =~= ws);
        let ghost st = imports(start, store@, ws, created@);
        let ghost keep = |x: RowView| survives_sync(root, ws, texts(on_disk@), x);
        let ghost gone = |x: RowView| !survives_sync(root, ws, texts(on_disk@), x);
        let ghost all = self.rows_view();
        let mut kept: Vec<(String, WorktreeInfo)> = Vec::new();
        let mut removed: Vec<(String, String)> = Vec::new();
        let mut k: usize = 0;
        assert(all.take(0) =~= Seq::<RowView>::empty());
        assert(row_views(kept@) =~= Seq::<RowView>::empty());
        assert(pair_views(removed@) =~= Seq::<(Seq<char>, Seq<char>)>::empty());
        while k < self.rows.len()
            invariant
                k <= self.rows.len(),
                all == self.rows_view(),
                unique_rows(all),
                self.root() == root,
                ws == worktree_views(git_worktrees@),
                row_views(kept@) == all.take(k as int).filter(keep),
                pair_views(removed@) == all.take(k as int).filter(gone).map_values(|x: RowView| id_and_branch(x)),
                forall|x: RowView| row_views(kept@).contains(x) ==> all.take(k as int).contains(x),
                unique_rows(row_views(kept@)),
                forall|y: RowView| #[trigger] keep(y) == survives_sync(root, ws, texts(on_disk@), y),
                forall|y: RowView| #[trigger] gone(y) == !survives_sync(root, ws, texts(on_disk@), y),
            decreases self.rows.len() - k,
        {
            let ghost x = all[k as int];
            assert(x == row_view(self.rows@[k as int]));
            assert(all.take(k + 1) =~= all.take(k as int).push(x));
            let id = &self.rows[k].0;
            let on_disk_here = contains_text(on_disk, id.as_str());
            let in_git = self.listed_in_git(git_worktrees, id.as_str());
            proof {
                assert(id@ == x.0);
                if in_git {
                    let j = choose|j: int| 0 <= j < git_worktrees@.len()
                        && components(#[trigger] worktree_views(git_worktrees@)[j].0) == components(worktree_dir(root, id@));
                    assert(0 <= j < ws.len() && components(ws[j].0) == components(worktree_dir(root, x.0)));
                } else {
                    assert forall|j: int| 0 <= j < ws.len() implies components(#[trigger] ws[j].0) != components(worktree_dir(root, x.0)) by {
                        assert(ws[j] == worktree_views(git_worktrees@)[j]);
                    }
                }
                assert(keep(x) == survives_sync(root, ws, texts(on_disk@), x));
            }
            assert(keep(x) == (in_git || on_disk_here));
            let ghost kb = row_views(kept@);
            let ghost rb = pair_views(removed@);
            proof {
                all.take(k as int).lemma_filter_push(x, keep);
                all.take(k as int).lemma_filter_push(x, gone);
            }
            if in_git || on_disk_here {
                kept.push((id.clone(), self.rows[k].1.duplicate()));
                assert(row_views(kept@) =~= kb.push(x));
                proof {
                    let n = kb.len() as int;
                    let kv = row_views(kept@);
                    assert forall|a: int| 0 <= a < n implies kv[a].0 != kv[n].0 && kv[a].1 != kv[n].1 by {
                        assert(kv[a] == kb[a]);
                        assert(kb.contains(kb[a]));
                        let j = choose|j: int| 0 <= j < all.take(k as int).len() && all.take(k as int)[j] == kb[a];
                        assert(all[j] == kb[a]);
                    }
                    assert forall|y: RowView| kv.contains(y) implies all.take(k + 1).contains(y) by {
                        let j = choose|j: int| 0 <= j < kv.len() && kv[j] == y;
                        if j < n {
                            assert(kb[j] == y);
                            assert(kb.contains(y));
                            let j2 = choose|j2: int| 0 <= j2 < all.take(k as int).len() && all.take(k as int)[j2] == y;
                            assert(all.take(k + 1)[j2] == y);
                        } else {
                            assert(all.take(k + 1)[k as int] == y);
                        }
                    }
                }
            } else {
                removed.push((id.clone(), self.rows[k].1.branch.clone()));
                assert(pair_views(removed@) =~= rb.push(id_and_branch(x)));
                assert(all.take(k as int).filter(gone).push(x).map_values(|x: RowView| id_and_branch(x))
                    =~= all.take(k as int).filter(gone).map_values(|x: RowView| id_and_branch(x)).push(id_and_branch(x)));
                assert forall|y: RowView| kb.contains(y) implies all.take(k + 1).contains(y) by {
                    let j2 = choose|j2: int| 0 <= j2 < all.take(k as int).len() && all.take(k as int)[j2] == y;
                    assert(all.take(k + 1)[j2] == y);
                }
            }
            k = k + 1;
        }
        assert(all.take(k as int) =~= all);
        proof {
            let keep2 = |x: RowView| survives_sync(old(self).root(), worktree_views(git_worktrees@), texts(on_disk@), x);
            assert(keep =~= keep2);
            assert(gone =~= (|x: RowView| !keep2(x)));
        }
        self.rows = kept;
        SyncReport { imported, removed }
    }

    /// Brings the registry in line with what git lists; imported worktrees
    /// are stamped with the current time. The clock is read only when there
    /// is something to import, so a sync that only drops stale worktrees
    /// always succeeds.
    pub fn sync(&mut self, git_worktrees: &Vec<GitWorktree>, on_disk: &Vec<String>) -> (r: Result<SyncReport, MetaError>)
        requires
            old(self).wf(),
        ensures
            final(self).wf(),
            r is Ok ==> exists|created: Seq<char>|
                synced(*old(self), *final(self), worktree_views(git_worktrees@), texts(on_disk@), created, r->Ok_0),
            r is Err ==> r->Err_0 is ClockUnavailable && *final(self) == *old(self),
            !needs_import(old(self).rows_view(), store_dir(old(self).root()), worktree_views(git_worktrees@)) ==> (r is Ok
                && forall|c: Seq<char>|
                #[trigger] synced(*old(self), *final(self), worktree_views(git_worktrees@), texts(on_disk@), c, r->Ok_0)),
    {
        if !self.has_new_candidate(git_worktrees) {
            let ghost before = *self;
            let ghost ws = worktree_views(git_worktrees@);
            let ghost start: SyncState = (before.rows_view(), before.counter(), Seq::<RowView>::empty());
            let ghost store = store_dir(before.root());
            let report = self.sync_at(git_worktrees, on_disk, String::new());
            let r: Result<SyncReport, MetaError> = Ok(report);
            proof {
                lemma_nothing_to_import(start, store, ws, Seq::<char>::empty());
                assert forall|c: Seq<char>|
                    #[trigger] synced(before, *self, ws, texts(on_disk@), c, r->Ok_0) by {
                    lemma_nothing_to_import(start, store, ws, c);
                }
                assert(synced(before, *self, ws, texts(on_disk@), Seq::<char>::empty(), r->Ok_0));
            }
            return r;
        }
        let created = match now_rfc3339() {
            Some(t) => t,
            None => {
                return Err(MetaError::ClockUnavailable);
            },
        };
        let report = self.sync_at(git_worktrees, on_disk, created);
        let r: Result<SyncReport, MetaError> = Ok(report);
        assert(synced(*old(self), *self, worktree_views(git_worktrees@), texts(on_disk@), created@, r->Ok_0));
        r
    }
}

/// Whether `v` holds the text `s`.
pub fn contains_text(v: &Vec<String>, s: &str) -> (r: bool)
    ensures
        r == texts(v@).contains(s@),
{
    let mut k: usize = 0;
    while k < v.len()
        invariant
            k <= v.len(),
            forall|j: int| 0 <= j < k ==> v@[j]@ != s@,
        decreases v.len() - k,
    {
        if same_text(v[k].as_str(), s) {
            assert(texts(v@)[k as int] == s@);
            return true;
        }
        k = k + 1;
    }
    assert forall|j: int| 0 <= j < texts(v@).len() implies texts(v@)[j] != s@ by {
        assert(texts(v@)[j] == v@[j]@);
    }
    false
}

/// Once a worktree is registered, looking up its branch finds its id, and
/// looking up its id gives back its branch and parent.
pub proof fn lemma_add_then_find(
    before: Meta,
    after: Meta,
    branch: Seq<char>,
    parent: Option<Seq<char>>,
    id: String,
)
    requires
        after.wf(),
        registered(before, after, branch, parent, Ok(id)),
    ensures
        has_branch(after.rows_view(), branch),
        row_with_branch(after.rows_view(), branch).0 == id@,
        has_id(after.rows_view(), id@),
        row_info(row_with_id(after.rows_view(), id@)) == (branch, parent, after.rows_view().last().3),
{
    let rows = before.rows_view();
    let n = rows.len() as int;
    let a = after.rows_view();
    assert(a == rows.push((id@, branch, parent, a.last().3)));
    assert(a[n].0 == id@ && a[n].1 == branch);
    lemma_row_with_branch(a, n);
    lemma_row_with_id(a, n);
}

/// Once worktree `id` is removed (the row at `k` taken out), it can no
/// longer be found, and every other row is still there.
pub proof fn lemma_remove_then_gone(before: Meta, after: Meta, id: Seq<char>, k: int)
    requires
        before.wf(),
        0 <= k < before.rows_view().len(),
        before.rows_view()[k].0 == id,
        after.rows_view() == before.rows_view().remove(k),
    ensures
        !has_id(after.rows_view(), id),
        forall|x: RowView| before.rows_view().contains(x) && x.0 != id ==> after.rows_view().contains(x),
{
    let rows = before.rows_view();
    let a = after.rows_view();
    if has_id(a, id) {
        let j = choose|j: int| 0 <= j < a.len() && a[j].0 == id;
        if j < k {
            assert(a[j] == rows[j]);
        } else {
            assert(a[j] == rows[j + 1]);
        }
    }
    assert forall|x: RowView| rows.contains(x) && x.0 != id implies a.contains(x) by {
        let j = choose|j: int| 0 <= j < rows.len() && rows[j] == x;
        if j < k {
            assert(a[j] == x);
        } else {
            assert(j != k);
            assert(a[j - 1] == x);
        }
    }
}

/// Removing a worktree leaves its children registered, each still naming
/// it as parent, which makes them orphans (a row naming itself as parent
/// goes with the removal).
pub proof fn lemma_remove_orphans_children(before: Meta, after: Meta, id: Seq<char>, k: int)
    requires
        before.wf(),
        0 <= k < before.rows_view().len(),
        before.rows_view()[k].0 == id,
        after.rows_view() == before.rows_view().remove(k),
    ensures
        forall|x: RowView|
            before.rows_view().contains(x) && x.2 == Some(id) && x.0 != id ==> after.rows_view().contains(x)
                && is_orphan_row(after.rows_view(), x),
{
    lemma_remove_then_gone(before, after, id, k);
}

/// Unregistering a worktree just registered gives back the rows as they
/// were (the counter stays moved on).
pub proof fn lemma_rollback_restores(
    before: Meta,
    mid: Meta,
    after: Meta,
    branch: Seq<char>,
    parent: Option<Seq<char>>,
    id: String,
    k: int,
)
    requires
        mid.wf(),
        registered(before, mid, branch, parent, Ok(id)),
        0 <= k < mid.rows_view().len(),
        mid.rows_view()[k].0 == id@,
        after.rows_view() == mid.rows_view().remove(k),
    ensures
        after.rows_view() == before.rows_view(),
{
    let rows = before.rows_view();
    let n = rows.len() as int;
    let m = mid.rows_view();
    assert(m == rows.push((id@, branch, parent, m.last().3)));
    if k != n {
        assert(m[k].0 != m[n].0);
    }
    assert(m.remove(n) =~= rows);
}

/// Where `x` goes in the rows `out`, sorted by branch, that do not hold its
/// branch: after every row sorting before it.
proof fn lemma_insert_position(out: Seq<RowView>, x: RowView) -> (p: int)
    requires
        sorted_by_branch(out),
        forall|i: int| 0 <= i < out.len() ==> out[i].1 != x.1,
    ensures
        0 <= p <= out.len(),
        forall|i: int| 0 <= i < p ==> text_before(out[i].1, x.1),
        p < out.len() ==> text_before(x.1, out[p].1),
    decreases out.len(),
{
    if out.len() == 0 {
        0
    } else {
        let d = out.drop_last();
        assert forall|i: int, j: int| 0 <= i < j < d.len() implies text_before(d[i].1, d[j].1) by {
            assert(d[i] == out[i] && d[j] == out[j]);
        }
        let q = lemma_insert_position(d, x);
        let last = (out.len() - 1) as int;
        assert forall|i: int| 0 <= i < q implies text_before(out[i].1, x.1) by {
            assert(d[i] == out[i]);
        }
        if q < d.len() {
            assert(d[q] == out[q]);
        }
        if q < d.len() {
            q
        } else if text_before(out[last].1, x.1) {
            out.len() as int
        } else {
            lemma_text_before_total(out[last].1, x.1);
            last
        }
    }
}

/// Every selection of distinct-branch rows has a listing.
pub proof fn lemma_listing_exists(rows: Seq<RowView>, pick: spec_fn(RowView) -> bool)
    requires
        unique_rows(rows),
    ensures
        exists|out: Seq<RowView>| is_listing(rows, pick, out),
        is_listing(rows, pick, sorted_listing(rows, pick)),
    decreases rows.len(),
{
    if rows.len() == 0 {
        assert(is_listing(rows, pick, Seq::<RowView>::empty()));
    } else {
        let d = rows.drop_last();
        let x = rows.last();
        assert(unique_rows(d)) by {
            assert forall|i: int, j: int| 0 <= i < j < d.len() implies d[i].0 != d[j].0 && d[i].1 != d[j].1 by {
                assert(d[i] == rows[i] && d[j] == rows[j]);
            }
        }
        lemma_listing_exists(d, pick);
        let o = sorted_listing(d, pick);
        assert forall|y: RowView| rows.contains(y) <==> (d.contains(y) || y == x) by {
            if rows.contains(y) {
                let k = choose|k: int| 0 <= k < rows.len() && rows[k] == y;
                if k < d.len() {
                    assert(d[k] == y);
                }
            }
            if d.contains(y) {
                let k = choose|k: int| 0 <= k < d.len() && d[k] == y;
                assert(rows[k] == y);
            }
            if y == x {
                assert(rows[rows.len() - 1] == y);
            }
        }
        if pick(x) {
            assert forall|i: int| 0 <= i < o.len() implies o[i].1 != x.1 by {
                assert(o.contains(o[i]));
                let k = choose|k: int| 0 <= k < d.len() && d[k] == o[i];
                assert(rows[k] == o[i]);
                assert(rows[k].1 != rows[rows.len() - 1].1);
            }
            let p = lemma_insert_position(o, x);
            lemma_insert_sorted(o, x, p);
            assert(is_listing(rows, pick, o.insert(p, x)));
        } else {
            assert(is_listing(rows, pick, o));
        }
    }
}

/// After a sync, every registered worktree is one that git lists or whose
/// directory is on disk.
pub proof fn lemma_sync_leaves_only_live_worktrees(
    before: Meta,
    after: Meta,
    ws: Seq<WorktreeView>,
    on_disk: Seq<Seq<char>>,
    created: Seq<char>,
    r: SyncReport,
)
    requires
        synced(before, after, ws, on_disk, created, r),
    ensures
        forall|i: int| 0 <= i < after.rows_view().len() ==> survives_sync(before.root(), ws, on_disk, #[trigger] after.rows_view()[i]),
{
    let st = imports((before.rows_view(), before.counter(), Seq::<RowView>::empty()), store_dir(before.root()), ws, created);
    let keep = |x: RowView| survives_sync(before.root(), ws, on_disk, x);
    assert forall|i: int| 0 <= i < after.rows_view().len() implies survives_sync(before.root(), ws, on_disk, #[trigger] after.rows_view()[i]) by {
        st.0.lemma_filter_pred(keep, i);
    }
}

proof fn lemma_push_contains(s: Seq<RowView>, row: RowView, x: RowView)
    ensures
        s.push(row).contains(x) <==> (s.contains(x) || x == row),
{
    if s.contains(x) {
        let i = choose|i: int| 0 <= i < s.len() && s[i] == x;
        assert(s.push(row)[i] == x);
    }
    if x == row {
        assert(s.push(row)[s.len() as int] == x);
    }
    if s.push(row).contains(x) {
        let i = choose|i: int| 0 <= i < s.push(row).len() && s.push(row)[i] == x;
        if i < s.len() {
            assert(s[i] == x);
        }
    }
}

/// What the imports of a sync did, starting from `start` with nothing
/// reported yet.
proof fn lemma_imports(start: SyncState, store: Seq<char>, ws: Seq<WorktreeView>, created: Seq<char>)
    requires
        start.2.len() == 0,
    ensures
        ({
            let st = imports(start, store, ws, created);
            &&& forall|x: RowView| start.0.contains(x) ==> #[trigger] st.0.contains(x)
            &&& forall|x: RowView| #[trigger] st.0.contains(x) ==> start.0.contains(x) || st.2.contains(x)
            &&& st.1 >= start.1
            &&& forall|j: int| 0 <= j < st.2.len() ==> (parse_base36((#[trigger] st.2[j]).0) matches Some(n) ==> st.1 > n)
            &&& forall|j: int| 0 <= j < st.2.len() ==> (#[trigger] st.2[j]).2 is None && st.2[j].3 == created
                && exists|k: int| 0 <= k < ws.len() && sync_candidate(store, ws[k]) == Some((st.2[j].0, st.2[j].1))
            &&& forall|j: int| 0 <= j < st.2.len() && !has_branch(start.0, (#[trigger] st.2[j]).1) && (forall|j2: int|
                0 <= j2 < j ==> st.2[j2].1 != st.2[j].1) ==> st.0.contains(st.2[j])
            &&& forall|k: int| 0 <= k < ws.len() && (#[trigger] sync_candidate(store, ws[k])) is Some ==> has_id(
                start.0,
                candidate_id(store, ws[k]),
            ) || exists|j: int| 0 <= j < st.2.len() && st.2[j].0 == candidate_id(store, ws[k])
        }),
    decreases ws.len(),
{
    if ws.len() == 0 {
        return;
    }
    let init = ws.drop_last();
    lemma_imports(start, store, init, created);
    let prev = imports(start, store, init, created);
    let w = ws.last();
    let st = imports(start, store, ws, created);
    assert(st == import_step(prev, store, w, created));
    assert forall|k: int| 0 <= k < init.len() implies ws[k] == #[trigger] init[k] by {}
    match sync_candidate(store, w) {
        Some((id, b)) => {
            if has_id(prev.0, id) {
                assert(st == prev);
                let i = choose|i: int| 0 <= i < prev.0.len() && prev.0[i].0 == id;
                assert(prev.0.contains(prev.0[i]));
                assert forall|k: int| 0 <= k < ws.len() && (#[trigger] sync_candidate(store, ws[k])) is Some implies has_id(
                    start.0,
                    candidate_id(store, ws[k]),
                ) || exists|j: int| 0 <= j < st.2.len() && st.2[j].0 == candidate_id(store, ws[k]) by {
                    if k < init.len() {
                        assert(init[k] == ws[k]);
                    } else {
                        if start.0.contains(prev.0[i]) {
                            let i0 = choose|i0: int| 0 <= i0 < start.0.len() && start.0[i0] == prev.0[i];
                            assert(start.0[i0].0 == id);
                        } else {
                            let j = choose|j: int| 0 <= j < prev.2.len() && prev.2[j] == prev.0[i];
                            assert(st.2[j].0 == id);
                        }
                    }
                }
                assert forall|j: int| 0 <= j < st.2.len() implies (#[trigger] st.2[j]).2 is None && st.2[j].3 == created
                    && exists|k: int| 0 <= k < ws.len() && sync_candidate(store, ws[k]) == Some((st.2[j].0, st.2[j].1)) by {
                    let k = choose|k: int| 0 <= k < init.len() && sync_candidate(store, init[k]) == Some((prev.2[j].0, prev.2[j].1));
                    assert(ws[k] == init[k]);
                }
            } else {
                let row: RowView = (id, b, None, created);
                let rows1 = if has_branch(prev.0, b) { prev.0 } else { prev.0.push(row) };
                assert(st.0 == rows1);
                assert(st.2 == prev.2.push(row));
                assert forall|x: RowView| prev.0.contains(x) implies #[trigger] st.0.contains(x) by {
                    lemma_push_contains(prev.0, row, x);
                }
                assert forall|x: RowView| start.0.contains(x) implies #[trigger] st.0.contains(x) by {
                    assert(prev.0.contains(x));
                    lemma_push_contains(prev.0, row, x);
                }
                assert forall|x: RowView| #[trigger] st.0.contains(x) implies start.0.contains(x) || st.2.contains(x) by {
                    lemma_push_contains(prev.0, row, x);
                    lemma_push_contains(prev.2, row, x);
                }
                assert forall|j: int| 0 <= j < st.2.len() implies (parse_base36((#[trigger] st.2[j]).0) matches Some(n) ==> st.1 > n) by {
                    if j < prev.2.len() {
                        assert(st.2[j] == prev.2[j]);
                    }
                }
                assert forall|j: int| 0 <= j < st.2.len() implies (#[trigger] st.2[j]).2 is None && st.2[j].3 == created
                    && exists|k: int| 0 <= k < ws.len() && sync_candidate(store, ws[k]) == Some((st.2[j].0, st.2[j].1)) by {
                    if j < prev.2.len() {
                        assert(st.2[j] == prev.2[j]);
                        let k = choose|k: int| 0 <= k < init.len() && sync_candidate(store, init[k]) == Some((prev.2[j].0, prev.2[j].1));
                        assert(ws[k] == init[k]);
                    } else {
                        assert(ws[ws.len() - 1] == w);
                    }
                }
                assert forall|j: int| 0 <= j < st.2.len() && !has_branch(start.0, (#[trigger] st.2[j]).1) && (forall|j2: int|
                    0 <= j2 < j ==> st.2[j2].1 != st.2[j].1) implies st.0.contains(st.2[j]) by {
                    if j < prev.2.len() {
                        assert(st.2[j] == prev.2[j]);
                        assert forall|j2: int| 0 <= j2 < j implies prev.2[j2].1 != prev.2[j].1 by {
                            assert(st.2[j2] == prev.2[j2]);
                        }
                        assert(prev.0.contains(prev.2[j]));
                    } else {
                        if has_branch(prev.0, b) {
                            let i = choose|i: int| 0 <= i < prev.0.len() && prev.0[i].1 == b;
                            assert(prev.0.contains(prev.0[i]));
                            if start.0.contains(prev.0[i]) {
                                let i0 = choose|i0: int| 0 <= i0 < start.0.len() && start.0[i0] == prev.0[i];
                                assert(start.0[i0].1 == b);
                            } else {
                                let j2 = choose|j2: int| 0 <= j2 < prev.2.len() && prev.2[j2] == prev.0[i];
                                assert(st.2[j2] == prev.2[j2]);
                                assert(st.2[j2].1 == st.2[j].1);
                            }
                        } else {
                            lemma_push_contains(prev.0, row, row);
                        }
                    }
                }
                assert forall|k: int| 0 <= k < ws.len() && (#[trigger] sync_candidate(store, ws[k])) is Some implies has_id(
                    start.0,
                    candidate_id(store, ws[k]),
                ) || exists|j: int| 0 <= j < st.2.len() && st.2[j].0 == candidate_id(store, ws[k]) by {
                    if k < init.len() {
                        assert(init[k] == ws[k]);
                        if !has_id(start.0, candidate_id(store, ws[k])) {
                            let j = choose|j: int| 0 <= j < prev.2.len() && prev.2[j].0 == candidate_id(store, init[k]);
                            assert(st.2[j] == prev.2[j]);
                        }
                    } else {
                        assert(st.2[prev.2.len() as int] == row);
                    }
                }
            }
        },
        None => {
            assert(st == prev);
            assert forall|j: int| 0 <= j < st.2.len() implies (#[trigger] st.2[j]).2 is None && st.2[j].3 == created
                && exists|k: int| 0 <= k < ws.len() && sync_candidate(store, ws[k]) == Some((st.2[j].0, st.2[j].1)) by {
                let k = choose|k: int| 0 <= k < init.len() && sync_candidate(store, init[k]) == Some((prev.2[j].0, prev.2[j].1));
                assert(ws[k] == init[k]);
            }
            assert forall|k: int| 0 <= k < ws.len() && (#[trigger] sync_candidate(store, ws[k])) is Some implies has_id(
                start.0,
                candidate_id(store, ws[k]),
            ) || exists|j: int| 0 <= j < st.2.len() && st.2[j].0 == candidate_id(store, ws[k]) by {
                if k < init.len() {
                    assert(init[k] == ws[k]);
                } else {
                    assert(ws[k] == w);
                }
            }
        },
    }
}

/// What a sync keeps and imports. A worktree registered before is kept
/// exactly when git lists its directory or the directory is on disk.
/// Every listed worktree that is a candidate for import (inside the store
/// directory, on a branch) was registered before under its id or is
/// reported as imported. An imported worktree is registered as a top-level
/// one on its branch, created at `created`, when its branch was not
/// registered before nor taken by an earlier import and it is not dropped
/// in turn; and the counter ends past every imported id that reads as a
/// base-36 number, so no later id repeats it.
pub proof fn lemma_sync_keeps_and_imports(
    before: Meta,
    after: Meta,
    ws: Seq<WorktreeView>,
    on_disk: Seq<Seq<char>>,
    created: Seq<char>,
    r: SyncReport,
)
    requires
        synced(before, after, ws, on_disk, created, r),
    ensures
        forall|x: RowView| #[trigger] before.rows_view().contains(x) ==> (after.rows_view().contains(x)
            <==> survives_sync(before.root(), ws, on_disk, x)),
        forall|k: int| 0 <= k < ws.len() && (#[trigger] sync_candidate(store_dir(before.root()), ws[k])) is Some
            ==> has_id(before.rows_view(), candidate_id(store_dir(before.root()), ws[k])) || exists|j: int|
            0 <= j < r.imported@.len() && r.imported@[j].0@ == candidate_id(store_dir(before.root()), ws[k]),
        forall|j: int| 0 <= j < r.imported@.len() ==> (#[trigger] row_views(r.imported@)[j]).2 is None
            && row_views(r.imported@)[j].3 == created,
        forall|j: int| 0 <= j < r.imported@.len() && !has_branch(before.rows_view(), (#[trigger] row_views(r.imported@)[j]).1)
            && (forall|j2: int| 0 <= j2 < j ==> row_views(r.imported@)[j2].1 != row_views(r.imported@)[j].1)
            && survives_sync(before.root(), ws, on_disk, row_views(r.imported@)[j])
            ==> after.rows_view().contains(row_views(r.imported@)[j]),
        forall|j: int| 0 <= j < r.imported@.len() ==> (parse_base36((#[trigger] row_views(r.imported@)[j]).0) matches Some(n)
            ==> after.counter() > n),
{
    let start: SyncState = (before.rows_view(), before.counter(), Seq::<RowView>::empty());
    let store = store_dir(before.root());
    lemma_imports(start, store, ws, created);
    let st = imports(start, store, ws, created);
    let keep = |x: RowView| survives_sync(before.root(), ws, on_disk, x);
    assert(after.rows_view() == st.0.filter(keep));
    assert forall|x: RowView| st.0.contains(x) implies (st.0.filter(keep).contains(x) <==> keep(x)) by {
        if keep(x) {
            let i = choose|i: int| 0 <= i < st.0.len() && st.0[i] == x;
            st.0.lemma_filter_contains(keep, i);
        }
        if st.0.filter(keep).contains(x) {
            let i = choose|i: int| 0 <= i < st.0.filter(keep).len() && st.0.filter(keep)[i] == x;
            st.0.lemma_filter_pred(keep, i);
        }
    }
    assert forall|x: RowView| #[trigger] before.rows_view().contains(x) implies (after.rows_view().contains(x)
        <==> survives_sync(before.root(), ws, on_disk, x)) by {
        assert(st.0.contains(x));
    }
    assert forall|k: int| 0 <= k < ws.len() && (#[trigger] sync_candidate(store_dir(before.root()), ws[k])) is Some
        implies has_id(before.rows_view(), candidate_id(store_dir(before.root()), ws[k])) || exists|j: int|
        0 <= j < r.imported@.len() && r.imported@[j].0@ == candidate_id(store_dir(before.root()), ws[k]) by {
        if !has_id(before.rows_view(), candidate_id(store, ws[k])) {
            let j = choose|j: int| 0 <= j < st.2.len() && st.2[j].0 == candidate_id(store, ws[k]);
            assert(row_views(r.imported@)[j] == st.2[j]);
        }
    }
    assert forall|j: int| 0 <= j < r.imported@.len() && !has_branch(before.rows_view(), (#[trigger] row_views(r.imported@)[j]).1)
        && (forall|j2: int| 0 <= j2 < j ==> row_views(r.imported@)[j2].1 != row_views(r.imported@)[j].1)
        && survives_sync(before.root(), ws, on_disk, row_views(r.imported@)[j])
        implies after.rows_view().contains(row_views(r.imported@)[j]) by {
        assert(st.2[j] == row_views(r.imported@)[j]);
        assert forall|j2: int| 0 <= j2 < j implies st.2[j2].1 != st.2[j].1 by {
            assert(st.2[j2] == row_views(r.imported@)[j2]);
        }
        assert(st.0.contains(st.2[j]));
    }
}

/// The branch a listed worktree would be imported on (meaningful when it is
/// a candidate).
pub open spec fn candidate_branch(store: Seq<char>, w: WorktreeView) -> Seq<char> {
    match sync_candidate(store, w) {
        Some((_, b)) => b,
        None => Seq::empty(),
    }
}

/// The listed worktree `w`, after `earlier`, is a fresh candidate: a
/// candidate whose id was registered neither before nor by an earlier
/// candidate.
pub open spec fn fresh_candidate(rows: Seq<RowView>, store: Seq<char>, earlier: Seq<WorktreeView>, w: WorktreeView) -> bool {
    &&& sync_candidate(store, w) is Some
    &&& !has_id(rows, candidate_id(store, w))
    &&& !exists|k: int| 0 <= k < earlier.len() && (#[trigger] sync_candidate(store, earlier[k])) is Some
        && candidate_id(store, earlier[k]) == candidate_id(store, w)
}

/// How many of the listed worktrees are fresh candidates.
pub open spec fn fresh_candidates(rows: Seq<RowView>, store: Seq<char>, ws: Seq<WorktreeView>) -> nat
    decreases ws.len(),
{
    if ws.len() == 0 {
        0
    } else {
        fresh_candidates(rows, store, ws.drop_last()) + if fresh_candidate(rows, store, ws.drop_last(), ws.last()) {
            1nat
        } else {
            0nat
        }
    }
}

/// No candidate's branch is registered already, and candidates with
/// different ids are on different branches.
pub open spec fn branches_free(rows: Seq<RowView>, store: Seq<char>, ws: Seq<WorktreeView>) -> bool {
    &&& forall|k: int| 0 <= k < ws.len() && (#[trigger] sync_candidate(store, ws[k])) is Some ==> !has_branch(
        rows,
        candidate_branch(store, ws[k]),
    )
    &&& forall|k1: int, k2: int|
        0 <= k1 < ws.len() && 0 <= k2 < ws.len() && (#[trigger] sync_candidate(store, ws[k1])) is Some
            && (#[trigger] sync_candidate(store, ws[k2])) is Some && candidate_id(store, ws[k1]) != candidate_id(
            store,
            ws[k2],
        ) ==> candidate_branch(store, ws[k1]) != candidate_branch(store, ws[k2])
}

proof fn lemma_imports_all_fresh(start: SyncState, store: Seq<char>, ws: Seq<WorktreeView>, created: Seq<char>)
    requires
        start.2.len() == 0,
        branches_free(start.0, store, ws),
    ensures
        ({
            let st = imports(start, store, ws, created);
            &&& st.0 == start.0 + st.2
            &&& st.2.len() == fresh_candidates(start.0, store, ws)
            &&& forall|x: Seq<char>| has_id(st.2, x) <==> exists|k: int| 0 <= k < ws.len()
                && (#[trigger] sync_candidate(store, ws[k])) is Some && candidate_id(store, ws[k]) == x && !has_id(start.0, x)
            &&& forall|j: int| 0 <= j < st.2.len() ==> exists|k: int| 0 <= k < ws.len()
                && #[trigger] sync_candidate(store, ws[k]) == Some(((#[trigger] st.2[j]).0, st.2[j].1))
        }),
    decreases ws.len(),
{
    let st = imports(start, store, ws, created);
    if ws.len() == 0 {
        assert(start.0 + start.2 =~= start.0);
        return;
    }
    let init = ws.drop_last();
    let w = ws.last();
    assert forall|k: int| 0 <= k < init.len() implies ws[k] == #[trigger] init[k] by {}
    assert(ws[ws.len() - 1] == w);
    assert(branches_free(start.0, store, init)) by {
        assert forall|k: int| 0 <= k < init.len() && (#[trigger] sync_candidate(store, init[k])) is Some implies !has_branch(
            start.0,
            candidate_branch(store, init[k]),
        ) by {
            assert(init[k] == ws[k]);
        }
        assert forall|k1: int, k2: int|
            0 <= k1 < init.len() && 0 <= k2 < init.len() && (#[trigger] sync_candidate(store, init[k1])) is Some
                && (#[trigger] sync_candidate(store, init[k2])) is Some && candidate_id(store, init[k1]) != candidate_id(
                store,
                init[k2],
            ) implies candidate_branch(store, init[k1]) != candidate_branch(store, init[k2]) by {
            assert(init[k1] == ws[k1] && init[k2] == ws[k2]);
        }
    }
    lemma_imports_all_fresh(start, store, init, created);
    let prev = imports(start, store, init, created);
    assert(st == import_step(prev, store, w, created));
    match sync_candidate(store, w) {
        None => {
            assert(st == prev);
            assert(!fresh_candidate(start.0, store, init, w));
            assert forall|x: Seq<char>| has_id(st.2, x) <==> exists|k: int| 0 <= k < ws.len()
                && (#[trigger] sync_candidate(store, ws[k])) is Some && candidate_id(store, ws[k]) == x && !has_id(start.0, x) by {
                if exists|k: int| 0 <= k < ws.len() && (#[trigger] sync_candidate(store, ws[k])) is Some
                    && candidate_id(store, ws[k]) == x && !has_id(start.0, x) {
                    let k = choose|k: int| 0 <= k < ws.len() && (#[trigger] sync_candidate(store, ws[k])) is Some
                        && candidate_id(store, ws[k]) == x && !has_id(start.0, x);
                    assert(k < init.len());
                    assert(init[k] == ws[k]);
                }
            }
            assert forall|j: int| 0 <= j < st.2.len() implies exists|k: int| 0 <= k < ws.len()
                && #[trigger] sync_candidate(store, ws[k]) == Some(((#[trigger] st.2[j]).0, st.2[j].1)) by {
                let k = choose|k: int| 0 <= k < init.len() && #[trigger] sync_candidate(store, init[k]) == Some((prev.2[j].0, prev.2[j].1));
                assert(init[k] == ws[k]);
            }
        },
        Some((id, b)) => {
            assert(candidate_id(store, w) == id && candidate_branch(store, w) == b);
            if has_id(prev.0, id) {
                assert(st == prev);
                let i = choose|i: int| 0 <= i < prev.0.len() && prev.0[i].0 == id;
                if i >= start.0.len() {
                    assert(prev.0[i] == prev.2[i - start.0.len()]);
                    assert(has_id(prev.2, id));
                } else {
                    assert(prev.0[i] == start.0[i]);
                }
                assert(!fresh_candidate(start.0, store, init, w)) by {
                    if !has_id(start.0, id) {
                        let k = choose|k: int| 0 <= k < init.len() && (#[trigger] sync_candidate(store, init[k])) is Some
                            && candidate_id(store, init[k]) == id && !has_id(start.0, id);
                        assert(sync_candidate(store, init[k]) is Some && candidate_id(store, init[k]) == candidate_id(store, w));
                    }
                }
                assert forall|x: Seq<char>| has_id(st.2, x) <==> exists|k: int| 0 <= k < ws.len()
                    && (#[trigger] sync_candidate(store, ws[k])) is Some && candidate_id(store, ws[k]) == x && !has_id(start.0, x) by {
                    if exists|k: int| 0 <= k < ws.len() && (#[trigger] sync_candidate(store, ws[k])) is Some
                        && candidate_id(store, ws[k]) == x && !has_id(start.0, x) {
                        let k = choose|k: int| 0 <= k < ws.len() && (#[trigger] sync_candidate(store, ws[k])) is Some
                            && candidate_id(store, ws[k]) == x && !has_id(start.0, x);
                        if k < init.len() {
                            assert(init[k] == ws[k]);
                        } else {
                            assert(x == id);
                        }
                    }
                    if has_id(st.2, x) {
                        let k = choose|k: int| 0 <= k < init.len() && (#[trigger] sync_candidate(store, init[k])) is Some
                            && candidate_id(store, init[k]) == x && !has_id(start.0, x);
                        assert(init[k] == ws[k]);
                    }
                }
                assert forall|j: int| 0 <= j < st.2.len() implies exists|k: int| 0 <= k < ws.len()
                    && #[trigger] sync_candidate(store, ws[k]) == Some(((#[trigger] st.2[j]).0, st.2[j].1)) by {
                    let k = choose|k: int| 0 <= k < init.len() && #[trigger] sync_candidate(store, init[k]) == Some((prev.2[j].0, prev.2[j].1));
                    assert(init[k] == ws[k]);
                }
            } else {
                let row: RowView = (id, b, None, created);
                assert(!has_id(start.0, id)) by {
                    if has_id(start.0, id) {
                        let i = choose|i: int| 0 <= i < start.0.len() && start.0[i].0 == id;
                        assert(prev.0[i] == start.0[i]);
                    }
                }
                assert(!has_id(prev.2, id)) by {
                    if has_id(prev.2, id) {
                        let i = choose|i: int| 0 <= i < prev.2.len() && prev.2[i].0 == id;
                        assert(prev.0[start.0.len() + i] == prev.2[i]);
                    }
                }
                assert(fresh_candidate(start.0, store, init, w)) by {
                    if exists|k: int| 0 <= k < init.len() && (#[trigger] sync_candidate(store, init[k])) is Some
                        && candidate_id(store, init[k]) == candidate_id(store, w) {
                        let k = choose|k: int| 0 <= k < init.len() && (#[trigger] sync_candidate(store, init[k])) is Some
                            && candidate_id(store, init[k]) == candidate_id(store, w);
                        assert(init[k] == ws[k]);
                    }
                }
                assert(!has_branch(prev.0, b)) by {
                    if has_branch(prev.0, b) {
                        let i = choose|i: int| 0 <= i < prev.0.len() && prev.0[i].1 == b;
                        if i < start.0.len() {
                            assert(prev.0[i] == start.0[i]);
                            assert(has_branch(start.0, b));
                            assert(sync_candidate(store, ws[ws.len() - 1]) is Some);
                        } else {
                            let j = i - start.0.len();
                            assert(prev.0[i] == prev.2[j]);
                            let k = choose|k: int| 0 <= k < init.len() && #[trigger] sync_candidate(store, init[k]) == Some((prev.2[j].0, prev.2[j].1));
                            assert(init[k] == ws[k]);
                            assert(prev.2[j].0 != id) by {
                                assert(has_id(prev.2, prev.2[j].0));
                            }
                            assert(candidate_id(store, ws[k]) != candidate_id(store, ws[ws.len() - 1]));
                            assert(candidate_branch(store, ws[k]) != candidate_branch(store, ws[ws.len() - 1]));
                        }
                    }
                }
                assert(st.0 == prev.0.push(row));
                assert(st.2 == prev.2.push(row));
                assert(st.0 =~= start.0 + st.2);
                assert forall|x: Seq<char>| has_id(st.2, x) <==> exists|k: int| 0 <= k < ws.len()
                    && (#[trigger] sync_candidate(store, ws[k])) is Some && candidate_id(store, ws[k]) == x && !has_id(start.0, x) by {
                    if has_id(st.2, x) {
                        let i = choose|i: int| 0 <= i < st.2.len() && st.2[i].0 == x;
                        if i < prev.2.len() {
                            assert(st.2[i] == prev.2[i]);
                            assert(has_id(prev.2, x));
                            let k = choose|k: int| 0 <= k < init.len() && (#[trigger] sync_candidate(store, init[k])) is Some
                                && candidate_id(store, init[k]) == x && !has_id(start.0, x);
                            assert(init[k] == ws[k]);
                        } else {
                            assert(x == id);
                            assert(sync_candidate(store, ws[ws.len() - 1]) is Some);
                        }
                    }
                    if exists|k: int| 0 <= k < ws.len() && (#[trigger] sync_candidate(store, ws[k])) is Some
                        && candidate_id(store, ws[k]) == x && !has_id(start.0, x) {
                        let k = choose|k: int| 0 <= k < ws.len() && (#[trigger] sync_candidate(store, ws[k])) is Some
                            && candidate_id(store, ws[k]) == x && !has_id(start.0, x);
                        if k < init.len() {
                            assert(init[k] == ws[k]);
                            assert(has_id(prev.2, x));
                            let i = choose|i: int| 0 <= i < prev.2.len() && prev.2[i].0 == x;
                            assert(st.2[i] == prev.2[i]);
                        } else {
                            assert(x == id);
                            assert(st.2[prev.2.len() as int] == row);
                        }
                    }
                }
                assert forall|j: int| 0 <= j < st.2.len() implies exists|k: int| 0 <= k < ws.len()
                    && #[trigger] sync_candidate(store, ws[k]) == Some(((#[trigger] st.2[j]).0, st.2[j].1)) by {
                    if j < prev.2.len() {
                        assert(st.2[j] == prev.2[j]);
                        let k = choose|k: int| 0 <= k < init.len() && #[trigger] sync_candidate(store, init[k]) == Some((prev.2[j].0, prev.2[j].1));
                        assert(init[k] == ws[k]);
                    } else {
                        assert(st.2[j] == row);
                        assert(sync_candidate(store, ws[ws.len() - 1]) == Some((id, b)));
                    }
                }
            }
        },
    }
}

/// How many worktrees a sync imports. When no candidate's branch is
/// registered already and candidates with different ids are on different
/// branches, a sync imports exactly the fresh candidates: one per listed
/// worktree inside the store directory, on a branch, whose id was
/// registered neither before nor by an earlier listed worktree. It reports
/// an id as imported exactly when a candidate has that id and it was not
/// registered before, and every imported worktree that survives the sync
/// stays registered.
pub proof fn lemma_sync_import_count(
    before: Meta,
    after: Meta,
    ws: Seq<WorktreeView>,
    on_disk: Seq<Seq<char>>,
    created: Seq<char>,
    r: SyncReport,
)
    requires
        synced(before, after, ws, on_disk, created, r),
        branches_free(before.rows_view(), store_dir(before.root()), ws),
    ensures
        r.imported@.len() == fresh_candidates(before.rows_view(), store_dir(before.root()), ws),
        forall|x: Seq<char>| has_id(row_views(r.imported@), x) <==> exists|k: int| 0 <= k < ws.len()
            && (#[trigger] sync_candidate(store_dir(before.root()), ws[k])) is Some && candidate_id(store_dir(before.root()), ws[k]) == x
            && !has_id(before.rows_view(), x),
        forall|j: int| 0 <= j < r.imported@.len() && survives_sync(before.root(), ws, on_disk, #[trigger] row_views(r.imported@)[j])
            ==> after.rows_view().contains(row_views(r.imported@)[j]),
{
    let start: SyncState = (before.rows_view(), before.counter(), Seq::<RowView>::empty());
    let store = store_dir(before.root());
    lemma_imports_all_fresh(start, store, ws, created);
    let st = imports(start, store, ws, created);
    let keep = |x: RowView| survives_sync(before.root(), ws, on_disk, x);
    assert(row_views(r.imported@) == st.2);
    assert(row_views(r.imported@).len() == r.imported@.len());
    assert forall|j: int| 0 <= j < r.imported@.len() && survives_sync(before.root(), ws, on_disk, #[trigger] row_views(r.imported@)[j])
        implies after.rows_view().contains(row_views(r.imported@)[j]) by {
        let x = st.2[j];
        assert(st.0[start.0.len() + j] == x);
        st.0.lemma_filter_contains(keep, start.0.len() + j);
    }
}

} // verus!
