//! Reading what `git` prints: the worktree list, `git cherry` output and
//! the remote's default branch.

use vstd::prelude::*;
use crate::text::{chars_of, string_from_chars, has_prefix, is_prefix, trim_text, trimmed, texts};
use crate::glob::{pieces, scan_pieces, split_at_char, views};

verus! {

/// Info about a git worktree.
#[derive(Debug, PartialEq, Eq)]
pub struct GitWorktree {
    pub path: String,
    pub branch: Option<String>,
}

/// A line without its trailing carriage return, if any.
pub open spec fn without_cr(l: Seq<char>) -> Seq<char> {
    if l.len() > 0 && l.last() == '\r' {
        l.drop_last()
    } else {
        l
    }
}

/// The lines of a text (`str::lines`): cut at `\n`, a final empty piece
/// dropped, and a trailing `\r` removed from each line.
pub open spec fn text_lines(s: Seq<char>) -> Seq<Seq<char>> {
    let ps = pieces(s, '\n');
    let kept = if ps.last().len() == 0 { ps.drop_last() } else { ps };
    kept.map_values(|l: Seq<char>| without_cr(l))
}

/// The lines of a text.
pub fn lines_of(s: &str) -> (r: Vec<Vec<char>>)
    ensures
        views(r@) == text_lines(s@),
{
    let cs = chars_of(s);
    let mut ps = split_at_char(&cs, '\n');
    let ghost all = views(ps@);
    proof {
        crate::glob::lemma_pieces_nonempty(s@, '\n');
    }
    if ps[ps.len() - 1].len() == 0 {
        let ghost before = ps@;
        ps.pop();
        assert(views(ps@) =~= all.drop_last());
    }
    let ghost kept = views(ps@);
    let mut out: Vec<Vec<char>> = Vec::new();
    let mut i: usize = 0;
    while i < ps.len()
        invariant
            i <= ps.len(),
            kept == views(ps@),
            views(out@) == kept.take(i as int).map_values(|l: Seq<char>| without_cr(l)),
        decreases ps.len() - i,
    {
        let line = &ps[i];
        let mut l: Vec<char> = Vec::new();
        let mut n = line.len();
        if n > 0 && line[n - 1] == '\r' {
            n = n - 1;
        }
        let mut j: usize = 0;
        while j < n
            invariant
                j <= n <= line.len(),
                l@ == line@.take(j as int),
            decreases n - j,
        {
            l.push(line[j]);
            j = j + 1;
            assert(l@ =~= line@.take(j as int));
        }
        proof {
            assert(kept[i as int] == line@);
            if line@.len() > 0 && line@.last() == '\r' {
                assert(line@.take(n as int) =~= line@.drop_last());
            } else {
                assert(line@.take(n as int) =~= line@);
            }
        }
        let ghost prev = out@;
        out.push(l);
        assert(views(out@) =~= views(prev).push(without_cr(kept[i as int])));
        i = i + 1;
        assert(kept.take(i as int).map_values(|l: Seq<char>| without_cr(l)) =~= kept.take(
            i - 1,
        ).map_values(|l: Seq<char>| without_cr(l)).push(without_cr(kept[i - 1])));
    }
    assert(kept.take(i as int) =~= kept);
    assert(ps@.len() == kept.len());
    out
}


/// What a worktree record of the list says: its path and, when it is on a
/// branch, the branch's short name.
pub type WorktreeView = (Seq<char>, Option<Seq<char>>);

/// The view of a listed worktree.
pub open spec fn worktree_view(w: GitWorktree) -> WorktreeView {
    (
        w.path@,
        match w.branch {
            Some(b) => Some(b@),
            None => None,
        },
    )
}

/// The views of listed worktrees.
pub open spec fn worktree_views(ws: Seq<GitWorktree>) -> Seq<WorktreeView> {
    ws.map_values(|w: GitWorktree| worktree_view(w))
}

/// `worktree ` (with its space).
pub open spec fn worktree_tag() -> Seq<char> {
    seq!['w', 'o', 'r', 'k', 't', 'r', 'e', 'e', ' ']
}

/// `branch ` (with its space).
pub open spec fn branch_tag() -> Seq<char> {
    seq!['b', 'r', 'a', 'n', 'c', 'h', ' ']
}

/// `refs/heads/`.
pub open spec fn heads_prefix() -> Seq<char> {
    seq!['r', 'e', 'f', 's', '/', 'h', 'e', 'a', 'd', 's', '/']
}

/// The reading state of a `git worktree list --porcelain` text: records
/// finished so far, and the path and branch of the record in progress.
pub type ListState = (Seq<WorktreeView>, Option<Seq<char>>, Option<Seq<char>>);

/// One line of the list read into the state: a `worktree <path>` line
/// closes the record in progress and opens a new one; a `branch <ref>` line
/// sets its branch (the name after `refs/heads/`, or none for other refs);
/// an empty line closes it; other lines change nothing.
pub open spec fn list_step(st: ListState, line: Seq<char>) -> ListState {
    if is_prefix(worktree_tag(), line) {
        let done = match st.1 {
            Some(p) => st.0.push((p, st.2)),
            None => st.0,
        };
        (done, Some(line.skip(9)), None)
    } else if is_prefix(branch_tag(), line) {
        let r = line.skip(7);
        (st.0, st.1, if is_prefix(heads_prefix(), r) { Some(r.skip(11)) } else { None })
    } else if line.len() == 0 {
        match st.1 {
            Some(p) => (st.0.push((p, st.2)), None, None),
            None => st,
        }
    } else {
        st
    }
}

/// The state after reading `lines` in order.
pub open spec fn list_read(lines: Seq<Seq<char>>) -> ListState
    decreases lines.len(),
{
    if lines.len() == 0 {
        (Seq::empty(), None, None)
    } else {
        list_step(list_read(lines.drop_last()), lines.last())
    }
}

/// The worktrees a `git worktree list --porcelain` text describes: every
/// record read, the last one closed at the end of the text.
pub open spec fn listed_worktrees(stdout: Seq<char>) -> Seq<WorktreeView> {
    let st = list_read(text_lines(stdout));
    match st.1 {
        Some(p) => st.0.push((p, st.2)),
        None => st.0,
    }
}

fn literal(s: &str) -> (r: Vec<char>)
    ensures
        r@ == s@,
{
    chars_of(s)
}

fn tail_from(v: &Vec<char>, k: usize) -> (r: Vec<char>)
    requires
        k <= v.len(),
    ensures
        r@ == v@.skip(k as int),
{
    let mut r: Vec<char> = Vec::new();
    let mut i: usize = k;
    while i < v.len()
        invariant
            k <= i <= v.len(),
            r@ == v@.subrange(k as int, i as int),
        decreases v.len() - i,
    {
        r.push(v[i]);
        i = i + 1;
        assert(r@ =~= v@.subrange(k as int, i as int));
    }
    assert(v@.subrange(k as int, i as int) =~= v@.skip(k as int));
    r
}

fn close_record(
    out: &mut Vec<GitWorktree>,
    path: Option<Vec<char>>,
    branch: Option<Vec<char>>,
)
    requires
        path is Some,
    ensures
        worktree_views(final(out)@) == worktree_views(old(out)@).push(
            (
                path->0@,
                match branch {
                    Some(b) => Some(b@),
                    None => None,
                },
            ),
        ),
{
    let p = path.unwrap();
    let b = match branch {
        Some(b) => Some(string_from_chars(&b)),
        None => None,
    };
    let w = GitWorktree { path: string_from_chars(&p), branch: b };
    let ghost before = out@;
    out.push(w);
    assert(worktree_views(out@) =~= worktree_views(before).push(worktree_view(w)));
}

/// The view of an optional character vector.
pub open spec fn opt_view(o: Option<Vec<char>>) -> Option<Seq<char>> {
    match o {
        Some(v) => Some(v@),
        None => None,
    }
}

/// Lists the worktrees described by the output of
/// `git worktree list --porcelain`.
pub fn parse_worktree_list(stdout: &str) -> (r: Vec<GitWorktree>)
    ensures
        worktree_views(r@) == listed_worktrees(stdout@),
{
    let lines = lines_of(stdout);
    let ghost ls = views(lines@);
    let wt = literal("worktree ");
    let br = literal("branch ");
    let heads = literal("refs/heads/");
    proof {
        reveal_strlit("worktree ");
        reveal_strlit("branch ");
        reveal_strlit("refs/heads/");
        assert(wt@ =~= worktree_tag());
        assert(br@ =~= branch_tag());
        assert(heads@ =~= heads_prefix());
    }
    let mut out: Vec<GitWorktree> = Vec::new();
    let mut cur_path: Option<Vec<char>> = None;
    let mut cur_branch: Option<Vec<char>> = None;
    let mut i: usize = 0;
    assert(ls.take(0) =~= Seq::<Seq<char>>::empty());
    assert(worktree_views(out@) =~= Seq::<WorktreeView>::empty());
    while i < lines.len()
        invariant
            i <= lines.len(),
            ls == views(lines@),
            ls == text_lines(stdout@),
            wt@ == worktree_tag(),
            br@ == branch_tag(),
            heads@ == heads_prefix(),
            list_read(ls.take(i as int)) == (worktree_views(out@), opt_view(cur_path), opt_view(
                cur_branch,
            )),
        decreases lines.len() - i,
    {
        let line = &lines[i];
        proof {
            assert(ls.take(i + 1).drop_last() =~= ls.take(i as int));
            assert(ls.take(i + 1).last() == line@);
        }
        if has_prefix(line, &wt) {
            if cur_path.is_some() {
                close_record(&mut out, cur_path, cur_branch);
            }
            cur_path = Some(tail_from(line, 9));
            cur_branch = None;
        } else if has_prefix(line, &br) {
            let r = tail_from(line, 7);
            if has_prefix(&r, &heads) {
                cur_branch = Some(tail_from(&r, 11));
            } else {
                cur_branch = None;
            }
        } else if line.len() == 0 {
            if cur_path.is_some() {
                close_record(&mut out, cur_path, cur_branch);
                cur_path = None;
                cur_branch = None;
            }
        }
        i = i + 1;
    }
    assert(ls.take(i as int) =~= ls);
    if cur_path.is_some() {
        close_record(&mut out, cur_path, cur_branch);
    }
    out
}


/// Some line of `s` starts with `+`.
pub open spec fn has_plus_line(s: Seq<char>) -> bool {
    exists|k: int|
        0 <= k < text_lines(s).len() && text_lines(s)[k].len() > 0 && text_lines(s)[k][0] == '+'
}

/// Whether `git cherry <into> <branch>` output says the branch is merged:
/// no line starts with `+`, that is, no commit of the branch is missing
/// from the target (this also recognizes squash merges).
pub fn cherry_reports_merged(stdout: &str) -> (r: bool)
    ensures
        r == !has_plus_line(stdout@),
{
    let lines = lines_of(stdout);
    let ghost ls = views(lines@);
    let mut i: usize = 0;
    while i < lines.len()
        invariant
            i <= lines.len(),
            ls == views(lines@),
            ls == text_lines(stdout@),
            forall|k: int| 0 <= k < i ==> !(ls[k].len() > 0 && ls[k][0] == '+'),
        decreases lines.len() - i,
    {
        assert(ls[i as int] == lines@[i as int]@);
        if lines[i].len() > 0 && lines[i][0] == '+' {
            return false;
        }
        i = i + 1;
    }
    true
}

/// `refs/remotes/origin/`.
pub open spec fn origin_prefix() -> Seq<char> {
    seq!['r', 'e', 'f', 's', '/', 'r', 'e', 'm', 'o', 't', 'e', 's', '/', 'o', 'r', 'i', 'g', 'i', 'n', '/']
}

/// The branch named by the remote's `HEAD` reference
/// (`refs/remotes/origin/<branch>`), or `None` for another reference.
pub fn remote_head_branch(refname: &str) -> (r: Option<String>)
    ensures
        match r {
            Some(b) => is_prefix(origin_prefix(), refname@) && b@ == refname@.skip(20),
            None => !is_prefix(origin_prefix(), refname@),
        },
{
    let cs = chars_of(refname);
    let p = literal("refs/remotes/origin/");
    proof {
        reveal_strlit("refs/remotes/origin/");
        assert(p@ =~= origin_prefix());
    }
    if has_prefix(&cs, &p) {
        Some(string_from_chars(&tail_from(&cs, 20)))
    } else {
        None
    }
}

/// The default branch: `main` when it exists, else `master` when it exists,
/// else the branch that the remote's `HEAD` names (`origin_head` is what
/// `git symbolic-ref refs/remotes/origin/HEAD` printed, when it succeeded).
/// `None` when none of these gives one.
pub fn default_branch(main_exists: bool, master_exists: bool, origin_head: Option<&str>) -> (r: Option<String>)
    ensures
        main_exists ==> (r matches Some(b) && b@ == "main"@),
        !main_exists && master_exists ==> (r matches Some(b) && b@ == "master"@),
        !main_exists && !master_exists ==> match origin_head {
            Some(out) => if is_prefix(origin_prefix(), trimmed(out@)) {
                r matches Some(b) && b@ == trimmed(out@).skip(20)
            } else {
                r is None
            },
            None => r is None,
        },
{
    if main_exists {
        return Some("main".to_owned());
    }
    if master_exists {
        return Some("master".to_owned());
    }
    match origin_head {
        Some(out) => {
            let refname = trim_text(out);
            remote_head_branch(refname.as_str())
        },
        None => None,
    }
}

/// Whether a line of `git status --porcelain` reports an untracked file
/// (it starts with `??`).
pub open spec fn untracked_line(l: Seq<char>) -> bool {
    l.len() >= 2 && l[0] == '?' && l[1] == '?'
}

/// What `git status --porcelain` reports: (modified, untracked). A file is
/// modified when some non-empty line is not an untracked one.
pub open spec fn status_flags(stdout: Seq<char>) -> (bool, bool) {
    let ls = text_lines(stdout);
    (
        exists|k: int| 0 <= k < ls.len() && ls[k].len() > 0 && !untracked_line(#[trigger] ls[k]),
        exists|k: int| 0 <= k < ls.len() && untracked_line(#[trigger] ls[k]),
    )
}

/// Reads `git status --porcelain` output into (modified, untracked).
pub fn worktree_status(stdout: &str) -> (r: (bool, bool))
    ensures
        r == status_flags(stdout@),
{
    let lines = lines_of(stdout);
    let ghost ls = views(lines@);
    let mut modified = false;
    let mut untracked = false;
    let mut i: usize = 0;
    while i < lines.len()
        invariant
            i <= lines.len(),
            ls == views(lines@),
            ls == text_lines(stdout@),
            modified == exists|k: int| 0 <= k < i && ls[k].len() > 0 && !untracked_line(#[trigger] ls[k]),
            untracked == exists|k: int| 0 <= k < i && untracked_line(#[trigger] ls[k]),
        decreases lines.len() - i,
    {
        let l = &lines[i];
        assert(ls[i as int] == l@);
        let u = l.len() >= 2 && l[0] == '?' && l[1] == '?';
        if u {
            untracked = true;
        } else if l.len() > 0 {
            modified = true;
        }
        i = i + 1;
    }
    (modified, untracked)
}

/// The value of a decimal numeral of digits `0`-`9` (at least one).
pub open spec fn numeral(s: Seq<char>) -> Option<nat>
    decreases s.len(),
{
    if s.len() == 0 || !('0' <= s.last() && s.last() <= '9') {
        None
    } else if s.len() == 1 {
        Some((s.last() as nat - '0' as nat) as nat)
    } else {
        match numeral(s.drop_last()) {
            Some(v) => Some((v * 10 + (s.last() as nat - '0' as nat)) as nat),
            None => None,
        }
    }
}

fn parse_u32(s: &Vec<char>) -> (r: Option<u32>)
    ensures
        match r {
            Some(v) => numeral(s@) == Some(v as nat),
            None => numeral(s@) is None || numeral(s@)->0 > u32::MAX,
        },
{
    if s.len() == 0 {
        return None;
    }
    let mut v: u64 = 0;
    let mut i: usize = 0;
    while i < s.len()
        invariant
            i <= s.len(),
            s.len() > 0,
            v <= u32::MAX,
            i > 0 ==> numeral(s@.take(i as int)) == Some(v as nat),
            i == 0 ==> v == 0,
        decreases s.len() - i,
    {
        let c = s[i];
        assert(s@.take(i + 1).last() == c);
        assert(s@.take(i + 1).drop_last() =~= s@.take(i as int));
        if !('0' <= c && c <= '9') {
            proof {
                lemma_numeral_bad_char(s@, i as int);
            }
            return None;
        }
        let d = (c as u32 - '0' as u32) as u64;
        let nv = v * 10 + d;
        if nv > 0xffff_ffff {
            proof {
                lemma_numeral_grows(s@, (i + 1) as int, nv as nat);
            }
            return None;
        }
        v = nv;
        i = i + 1;
    }
    assert(s@.take(i as int) =~= s@);
    Some(v as u32)
}

proof fn lemma_numeral_bad_char(s: Seq<char>, i: int)
    requires
        0 <= i < s.len(),
        !('0' <= s[i] && s[i] <= '9'),
    ensures
        numeral(s) is None,
    decreases s.len(),
{
    if i < s.len() - 1 {
        assert(s.drop_last()[i] == s[i]);
        lemma_numeral_bad_char(s.drop_last(), i);
    }
}

proof fn lemma_numeral_grows(s: Seq<char>, n: int, v: nat)
    requires
        0 < n <= s.len(),
        numeral(s.take(n)) == Some(v),
        v > u32::MAX,
    ensures
        numeral(s) is None || numeral(s)->0 > u32::MAX,
    decreases s.len() - n,
{
    if n < s.len() {
        let t = s.take(n + 1);
        assert(t.drop_last() =~= s.take(n));
        match numeral(t) {
            Some(w) => {
                assert(w >= v * 10);
                lemma_numeral_grows(s, n + 1, w);
            },
            None => {
                lemma_numeral_none_extends(s, n + 1);
            },
        }
    } else {
        assert(s.take(n) =~= s);
    }
}

proof fn lemma_numeral_none_extends(s: Seq<char>, n: int)
    requires
        0 < n <= s.len(),
        numeral(s.take(n)) is None,
    ensures
        numeral(s) is None,
    decreases s.len() - n,
{
    if n < s.len() {
        let t = s.take(n + 1);
        assert(t.drop_last() =~= s.take(n));
        lemma_numeral_none_extends(s, n + 1);
    } else {
        assert(s.take(n) =~= s);
    }
}

/// The counts that `git rev-list --left-right --count <base>...<branch>`
/// prints: the commits only in the base (behind), a tab, the commits only
/// in the branch (ahead), around white space. `None` when the output has
/// another shape or a count does not fit in 32 bits.
pub open spec fn left_right(stdout: Seq<char>) -> Option<(nat, nat)> {
    let t = trimmed(stdout);
    let ps = pieces(t, '\t');
    if ps.len() == 2 {
        match (numeral(ps[0]), numeral(ps[1])) {
            (Some(l), Some(r)) => if l <= u32::MAX && r <= u32::MAX {
                Some((l, r))
            } else {
                None
            },
            _ => None,
        }
    } else {
        None
    }
}

/// Reads the output of `git rev-list --left-right --count` into
/// (ahead, behind).
pub fn ahead_behind(stdout: &str) -> (r: Option<(u32, u32)>)
    ensures
        match r {
            Some(c) => left_right(stdout@) == Some((c.1 as nat, c.0 as nat)),
            None => left_right(stdout@) is None,
        },
{
    let t = trim_text(stdout);
    let cs = chars_of(t.as_str());
    let ps = split_at_char(&cs, '\t');
    if ps.len() != 2 {
        return None;
    }
    assert(ps@[0]@ == views(ps@)[0]);
    assert(ps@[1]@ == views(ps@)[1]);
    match (parse_u32(&ps[0]), parse_u32(&ps[1])) {
        (Some(l), Some(r)) => Some((r, l)),
        _ => None,
    }
}

/// The ref that ahead/behind counts are measured against: the branch's
/// upstream when it has one, else the fallback (the parent's branch, or the
/// default branch at top level).
pub fn counts_base(upstream: Option<String>, fallback: Option<&str>) -> (r: Option<String>)
    ensures
        match upstream {
            Some(u) => r matches Some(b) && b@ == u@,
            None => match fallback {
                Some(f) => r matches Some(b) && b@ == f@,
                None => r is None,
            },
        },
{
    match upstream {
        Some(u) => Some(u),
        None => match fallback {
            Some(f) => Some(f.to_owned()),
            None => None,
        },
    }
}

/// What fzf printed, trimmed; `None` when nothing was picked.
pub fn fzf_choice(stdout: &str) -> (r: Option<String>)
    ensures
        trimmed(stdout@).len() == 0 ==> r is None,
        trimmed(stdout@).len() > 0 ==> (r matches Some(c) && c@ == trimmed(stdout@)),
{
    let t = trim_text(stdout);
    if t.as_str().is_empty() {
        None
    } else {
        Some(t)
    }
}

/// The ignored files that `git ls-files --others --ignored
/// --exclude-standard` lists: its non-empty lines.
pub fn ignored_files(stdout: &str) -> (r: Vec<String>)
    ensures
        texts(r@) == text_lines(stdout@).filter(|l: Seq<char>| l.len() > 0),
{
    broadcast use Seq::lemma_filter_push;
    let lines = lines_of(stdout);
    let ghost ls = views(lines@);
    let ghost keep = |l: Seq<char>| l.len() > 0;
    let mut out: Vec<String> = Vec::new();
    let mut i: usize = 0;
    assert(ls.take(0) =~= Seq::<Seq<char>>::empty());
    assert(texts(out@) =~= Seq::<Seq<char>>::empty());
    proof {
        reveal(Seq::filter);
    }
    while i < lines.len()
        invariant
            i <= lines.len(),
            ls == views(lines@),
            forall|l: Seq<char>| #[trigger] keep(l) == (l.len() > 0),
            texts(out@) == ls.take(i as int).filter(keep),
        decreases lines.len() - i,
    {
        assert(ls[i as int] == lines@[i as int]@);
        assert(ls.take(i + 1) =~= ls.take(i as int).push(ls[i as int]));
        proof {
            ls.take(i as int).lemma_filter_push(ls[i as int], keep);
        }
        if lines[i].len() > 0 {
            let ghost before = texts(out@);
            out.push(string_from_chars(&lines[i]));
            assert(texts(out@) =~= before.push(ls[i as int]));
        }
        i = i + 1;
    }
    assert(ls.take(i as int) =~= ls);
    proof {
        assert(keep =~= (|l: Seq<char>| l.len() > 0));
    }
    out
}

/// Position `i` of `s` starts a line: it is the first character of the
/// text or follows a newline.
pub open spec fn line_start(s: Seq<char>, i: int) -> bool {
    0 <= i < s.len() && (i == 0 || s[i - 1] == '\n')
}

/// The characters of `s` from position `i` up to the next newline (or the
/// end).
pub open spec fn line_from(s: Seq<char>, i: int) -> Seq<char>
    decreases s.len() - i,
{
    if i < 0 || i >= s.len() || s[i] == '\n' {
        Seq::empty()
    } else {
        seq![s[i]] + line_from(s, i + 1)
    }
}

proof fn lemma_line_from_shift(p: Seq<char>, i: int)
    requires
        1 <= i,
        p.len() > 0,
    ensures
        line_from(p, i) == line_from(p.skip(1), i - 1),
    decreases p.len() - i,
{
    if i < p.len() && p[i] != '\n' {
        lemma_line_from_shift(p, i + 1);
        assert(p.skip(1)[i - 1] == p[i]);
    } else if i < p.len() {
        assert(p.skip(1)[i - 1] == p[i]);
    }
}

proof fn lemma_line_from_facts(s: Seq<char>, i: int)
    requires
        0 <= i < s.len(),
    ensures
        s[i] == '\n' ==> line_from(s, i).len() == 0,
        s[i] != '\n' ==> line_from(s, i).len() >= 1 && line_from(s, i)[0] == s[i],
        line_from(s, i).len() >= 2 <==> (s[i] != '\n' && i + 1 < s.len() && s[i + 1] != '\n'),
        line_from(s, i).len() >= 2 ==> line_from(s, i)[1] == s[i + 1],
{
    if s[i] != '\n' && i + 1 < s.len() && s[i + 1] != '\n' {
        assert(line_from(s, i + 1) == seq![s[i + 1]] + line_from(s, i + 2));
    }
    if s[i] != '\n' && !(i + 1 < s.len() && s[i + 1] != '\n') {
        assert(line_from(s, i + 1) == Seq::<char>::empty());
    }
}

/// The pieces a newline scan closes are those already closed, the piece in
/// progress completed by the rest's first line, and each line the rest
/// starts after one of its newlines.
proof fn lemma_scan_lines(p: Seq<char>, acc: Seq<Seq<char>>, cur: Seq<char>, x: Seq<char>)
    ensures
        scan_pieces(p, '\n', acc, cur).contains(x) <==> (acc.contains(x) || x == cur + line_from(p, 0) || exists|i: int|
            1 <= i <= p.len() && p[i - 1] == '\n' && x == #[trigger] line_from(p, i)),
    decreases p.len(),
{
    if p.len() == 0 {
        assert(cur + line_from(p, 0) =~= cur);
        if acc.push(cur).contains(x) {
            let k = choose|k: int| 0 <= k < acc.push(cur).len() && acc.push(cur)[k] == x;
            if k < acc.len() {
                assert(acc[k] == x);
            }
        }
        if acc.contains(x) {
            let k = choose|k: int| 0 <= k < acc.len() && acc[k] == x;
            assert(acc.push(cur)[k] == x);
        }
        if x == cur {
            assert(acc.push(cur)[acc.len() as int] == x);
        }
    } else {
        let q = p.skip(1);
        assert forall|i: int| 1 <= i <= p.len() implies #[trigger] line_from(p, i) == line_from(q, i - 1) by {
            lemma_line_from_shift(p, i);
        }
        if p[0] == '\n' {
            lemma_scan_lines(q, acc.push(cur), Seq::empty(), x);
            assert(line_from(p, 0) == Seq::<char>::empty());
            assert(cur + line_from(p, 0) =~= cur);
            assert(Seq::<char>::empty() + line_from(q, 0) =~= line_from(q, 0));
            // acc.push(cur) membership
            if acc.push(cur).contains(x) {
                let k = choose|k: int| 0 <= k < acc.push(cur).len() && acc.push(cur)[k] == x;
                if k < acc.len() {
                    assert(acc[k] == x);
                }
            }
            if acc.contains(x) {
                let k = choose|k: int| 0 <= k < acc.len() && acc[k] == x;
                assert(acc.push(cur)[k] == x);
            }
            if x == cur {
                assert(acc.push(cur)[acc.len() as int] == x);
            }
            if x == line_from(q, 0) {
                assert(p[1 - 1] == '\n' && x == line_from(p, 1));
            }
            if exists|i: int| 1 <= i <= q.len() && q[i - 1] == '\n' && x == #[trigger] line_from(q, i) {
                let i = choose|i: int| 1 <= i <= q.len() && q[i - 1] == '\n' && x == #[trigger] line_from(q, i);
                assert(p[i] == q[i - 1]);
                assert(x == line_from(p, i + 1));
            }
            if exists|i: int| 1 <= i <= p.len() && p[i - 1] == '\n' && x == #[trigger] line_from(p, i) {
                let i = choose|i: int| 1 <= i <= p.len() && p[i - 1] == '\n' && x == #[trigger] line_from(p, i);
                if i == 1 {
                    assert(x == line_from(q, 0));
                } else {
                    assert(q[i - 2] == p[i - 1]);
                    assert(x == line_from(q, i - 1));
                }
            }
        } else {
            lemma_scan_lines(q, acc, cur.push(p[0]), x);
            assert(line_from(p, 0) == seq![p[0]] + line_from(p, 1));
            assert(cur.push(p[0]) + line_from(q, 0) =~= cur + line_from(p, 0));
            if exists|i: int| 1 <= i <= q.len() && q[i - 1] == '\n' && x == #[trigger] line_from(q, i) {
                let i = choose|i: int| 1 <= i <= q.len() && q[i - 1] == '\n' && x == #[trigger] line_from(q, i);
                assert(p[i] == q[i - 1]);
                assert(x == line_from(p, i + 1));
            }
            if exists|i: int| 1 <= i <= p.len() && p[i - 1] == '\n' && x == #[trigger] line_from(p, i) {
                let i = choose|i: int| 1 <= i <= p.len() && p[i - 1] == '\n' && x == #[trigger] line_from(p, i);
                assert(i != 1);
                assert(q[i - 2] == p[i - 1]);
                assert(x == line_from(q, i - 1));
            }
        }
    }
}

/// A property of lines that no empty line has holds of some line of `s`
/// exactly when it holds, after a trailing `\r` is dropped, of the line
/// starting at some line start.
proof fn lemma_some_line(s: Seq<char>, q: spec_fn(Seq<char>) -> bool)
    requires
        !q(Seq::<char>::empty()),
    ensures
        (exists|k: int| 0 <= k < text_lines(s).len() && q(#[trigger] text_lines(s)[k])) <==> (exists|i: int|
            line_start(s, i) && q(without_cr(#[trigger] line_from(s, i)))),
{
    let ps = pieces(s, '\n');
    crate::glob::lemma_pieces_nonempty(s, '\n');
    let kept = if ps.last().len() == 0 { ps.drop_last() } else { ps };
    let tl = text_lines(s);
    assert(tl == kept.map_values(|l: Seq<char>| without_cr(l)));
    if exists|k: int| 0 <= k < tl.len() && q(#[trigger] tl[k]) {
        let k = choose|k: int| 0 <= k < tl.len() && q(#[trigger] tl[k]);
        let x = kept[k];
        assert(tl[k] == without_cr(x));
        assert(ps[k] == x);
        assert(ps.contains(x));
        lemma_scan_lines(s, Seq::empty(), Seq::empty(), x);
        assert(!Seq::<Seq<char>>::empty().contains(x));
        assert(Seq::<char>::empty() + line_from(s, 0) =~= line_from(s, 0));
        if x == line_from(s, 0) {
            assert(x.len() > 0);
            assert(s.len() > 0);
            assert(line_start(s, 0));
        } else {
            let i = choose|i: int| 1 <= i <= s.len() && s[i - 1] == '\n' && x == #[trigger] line_from(s, i);
            assert(x.len() > 0);
            assert(i < s.len());
            assert(line_start(s, i));
        }
    }
    if exists|i: int| line_start(s, i) && q(without_cr(#[trigger] line_from(s, i))) {
        let i = choose|i: int| line_start(s, i) && q(without_cr(#[trigger] line_from(s, i)));
        let x = line_from(s, i);
        lemma_scan_lines(s, Seq::empty(), Seq::empty(), x);
        assert(Seq::<char>::empty() + line_from(s, 0) =~= line_from(s, 0));
        if i > 0 {
            assert(1 <= i <= s.len() && s[i - 1] == '\n' && x == line_from(s, i));
        }
        assert(ps.contains(x));
        let k = choose|k: int| 0 <= k < ps.len() && ps[k] == x;
        if without_cr(x).len() == 0 {
            assert(without_cr(x) =~= Seq::<char>::empty());
        }
        assert(x.len() > 0);
        if ps.last().len() == 0 {
            assert(k < ps.len() - 1);
        }
        assert(kept[k] == x);
        assert(tl[k] == without_cr(x));
    }
}

/// `git cherry` output reports the branch merged exactly when no line of it
/// starts with `+`: no `+` opens the output or follows a newline. A single
/// commit of the branch missing from the target, listed on any line,
/// including the first, means not merged.
pub proof fn lemma_cherry_merged_exactly(s: Seq<char>)
    ensures
        !has_plus_line(s) <==> !exists|i: int| line_start(s, i) && #[trigger] s[i] == '+',
{
    let q = |l: Seq<char>| l.len() > 0 && l[0] == '+';
    lemma_some_line(s, q);
    assert(has_plus_line(s) <==> exists|k: int| 0 <= k < text_lines(s).len() && q(#[trigger] text_lines(s)[k]));
    assert forall|i: int| line_start(s, i) implies (q(without_cr(#[trigger] line_from(s, i))) <==> s[i] == '+') by {
        lemma_line_from_facts(s, i);
        let x = line_from(s, i);
        if x.len() > 0 && x.last() == '\r' {
            if x.len() >= 2 {
                assert(without_cr(x)[0] == x[0]);
            }
        }
    }
    if has_plus_line(s) {
        let i = choose|i: int| line_start(s, i) && q(without_cr(#[trigger] line_from(s, i)));
        assert(s[i] == '+');
    }
    if exists|i: int| line_start(s, i) && #[trigger] s[i] == '+' {
        let i = choose|i: int| line_start(s, i) && #[trigger] s[i] == '+';
        assert(q(without_cr(line_from(s, i))));
    }
}

/// What `git status --porcelain` output says of a worktree, line by line,
/// whatever the status letters: it has modified files exactly when some
/// line is neither empty (a lone `\r` counting as empty) nor an untracked
/// `??` line, and untracked files exactly when some line starts with `??`.
pub proof fn lemma_status_flags_exactly(s: Seq<char>)
    ensures
        status_flags(s).0 <==> exists|i: int|
            line_start(s, i) && #[trigger] s[i] != '\n' && !(s[i] == '\r' && (i + 1 == s.len() || s[i + 1] == '\n'))
                && !(s[i] == '?' && i + 1 < s.len() && s[i + 1] == '?'),
        status_flags(s).1 <==> exists|i: int| line_start(s, i) && #[trigger] s[i] == '?' && i + 1 < s.len() && s[i + 1] == '?',
{
    let qm = |l: Seq<char>| l.len() > 0 && !untracked_line(l);
    let qu = |l: Seq<char>| untracked_line(l);
    lemma_some_line(s, qm);
    lemma_some_line(s, qu);
    let ls = text_lines(s);
    assert(status_flags(s).0 <==> exists|k: int| 0 <= k < ls.len() && qm(#[trigger] ls[k]));
    assert(status_flags(s).1 <==> exists|k: int| 0 <= k < ls.len() && qu(#[trigger] ls[k]));
    assert forall|i: int| line_start(s, i) implies (qm(without_cr(#[trigger] line_from(s, i))) <==> (s[i] != '\n'
        && !(s[i] == '\r' && (i + 1 == s.len() || s[i + 1] == '\n')) && !(s[i] == '?' && i + 1 < s.len() && s[i
        + 1] == '?'))) && (qu(without_cr(line_from(s, i))) <==> (s[i] == '?' && i + 1 < s.len() && s[i + 1] == '?')) by {
        lemma_line_from_facts(s, i);
        let x = line_from(s, i);
        let w = without_cr(x);
        if x.len() >= 2 && x.last() == '\r' {
            assert(w[0] == x[0]);
            if x.len() >= 3 {
                assert(w[1] == x[1]);
            }
        }
        if x.len() == 1 {
            assert(x[0] == s[i]);
        }
        if x.len() >= 2 {
            assert(x[0] == s[i] && x[1] == s[i + 1]);
        }
    }
    if status_flags(s).0 {
        let i = choose|i: int| line_start(s, i) && qm(without_cr(#[trigger] line_from(s, i)));
        assert(s[i] != '\n');
    }
    if exists|i: int| line_start(s, i) && #[trigger] s[i] != '\n' && !(s[i] == '\r' && (i + 1 == s.len() || s[i + 1]
        == '\n')) && !(s[i] == '?' && i + 1 < s.len() && s[i + 1] == '?') {
        let i = choose|i: int| line_start(s, i) && #[trigger] s[i] != '\n' && !(s[i] == '\r' && (i + 1 == s.len() || s[i
            + 1] == '\n')) && !(s[i] == '?' && i + 1 < s.len() && s[i + 1] == '?');
        assert(qm(without_cr(line_from(s, i))));
    }
    if status_flags(s).1 {
        let i = choose|i: int| line_start(s, i) && qu(without_cr(#[trigger] line_from(s, i)));
        assert(s[i] == '?');
    }
    if exists|i: int| line_start(s, i) && #[trigger] s[i] == '?' && i + 1 < s.len() && s[i + 1] == '?' {
        let i = choose|i: int| line_start(s, i) && #[trigger] s[i] == '?' && i + 1 < s.len() && s[i + 1] == '?';
        assert(qu(without_cr(line_from(s, i))));
    }
}

} // verus!
