//! Paths as text: joining, components, prefixes, and the layout of the
//! worktree store under `<repo>/.git/wt/<id>`.
//!
//! A path is split into components the way `std::path::Path` does for the
//! absolute, normalized paths this tool handles: a leading `/` is the root
//! component, and the remaining components are the non-empty pieces between
//! slashes other than `.`.

use vstd::prelude::*;
use crate::text::{chars_of, string_from_chars, push_char, find_from, occurs_at};

verus! {

/// The root component, written `/`.
pub open spec fn root_component() -> Seq<char> {
    seq!['/']
}

/// `p` starts with a slash.
pub open spec fn is_absolute(p: Seq<char>) -> bool {
    p.len() > 0 && p[0] == '/'
}

/// Closes the segment `cur`: kept unless empty or `.`.
pub open spec fn close_segment(acc: Seq<Seq<char>>, cur: Seq<char>) -> Seq<Seq<char>> {
    if cur.len() == 0 || cur == seq!['.'] {
        acc
    } else {
        acc.push(cur)
    }
}

/// Reads the rest `p` of a path, given the segments `acc` already closed
/// and the segment `cur` in progress.
pub open spec fn scan_segments(p: Seq<char>, acc: Seq<Seq<char>>, cur: Seq<char>) -> Seq<Seq<char>>
    decreases p.len(),
{
    if p.len() == 0 {
        close_segment(acc, cur)
    } else if p[0] == '/' {
        scan_segments(p.skip(1), close_segment(acc, cur), Seq::empty())
    } else {
        scan_segments(p.skip(1), acc, cur.push(p[0]))
    }
}

/// The named segments of a path.
pub open spec fn segments(p: Seq<char>) -> Seq<Seq<char>> {
    scan_segments(p, Seq::empty(), Seq::empty())
}

/// The components of a path: the root, if any, then its segments.
pub open spec fn components(p: Seq<char>) -> Seq<Seq<char>> {
    if is_absolute(p) {
        seq![root_component()] + segments(p)
    } else {
        segments(p)
    }
}

/// `a` is an initial run of `b`.
pub open spec fn seq_prefix<T>(a: Seq<T>, b: Seq<T>) -> bool {
    a.len() <= b.len() && b.take(a.len() as int) == a
}

/// `PathBuf::push`: an absolute `rel` replaces `base`; otherwise `rel` is
/// appended, with a `/` between unless `base` is empty or already ends in one.
pub open spec fn join_path(base: Seq<char>, rel: Seq<char>) -> Seq<char> {
    if is_absolute(rel) {
        rel
    } else if base.len() == 0 {
        rel
    } else if base.last() == '/' {
        base + rel
    } else {
        base + seq!['/'] + rel
    }
}

/// The store directory relative to a repository root.
pub open spec fn store_suffix() -> Seq<char> {
    seq!['.', 'g', 'i', 't', '/', 'w', 't']
}

/// The directory that holds the worktrees of the repository at `repo_root`.
pub open spec fn store_dir(repo_root: Seq<char>) -> Seq<char> {
    join_path(repo_root, store_suffix())
}

/// The directory of worktree `id` in the repository at `repo_root`.
pub open spec fn worktree_dir(repo_root: Seq<char>, id: Seq<char>) -> Seq<char> {
    join_path(store_dir(repo_root), id)
}

/// The views of a list of character vectors.
pub open spec fn char_views(v: Seq<Vec<char>>) -> Seq<Seq<char>> {
    v.map_values(|x: Vec<char>| x@)
}

/// Joins two paths (`Path::join`).
pub fn join(base: &str, rel: &str) -> (r: String)
    ensures
        r@ == join_path(base@, rel@),
{
    let b = chars_of(base);
    let r = chars_of(rel);
    if r.len() > 0 && r[0] == '/' {
        return string_from_chars(&r);
    }
    if b.len() == 0 {
        return string_from_chars(&r);
    }
    let mut out = string_from_chars(&b);
    if b[b.len() - 1] != '/' {
        push_char(&mut out, '/');
    }
    out.append(rel);
    proof {
        assert(b@.last() == b@[b.len() - 1]);
    }
    out
}

/// The directory for storing worktrees: `<repo_root>/.git/wt`.
pub fn wt_dir(repo_root: &str) -> (r: String)
    ensures
        r@ == store_dir(repo_root@),
{
    proof {
        reveal_strlit(".git/wt");
        assert(".git/wt"@ =~= store_suffix());
    }
    join(repo_root, ".git/wt")
}

/// Splits a path into its components.
pub fn components_of(p: &Vec<char>) -> (cs: Vec<Vec<char>>)
    ensures
        char_views(cs@) == components(p@),
{
    let mut acc: Vec<Vec<char>> = Vec::new();
    if p.len() > 0 && p[0] == '/' {
        let mut root: Vec<char> = Vec::new();
        root.push('/');
        assert(root@ =~= root_component());
        acc.push(root);
    }
    let ghost base = if is_absolute(p@) { seq![root_component()] } else { Seq::<Seq<char>>::empty() };
    assert(char_views(acc@) =~= base);
    let mut cur: Vec<char> = Vec::new();
    let mut seg_acc: Ghost<Seq<Seq<char>>> = Ghost(Seq::empty());
    let mut i: usize = 0;
    assert(p@.skip(0) =~= p@);
    assert(cur@ =~= Seq::<char>::empty());
    while i < p.len()
        invariant
            i <= p.len(),
            base == (if is_absolute(p@) { seq![root_component()] } else { Seq::<Seq<char>>::empty() }),
            char_views(acc@) == base + seg_acc@,
            scan_segments(p@, Seq::empty(), Seq::empty()) == scan_segments(
                p@.skip(i as int),
                seg_acc@,
                cur@,
            ),
        decreases p.len() - i,
    {
        assert(p@.skip(i as int).skip(1) =~= p@.skip(i + 1));
        let c = p[i];
        if c == '/' {
            let keep = cur.len() > 0 && !(cur.len() == 1 && cur[0] == '.');
            proof {
                if cur@.len() == 1 && cur@[0] == '.' {
                    assert(cur@ =~= seq!['.']);
                }
                if cur@ == seq!['.'] {
                    assert(cur@.len() == 1 && cur@[0] == '.');
                }
            }
            if keep {
                let done = cur;
                cur = Vec::new();
                let ghost before = acc@;
                let ghost old_seg = seg_acc@;
                let ghost last = done@;
                proof {
                    seg_acc@ = seg_acc@.push(done@);
                }
                acc.push(done);
                assert(acc@ == before.push(acc@.last()));
                assert(acc@.last()@ == last);
                assert(char_views(acc@) =~= char_views(before).push(last));
                assert(char_views(acc@) =~= base + seg_acc@);
            } else {
                cur = Vec::new();
            }
            assert(cur@ =~= Seq::<char>::empty());
        } else {
            cur.push(c);
        }
        i = i + 1;
    }
    proof {
        if cur@.len() == 1 && cur@[0] == '.' {
            assert(cur@ =~= seq!['.']);
        }
        if cur@ == seq!['.'] {
            assert(cur@.len() == 1 && cur@[0] == '.');
        }
    }
    if cur.len() > 0 && !(cur.len() == 1 && cur[0] == '.') {
        let ghost before = acc@;
        let ghost old_seg = seg_acc@;
        assert(char_views(before) == base + old_seg);
        proof {
            seg_acc@ = seg_acc@.push(cur@);
        }
        let ghost last = cur@;
        acc.push(cur);
        assert(acc@ == before.push(acc@.last()));
        assert(acc@.last()@ == last);
        assert(seg_acc@ == old_seg.push(last));
        assert(char_views(acc@) =~= char_views(before).push(last));
        assert(char_views(acc@) =~= base + seg_acc@);
    }
    proof {
        assert(p@.skip(i as int) =~= Seq::<char>::empty());
        assert(char_views(acc@) =~= components(p@));
    }
    acc
}


fn same_chars(a: &Vec<char>, b: &Vec<char>) -> (r: bool)
    ensures
        r == (a@ == b@),
{
    if a.len() != b.len() {
        return false;
    }
    let mut i: usize = 0;
    while i < a.len()
        invariant
            a.len() == b.len(),
            i <= a.len(),
            forall|j: int| 0 <= j < i ==> a@[j] == b@[j],
        decreases a.len() - i,
    {
        if a[i] != b[i] {
            assert(a@[i as int] != b@[i as int]);
            return false;
        }
        i = i + 1;
    }
    assert(a@ =~= b@);
    true
}

fn components_prefix(a: &Vec<Vec<char>>, b: &Vec<Vec<char>>) -> (r: bool)
    ensures
        r == seq_prefix(char_views(a@), char_views(b@)),
{
    let ghost va = char_views(a@);
    let ghost vb = char_views(b@);
    if a.len() > b.len() {
        return false;
    }
    let mut i: usize = 0;
    while i < a.len()
        invariant
            a.len() <= b.len(),
            i <= a.len(),
            va == char_views(a@),
            vb == char_views(b@),
            forall|j: int| 0 <= j < i ==> va[j] == vb[j],
        decreases a.len() - i,
    {
        if !same_chars(&a[i], &b[i]) {
            assert(va[i as int] != vb[i as int]);
            assert(vb.take(va.len() as int)[i as int] == vb[i as int]);
            return false;
        }
        i = i + 1;
    }
    assert(vb.take(va.len() as int) =~= va);
    true
}

/// Whether `base` is a leading run of the components of `path`
/// (`Path::starts_with`).
pub fn path_starts_with(path: &str, base: &str) -> (r: bool)
    ensures
        r == seq_prefix(components(base@), components(path@)),
{
    let pc = components_of(&chars_of(path));
    let bc = components_of(&chars_of(base));
    components_prefix(&bc, &pc)
}

/// Whether two paths have the same components (`Path`'s `==`).
pub fn same_path(a: &str, b: &str) -> (r: bool)
    ensures
        r == (components(a@) == components(b@)),
{
    let ac = components_of(&chars_of(a));
    let bc = components_of(&chars_of(b));
    let r = ac.len() == bc.len() && components_prefix(&ac, &bc);
    proof {
        if ac.len() == bc.len() {
            assert(char_views(bc@).take(ac.len() as int) =~= char_views(bc@));
        } else {
            assert(char_views(ac@).len() != char_views(bc@).len());
        }
    }
    r
}

/// The final component of a path, unless it is the root or `..`
/// (`Path::file_name`).
pub open spec fn final_name(p: Seq<char>) -> Option<Seq<char>> {
    let cs = components(p);
    if cs.len() == 0 || cs.last() == root_component() || cs.last() == seq!['.', '.'] {
        None
    } else {
        Some(cs.last())
    }
}

/// The final component of a path (`Path::file_name`).
pub fn file_name(p: &str) -> (r: Option<String>)
    ensures
        match r {
            Some(n) => final_name(p@) == Some(n@),
            None => final_name(p@) is None,
        },
{
    let cs = components_of(&chars_of(p));
    if cs.len() == 0 {
        return None;
    }
    let last = &cs[cs.len() - 1];
    let is_root = last.len() == 1 && last[0] == '/';
    let is_up = last.len() == 2 && last[0] == '.' && last[1] == '.';
    proof {
        let l = char_views(cs@).last();
        assert(l == last@);
        if last@.len() == 1 && last@[0] == '/' {
            assert(l =~= root_component());
        }
        if l == root_component() {
            assert(last@.len() == 1 && last@[0] == '/');
        }
        if last@.len() == 2 && last@[0] == '.' && last@[1] == '.' {
            assert(l =~= seq!['.', '.']);
        }
        if l == seq!['.', '.'] {
            assert(last@.len() == 2 && last@[0] == '.' && last@[1] == '.');
        }
    }
    if is_root || is_up {
        None
    } else {
        Some(string_from_chars(last))
    }
}

/// The component of `path` that directly follows `base`, when `path` lies
/// strictly below `base` (`path.strip_prefix(base)` and its first component).
pub open spec fn next_component(path: Seq<char>, base: Seq<char>) -> Option<Seq<char>> {
    let pc = components(path);
    let bc = components(base);
    if seq_prefix(bc, pc) && pc.len() > bc.len() {
        Some(pc[bc.len() as int])
    } else {
        None
    }
}

/// The component of `path` that directly follows `base`.
pub fn component_after(path: &str, base: &str) -> (r: Option<String>)
    ensures
        match r {
            Some(c) => next_component(path@, base@) == Some(c@),
            None => next_component(path@, base@) is None,
        },
{
    let pc = components_of(&chars_of(path));
    let bc = components_of(&chars_of(base));
    if components_prefix(&bc, &pc) && pc.len() > bc.len() {
        let c = string_from_chars(&pc[bc.len()]);
        assert(char_views(pc@)[bc.len() as int] == pc@[bc.len() as int]@);
        Some(c)
    } else {
        None
    }
}

/// The text of a list of components: the root, if first, as a leading `/`,
/// and the rest joined by `/`.
pub open spec fn render_components(cs: Seq<Seq<char>>) -> Seq<char> {
    if cs.len() > 0 && cs[0] == root_component() {
        seq!['/'] + joined_by_slash(cs.skip(1))
    } else {
        joined_by_slash(cs)
    }
}

/// Segments joined by single slashes.
pub open spec fn joined_by_slash(cs: Seq<Seq<char>>) -> Seq<char>
    decreases cs.len(),
{
    if cs.len() == 0 {
        Seq::empty()
    } else if cs.len() == 1 {
        cs[0]
    } else {
        joined_by_slash(cs.drop_last()) + seq!['/'] + cs.last()
    }
}

fn join_slash(cs: &Vec<Vec<char>>, from: usize, to: usize) -> (r: Vec<char>)
    requires
        from <= to <= cs.len(),
    ensures
        r@ == joined_by_slash(char_views(cs@).subrange(from as int, to as int)),
{
    let ghost v = char_views(cs@);
    let mut out: Vec<char> = Vec::new();
    let mut k: usize = from;
    assert(v.subrange(from as int, from as int) =~= Seq::<Seq<char>>::empty());
    while k < to
        invariant
            from <= k <= to <= cs.len(),
            v == char_views(cs@),
            out@ == joined_by_slash(v.subrange(from as int, k as int)),
        decreases to - k,
    {
        let part = &cs[k];
        let ghost prev = v.subrange(from as int, k as int);
        let ghost next = v.subrange(from as int, k + 1);
        assert(next.drop_last() =~= prev);
        assert(next.last() == part@);
        if k > from {
            out.push('/');
        } else {
            assert(next =~= seq![part@]);
        }
        let mut j: usize = 0;
        let ghost start = out@;
        while j < part.len()
            invariant
                j <= part.len(),
                out@ == start + part@.take(j as int),
            decreases part.len() - j,
        {
            out.push(part[j]);
            j = j + 1;
            assert(out@ =~= start + part@.take(j as int));
        }
        assert(part@.take(j as int) =~= part@);
        k = k + 1;
        assert(out@ =~= joined_by_slash(v.subrange(from as int, k as int)));
    }
    out
}

/// The path without its final component (`Path::parent`, normalized), or
/// `None` when there is nothing to remove or only the root is left.
pub fn path_parent(p: &str) -> (r: Option<String>)
    ensures
        match r {
            Some(q) => components(p@).len() > 0 && components(p@).last() != root_component()
                && q@ == render_components(components(p@).drop_last()),
            None => components(p@).len() == 0 || components(p@).last() == root_component(),
        },
{
    let cs = components_of(&chars_of(p));
    let ghost v = char_views(cs@);
    if cs.len() == 0 {
        return None;
    }
    let last = &cs[cs.len() - 1];
    proof {
        assert(v.last() == last@);
        if last@.len() == 1 && last@[0] == '/' {
            assert(v.last() =~= root_component());
        }
        if v.last() == root_component() {
            assert(last@.len() == 1 && last@[0] == '/');
        }
    }
    if last.len() == 1 && last[0] == '/' {
        return None;
    }
    let n = cs.len() - 1;
    let rooted = n > 0 && cs[0].len() == 1 && cs[0][0] == '/';
    proof {
        let d = v.drop_last();
        if n > 0 {
            assert(d[0] == cs@[0]@);
            if cs@[0]@.len() == 1 && cs@[0]@[0] == '/' {
                assert(d[0] =~= root_component());
            }
            if d[0] == root_component() {
                assert(cs@[0]@.len() == 1 && cs@[0]@[0] == '/');
            }
        }
    }
    if rooted {
        let body = join_slash(&cs, 1, n);
        let mut out: Vec<char> = Vec::new();
        out.push('/');
        let mut j: usize = 0;
        while j < body.len()
            invariant
                j <= body.len(),
                out@ == seq!['/'] + body@.take(j as int),
            decreases body.len() - j,
        {
            out.push(body[j]);
            j = j + 1;
            assert(out@ =~= seq!['/'] + body@.take(j as int));
        }
        assert(body@.take(j as int) =~= body@);
        assert(v.subrange(1, n as int) =~= v.drop_last().skip(1));
        Some(string_from_chars(&out))
    } else {
        let body = join_slash(&cs, 0, n);
        assert(v.subrange(0, n as int) =~= v.drop_last());
        Some(string_from_chars(&body))
    }
}

/// The marker that a path lies inside the worktree store of some repository.
pub open spec fn store_marker() -> Seq<char> {
    seq!['/', '.', 'g', 'i', 't', '/', 'w', 't', '/']
}

/// When `cwd` lies inside some worktree store, the repository root that
/// owns it: the text before the first `/.git/wt/`.
pub open spec fn store_owner(cwd: Seq<char>) -> Option<Seq<char>> {
    if exists|k: int| occurs_at(cwd, store_marker(), k) {
        let k = choose|k: int| occurs_at(cwd, store_marker(), k) && forall|j: int|
            0 <= j < k ==> !occurs_at(cwd, store_marker(), j);
        Some(cwd.take(k))
    } else {
        None
    }
}

/// The repository that owns the worktree store `cwd` lies in, if any: the
/// text before the first `/.git/wt/` (the first step in noticing that the
/// current worktree was deleted from under the shell).
pub fn store_owner_of(cwd: &str) -> (r: Option<String>)
    ensures
        match r {
            Some(root) => exists|k: int|
                occurs_at(cwd@, store_marker(), k) && (forall|j: int|
                    0 <= j < k ==> !occurs_at(cwd@, store_marker(), j)) && root@ == cwd@.take(k),
            None => forall|k: int| !occurs_at(cwd@, store_marker(), k),
        },
{
    let cs = chars_of(cwd);
    let mut m: Vec<char> = Vec::new();
    m.push('/');
    m.push('.');
    m.push('g');
    m.push('i');
    m.push('t');
    m.push('/');
    m.push('w');
    m.push('t');
    m.push('/');
    assert(m@ =~= store_marker());
    match find_from(&cs, &m, 0) {
        Some(k) => {
            let mut head: Vec<char> = Vec::new();
            let mut j: usize = 0;
            while j < k
                invariant
                    j <= k <= cs.len(),
                    head@ == cs@.take(j as int),
                decreases k - j,
            {
                head.push(cs[j]);
                j = j + 1;
                assert(head@ =~= cs@.take(j as int));
            }
            Some(string_from_chars(&head))
        },
        None => None,
    }
}

} // verus!
