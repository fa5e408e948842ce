//! What is shown of a list of copied files: the files at the root, then how
//! many files each top-level directory holds.

use vstd::prelude::*;
use crate::text::{text_before, lemma_text_before_total, lemma_text_before_trans};
use crate::meta::opt_text;
use crate::text::{chars_of, string_from_chars, texts, same_text, decimal, decimal_text};
use crate::commands::cat3;

verus! {

/// `k` is the index of the first `/` of `f`.
pub open spec fn is_first_slash(f: Seq<char>, k: int) -> bool {
    &&& 0 <= k < f.len()
    &&& f[k] == '/'
    &&& forall|j: int| 0 <= j < k ==> f[j] != '/'
}

/// The top-level directory of a relative path: what precedes its first `/`.
pub open spec fn top_dir(f: Seq<char>) -> Option<Seq<char>> {
    if exists|k: int| is_first_slash(f, k) {
        Some(f.take(choose|k: int| is_first_slash(f, k)))
    } else {
        None
    }
}

/// Texts in order: equal or sorting before.
pub open spec fn text_le(a: Seq<char>, b: Seq<char>) -> bool {
    a == b || text_before(a, b)
}

/// Texts sorted (by code point, which is the byte order of UTF-8).
pub open spec fn sorted_texts(s: Seq<Seq<char>>) -> bool {
    forall|i: int, j: int| 0 <= i < j < s.len() ==> text_le(s[i], s[j])
}

/// The top-level directories of `files`, each once, in order of first
/// appearance.
pub open spec fn first_dirs(files: Seq<Seq<char>>) -> Seq<Seq<char>>
    decreases files.len(),
{
    if files.len() == 0 {
        Seq::empty()
    } else {
        let d = first_dirs(files.drop_last());
        match top_dir(files.last()) {
            Some(t) => if d.contains(t) {
                d
            } else {
                d.push(t)
            },
            None => d,
        }
    }
}

/// How many of `files` lie in top-level directory `t`.
pub open spec fn dir_count(files: Seq<Seq<char>>, t: Seq<char>) -> nat
    decreases files.len(),
{
    if files.len() == 0 {
        0
    } else {
        dir_count(files.drop_last(), t) + if top_dir(files.last()) == Some(t) {
            1nat
        } else {
            0nat
        }
    }
}

/// The files at the root (outside any directory).
pub open spec fn root_files(files: Seq<Seq<char>>) -> Seq<Seq<char>> {
    files.filter(root_pick())
}

/// Files at the root.
pub open spec fn root_pick() -> spec_fn(Seq<char>) -> bool {
    |f: Seq<char>| top_dir(f) is None
}

/// `ranked` holds the top-level directories of `files`, largest first.
pub open spec fn is_ranking(files: Seq<Seq<char>>, ranked: Seq<Seq<char>>) -> bool {
    &&& ranked.to_multiset() == first_dirs(files).to_multiset()
    &&& forall|i: int, j: int| 0 <= i < j < ranked.len() ==> dir_count(files, ranked[i]) >= dir_count(files, ranked[j])
}

/// The line of a directory: `<dir>/ (<count> files)`.
pub open spec fn dir_line(t: Seq<char>, count: nat) -> Seq<char> {
    t + "/ ("@ + decimal(count) + " files)"@
}

/// The closing line when directories are left out.
pub open spec fn more_line(n: nat) -> Seq<char> {
    "+ "@ + decimal(n) + " more directories"@
}

/// How many directories are shown.
pub open spec fn shown_dirs(n: nat) -> nat {
    if n > 5 {
        5
    } else {
        n
    }
}

fn top_dir_of(f: &str) -> (r: Option<String>)
    ensures
        opt_text(r) == top_dir(f@),
{
    let cs = chars_of(f);
    let mut k: usize = 0;
    while k < cs.len()
        invariant
            k <= cs.len(),
            cs@ == f@,
            forall|j: int| 0 <= j < k ==> cs@[j] != '/',
        decreases cs.len() - k,
    {
        if cs[k] == '/' {
            let mut d: Vec<char> = Vec::new();
            let mut i: usize = 0;
            while i < k
                invariant
                    i <= k < cs.len(),
                    d@ == cs@.take(i as int),
                decreases k - i,
            {
                d.push(cs[i]);
                i = i + 1;
                assert(d@ =~= cs@.take(i as int));
            }
            proof {
                assert(is_first_slash(f@, k as int));
                let c = choose|c: int| is_first_slash(f@, c);
                if c < k {
                    assert(f@[c] == '/');
                } else if c > k {
                    assert(f@[k as int] != '/');
                }
                assert(c == k);
            }
            return Some(string_from_chars(&d));
        }
        k = k + 1;
    }
    proof {
        if exists|c: int| is_first_slash(f@, c) {
            let c = choose|c: int| is_first_slash(f@, c);
            assert(f@[c] == '/');
        }
    }
    None
}

proof fn lemma_text_le_total(a: Seq<char>, b: Seq<char>)
    ensures
        text_le(a, b) || text_before(b, a),
{
    if a != b {
        lemma_text_before_total(a, b);
    }
}

proof fn lemma_text_le_trans(a: Seq<char>, b: Seq<char>, c: Seq<char>)
    requires
        text_le(a, b),
        text_le(b, c),
    ensures
        text_le(a, c),
{
    if a != b && b != c {
        lemma_text_before_trans(a, b, c);
    }
}

/// Inserts `x` into the sorted `out` after every text that does not sort
/// after it.
fn insert_sorted(out: &mut Vec<String>, x: String)
    requires
        sorted_texts(texts(old(out)@)),
    ensures
        sorted_texts(texts(final(out)@)),
        texts(final(out)@).to_multiset() == texts(old(out)@).to_multiset().insert(x@),
{
    broadcast use vstd::seq_lib::group_to_multiset_ensures;
    let xc = chars_of(x.as_str());
    let ghost o = texts(out@);
    let mut p: usize = 0;
    while p < out.len() && !crate::text::text_less_str(x.as_str(), out[p].as_str())
        invariant
            p <= out.len(),
            o == texts(out@),
            sorted_texts(o),
            forall|i: int| 0 <= i < p ==> text_le(o[i], x@),
        decreases out.len() - p,
    {
        proof {
            assert(o[p as int] == out@[p as int]@);
            lemma_text_le_total(o[p as int], x@);
            if !text_le(o[p as int], x@) {
                assert(text_before(x@, o[p as int]));
            }
        }
        p = p + 1;
    }
    proof {
        let r = o.insert(p as int, x@);
        if p < out.len() {
            assert(o[p as int] == out@[p as int]@);
            assert(text_before(x@, o[p as int]));
        }
        assert forall|i: int, j: int| 0 <= i < j < r.len() implies text_le(r[i], r[j]) by {
            if j < p {
                assert(r[i] == o[i] && r[j] == o[j]);
            } else if j == p {
                assert(r[i] == o[i]);
            } else if i < p {
                assert(r[i] == o[i] && r[j] == o[j - 1]);
                assert(text_le(o[p as int], o[j - 1]));
                lemma_text_le_trans(x@, o[p as int], o[j - 1]);
                lemma_text_le_trans(o[i], x@, o[j - 1]);
            } else if i == p {
                assert(r[j] == o[j - 1]);
                assert(text_le(o[p as int], o[j - 1]));
                lemma_text_le_trans(x@, o[p as int], o[j - 1]);
            } else {
                assert(r[i] == o[i - 1] && r[j] == o[j - 1]);
            }
        }
    }
    let ghost before = out@;
    out.insert(p, x);
    assert(texts(out@) =~= o.insert(p as int, xc@));
}

/// Index of `t` among `names`.
fn position_of(names: &Vec<String>, t: &str) -> (r: Option<usize>)
    ensures
        match r {
            Some(j) => j < names@.len() && names@[j as int]@ == t@,
            None => !texts(names@).contains(t@),
        },
{
    let mut j: usize = 0;
    while j < names.len()
        invariant
            j <= names.len(),
            forall|k: int| 0 <= k < j ==> names@[k]@ != t@,
        decreases names.len() - j,
    {
        if same_text(names[j].as_str(), t) {
            return Some(j);
        }
        j = j + 1;
    }
    proof {
        if texts(names@).contains(t@) {
            let k = choose|k: int| 0 <= k < texts(names@).len() && texts(names@)[k] == t@;
            assert(names@[k]@ == t@);
        }
    }
    None
}

/// Sorts the root files and counts the files of each top-level directory.
fn tally(files: &Vec<String>) -> (r: (Vec<String>, Vec<String>, Vec<usize>))
    ensures
        sorted_texts(texts(r.0@)),
        texts(r.0@).to_multiset() == root_files(texts(files@)).to_multiset(),
        texts(r.1@) == first_dirs(texts(files@)),
        r.2@.len() == r.1@.len(),
        forall|j: int| 0 <= j < r.1@.len() ==> r.2@[j] == dir_count(texts(files@), #[trigger] r.1@[j]@),
{
    broadcast use Seq::lemma_filter_push;
    broadcast use vstd::seq_lib::group_to_multiset_ensures;
    let ghost fs = texts(files@);
    let mut root: Vec<String> = Vec::new();
    let mut names: Vec<String> = Vec::new();
    let mut counts: Vec<usize> = Vec::new();
    let mut i: usize = 0;
    assert(fs.take(0) =~= Seq::<Seq<char>>::empty());
    assert(texts(root@) =~= Seq::<Seq<char>>::empty());
    assert(texts(names@) =~= Seq::<Seq<char>>::empty());
    proof {
        reveal(Seq::filter);
    }
    while i < files.len()
        invariant
            i <= files.len(),
            fs == texts(files@),
            sorted_texts(texts(root@)),
            texts(root@).to_multiset() == root_files(fs.take(i as int)).to_multiset(),
            texts(names@) == first_dirs(fs.take(i as int)),
            counts@.len() == names@.len(),
            forall|j: int| 0 <= j < names@.len() ==> #[trigger] counts@[j] == dir_count(fs.take(i as int), names@[j]@),
            forall|j: int| 0 <= j < names@.len() ==> #[trigger] counts@[j] <= i,
            forall|a: int, b: int| 0 <= a < b < names@.len() ==> names@[a]@ != names@[b]@,
        decreases files.len() - i,
    {
        let f = &files[i];
        let ghost prev = fs.take(i as int);
        let ghost next = fs.take(i + 1);
        assert(next.drop_last() =~= prev);
        assert(next.last() == f@);
        assert(next =~= prev.push(f@));
        proof {
            prev.lemma_filter_push(f@, root_pick());
        }
        match top_dir_of(f.as_str()) {
            None => {
                assert(root_pick()(f@));
                assert(root_files(next) == root_files(prev).push(f@));
                insert_sorted(&mut root, f.clone());
                proof {
                    vstd::seq_lib::to_multiset_build(root_files(prev), f@);
                }
                assert(texts(root@).to_multiset() == root_files(next).to_multiset());
                assert forall|j: int| 0 <= j < names@.len() implies #[trigger] counts@[j] == dir_count(next, names@[j]@) by {
                    assert(dir_count(next, names@[j]@) == dir_count(prev, names@[j]@));
                }
            },
            Some(t) => {
                assert(!root_pick()(f@));
                assert(root_files(next) == root_files(prev));
                let ghost old_counts = counts@;
                let ghost old_names = texts(names@);
                match position_of(&names, t.as_str()) {
                    Some(j) => {
                        let c = counts[j];
                        counts.set(j, c + 1);
                        assert(dir_count(next, t@) == dir_count(prev, t@) + 1);
                        assert(old_names.contains(t@)) by {
                            assert(old_names[j as int] == t@);
                        }
                        assert forall|k: int| 0 <= k < names@.len() implies #[trigger] counts@[k] == dir_count(next, names@[k]@) by {
                            if k != j {
                                assert(old_counts[k] == counts@[k]);
                                assert(names@[k]@ != t@);
                                assert(dir_count(next, names@[k]@) == dir_count(prev, names@[k]@));
                            }
                        }
                    },
                    None => {
                        names.push(t);
                        counts.push(1);
                        assert(texts(names@) =~= old_names.push(t@));
                        assert forall|a: int, b: int| 0 <= a < b < names@.len() implies names@[a]@ != names@[b]@ by {
                            if b == old_names.len() {
                                assert(old_names[a] == names@[a]@);
                            }
                        }
                        proof {
                            assert(dir_count(prev, t@) == 0) by {
                                lemma_dir_count_absent(prev, t@);
                            }
                            assert(dir_count(next, t@) == dir_count(prev, t@) + 1);
                        }
                        assert forall|k: int| 0 <= k < names@.len() implies #[trigger] counts@[k] == dir_count(next, names@[k]@) by {
                            if k < old_names.len() {
                                assert(old_counts[k] == counts@[k]);
                                assert(names@[k]@ == old_names[k]);
                                assert(names@[k]@ != t@);
                                assert(dir_count(next, names@[k]@) == dir_count(prev, names@[k]@));
                            } else {
                                assert(k == old_names.len());
                                assert(names@[k]@ == t@);
                                assert(counts@[k] == 1);
                                assert(dir_count(next, names@[k]@) == 1);
                            }
                        }
                    },
                }
            },
        }
        i = i + 1;
    }
    assert(fs.take(i as int) =~= fs);
    (root, names, counts)
}

/// A directory that is not among the first directories holds no file.
proof fn lemma_dir_count_absent(files: Seq<Seq<char>>, t: Seq<char>)
    requires
        !first_dirs(files).contains(t),
    ensures
        dir_count(files, t) == 0,
    decreases files.len(),
{
    if files.len() > 0 {
        let d = first_dirs(files.drop_last());
        if d.contains(t) {
            let k = choose|k: int| 0 <= k < d.len() && d[k] == t;
            match top_dir(files.last()) {
                Some(u) => {
                    if !d.contains(u) {
                        assert(d.push(u)[k] == t);
                    }
                },
                None => {},
            }
            assert(first_dirs(files).contains(t));
        }
        lemma_dir_count_absent(files.drop_last(), t);
        if top_dir(files.last()) == Some(t) {
            if !d.contains(t) {
                assert(d.push(t)[d.len() as int] == t);
            }
            assert(first_dirs(files).contains(t));
        }
    }
}

/// The directory names of ranked pairs.
pub open spec fn pair_names(v: Seq<(String, usize)>) -> Seq<Seq<char>> {
    v.map_values(|p: (String, usize)| p.0@)
}

/// `p` is a directory of the tally with its count.
pub open spec fn from_tally(names: Seq<String>, counts: Seq<usize>, p: (String, usize)) -> bool {
    exists|j: int| 0 <= j < names.len() && p.0@ == names[j]@ && p.1 == counts[j]
}

/// Orders directories by how many files they hold, largest first; among
/// equal counts the earlier directory stays first.
fn rank(names: &Vec<String>, counts: &Vec<usize>) -> (r: Vec<(String, usize)>)
    requires
        counts@.len() == names@.len(),
    ensures
        pair_names(r@).to_multiset() == texts(names@).to_multiset(),
        forall|i: int, j: int| 0 <= i < j < r@.len() ==> r@[i].1 >= r@[j].1,
        forall|i: int| 0 <= i < r@.len() ==> from_tally(names@, counts@, #[trigger] r@[i]),
{
    broadcast use vstd::seq_lib::group_to_multiset_ensures;
    let ghost nt = texts(names@);
    let mut r: Vec<(String, usize)> = Vec::new();
    let mut k: usize = 0;
    assert(pair_names(r@) =~= Seq::<Seq<char>>::empty());
    assert(nt.take(0) =~= Seq::<Seq<char>>::empty());
    while k < names.len()
        invariant
            k <= names.len(),
            counts@.len() == names@.len(),
            nt == texts(names@),
            pair_names(r@).to_multiset() == nt.take(k as int).to_multiset(),
            forall|i: int, j: int| 0 <= i < j < r@.len() ==> r@[i].1 >= r@[j].1,
            forall|i: int| 0 <= i < r@.len() ==> from_tally(names@, counts@, #[trigger] r@[i]),
        decreases names.len() - k,
    {
        let c = counts[k];
        let mut p: usize = 0;
        while p < r.len() && r[p].1 >= c
            invariant
                p <= r@.len(),
                forall|i: int| 0 <= i < p ==> r@[i].1 >= c,
            decreases r@.len() - p,
        {
            p = p + 1;
        }
        let ghost before = r@;
        let ghost pn = pair_names(r@);
        r.insert(p, (names[k].clone(), c));
        proof {
            assert(pair_names(r@) =~= pn.insert(p as int, nt[k as int]));
            assert(nt.take(k + 1) =~= nt.take(k as int).push(nt[k as int]));
            assert forall|i: int, j: int| 0 <= i < j < r@.len() implies r@[i].1 >= r@[j].1 by {
                if j < p {
                    assert(r@[i] == before[i] && r@[j] == before[j]);
                } else if j == p {
                    assert(r@[i] == before[i]);
                } else if i < p {
                    assert(r@[i] == before[i] && r@[j] == before[j - 1]);
                } else if i == p {
                    assert(r@[j] == before[j - 1]);
                    assert(before[p as int].1 < c);
                } else {
                    assert(r@[i] == before[i - 1] && r@[j] == before[j - 1]);
                }
            }
            assert forall|i: int| 0 <= i < r@.len() implies from_tally(names@, counts@, #[trigger] r@[i]) by {
                if i < p {
                    assert(r@[i] == before[i]);
                } else if i == p {
                    assert(r@[i].0@ == names@[k as int]@ && r@[i].1 == counts@[k as int]);
                } else {
                    assert(r@[i] == before[i - 1]);
                }
            }
            vstd::seq_lib::to_multiset_insert(pn, p as int, nt[k as int]);
            vstd::seq_lib::to_multiset_build(nt.take(k as int), nt[k as int]);
        }
        k = k + 1;
    }
    assert(nt.take(k as int) =~= nt);
    r
}

/// A summary of a list of files for display: the files at the root, sorted,
/// then the five largest top-level directories with their file counts, then
/// how many directories were left out, if any.
pub fn summarize_files(files: &Vec<String>) -> (r: Vec<String>)
    ensures
        ({
            let fs = texts(files@);
            let root = root_files(fs);
            let ds = first_dirs(fs);
            let n = shown_dirs(ds.len());
            let out = texts(r@);
            &&& out.len() == root.len() + n + if ds.len() > 5 { 1int } else { 0int }
            &&& sorted_texts(out.take(root.len() as int))
            &&& out.take(root.len() as int).to_multiset() == root.to_multiset()
            &&& exists|ranked: Seq<Seq<char>>| #[trigger] is_ranking(fs, ranked) && forall|i: int|
                0 <= i < n ==> out[root.len() + i] == dir_line(ranked[i], dir_count(fs, ranked[i]))
            &&& ds.len() > 5 ==> out.last() == more_line((ds.len() - 5) as nat)
        }),
{
    broadcast use vstd::seq_lib::group_to_multiset_ensures;
    let ghost fs = texts(files@);
    let (root, names, counts) = tally(files);
    let ranked = rank(&names, &counts);
    let ghost rn = pair_names(ranked@);
    proof {
        assert forall|i: int, j: int| 0 <= i < j < rn.len() implies dir_count(fs, rn[i]) >= dir_count(fs, rn[j]) by {
            assert(from_tally(names@, counts@, ranked@[i]));
            assert(from_tally(names@, counts@, ranked@[j]));
            let a = choose|a: int| 0 <= a < names@.len() && ranked@[i].0@ == names@[a]@ && ranked@[i].1 == counts@[a];
            let b = choose|b: int| 0 <= b < names@.len() && ranked@[j].0@ == names@[b]@ && ranked@[j].1 == counts@[b];
            assert(counts@[a] == dir_count(fs, names@[a]@));
            assert(counts@[b] == dir_count(fs, names@[b]@));
        }
        assert(is_ranking(fs, rn));
    }
    let mut out: Vec<String> = Vec::new();
    let mut i: usize = 0;
    while i < root.len()
        invariant
            i <= root.len(),
            texts(out@) == texts(root@).take(i as int),
        decreases root.len() - i,
    {
        let ghost before = texts(out@);
        out.push(root[i].clone());
        assert(texts(out@) =~= before.push(texts(root@)[i as int]));
        assert(texts(root@).take(i + 1) =~= texts(root@).take(i as int).push(texts(root@)[i as int]));
        i = i + 1;
    }
    assert(texts(root@).take(i as int) =~= texts(root@));
    let ghost nroot = texts(root@).len();
    let shown: usize = if ranked.len() > 5 { 5 } else { ranked.len() };
    assert(rn.len() == ranked@.len());
    assert(rn.to_multiset().len() == first_dirs(fs).to_multiset().len());
    assert(rn.len() == first_dirs(fs).len());
    assert(texts(root@).to_multiset().len() == root_files(fs).to_multiset().len());
    assert(nroot == root_files(fs).len());
    assert forall|j: int| 0 <= j < ranked@.len() implies ranked@[j].1 == dir_count(fs, #[trigger] rn[j]) by {
        assert(from_tally(names@, counts@, ranked@[j]));
        let a = choose|a: int| 0 <= a < names@.len() && ranked@[j].0@ == names@[a]@ && ranked@[j].1 == counts@[a];
        assert(counts@[a] == dir_count(fs, names@[a]@));
    }
    let mut k: usize = 0;
    while k < shown
        invariant
            k <= shown <= ranked@.len(),
            rn == pair_names(ranked@),
            texts(out@).len() == nroot + k,
            texts(out@).take(nroot as int) == texts(root@),
            forall|j: int| 0 <= j < ranked@.len() ==> ranked@[j].1 == dir_count(fs, #[trigger] rn[j]),
            forall|j: int| 0 <= j < k ==> texts(out@)[nroot + j] == dir_line(rn[j], dir_count(fs, rn[j])),
        decreases shown - k,
    {
        let mut line = ranked[k].0.clone();
        line.append("/ (");
        line.append(decimal_text(ranked[k].1 as u64).as_str());
        line.append(" files)");
        let ghost before = texts(out@);
        out.push(line);
        assert(texts(out@) =~= before.push(line@));
        assert(texts(out@).take(nroot as int) =~= before.take(nroot as int));
        k = k + 1;
    }
    if ranked.len() > 5 {
        let mut line = "+ ".to_owned();
        line.append(decimal_text((ranked.len() - 5) as u64).as_str());
        line.append(" more directories");
        let ghost before = texts(out@);
        out.push(line);
        assert(texts(out@) =~= before.push(line@));
        assert(texts(out@).take(nroot as int) =~= before.take(nroot as int));
    }
    out
}

/// Outcome of a copy operation. Failures are kept, with their messages, so
/// that a partial copy can be reported rather than a short count.
#[derive(Debug, PartialEq, Eq)]
pub struct CopyReport {
    pub copied: usize,
    /// (path, error message) for each entry that could not be copied,
    /// sorted.
    pub failed: Vec<(String, String)>,
}

/// The view of a list of string pairs.
pub open spec fn string_pairs(v: Seq<(String, String)>) -> Seq<(Seq<char>, Seq<char>)> {
    v.map_values(|p: (String, String)| (p.0@, p.1@))
}

/// Pairs in order: by the first text, then the second.
pub open spec fn pair_le(a: (Seq<char>, Seq<char>), b: (Seq<char>, Seq<char>)) -> bool {
    text_before(a.0, b.0) || (a.0 == b.0 && text_le(a.1, b.1))
}

/// Pairs sorted.
pub open spec fn sorted_pairs(s: Seq<(Seq<char>, Seq<char>)>) -> bool {
    forall|i: int, j: int| 0 <= i < j < s.len() ==> pair_le(s[i], s[j])
}

/// The outcome of copying one entry: its path, and the error when it failed.
pub type CopyOutcome = (String, Option<String>);

/// The failures among outcomes, in the order given.
pub open spec fn failures(v: Seq<CopyOutcome>) -> Seq<(Seq<char>, Seq<char>)>
    decreases v.len(),
{
    if v.len() == 0 {
        Seq::empty()
    } else {
        let rest = failures(v.drop_last());
        match v.last().1 {
            Some(e) => rest.push((v.last().0@, e@)),
            None => rest,
        }
    }
}

/// How many outcomes succeeded.
pub open spec fn successes(v: Seq<CopyOutcome>) -> nat
    decreases v.len(),
{
    if v.len() == 0 {
        0
    } else {
        successes(v.drop_last()) + if v.last().1 is None {
            1nat
        } else {
            0nat
        }
    }
}

proof fn lemma_pair_le_total(a: (Seq<char>, Seq<char>), b: (Seq<char>, Seq<char>))
    ensures
        pair_le(a, b) || pair_le(b, a),
{
    if a.0 != b.0 {
        lemma_text_before_total(a.0, b.0);
    } else {
        lemma_text_le_total(a.1, b.1);
    }
}

proof fn lemma_pair_le_trans(a: (Seq<char>, Seq<char>), b: (Seq<char>, Seq<char>), c: (Seq<char>, Seq<char>))
    requires
        pair_le(a, b),
        pair_le(b, c),
    ensures
        pair_le(a, c),
{
    if text_before(a.0, b.0) && text_before(b.0, c.0) {
        lemma_text_before_trans(a.0, b.0, c.0);
    } else if a.0 == b.0 && b.0 == c.0 {
        lemma_text_le_trans(a.1, b.1, c.1);
    }
}

proof fn lemma_pair_strict(a: (Seq<char>, Seq<char>), b: (Seq<char>, Seq<char>))
    requires
        !pair_le(a, b),
    ensures
        pair_le(b, a),
{
    lemma_pair_le_total(a, b);
}

fn pair_less_eq(a: &(String, String), b: &(String, String)) -> (r: bool)
    ensures
        r == pair_le((a.0@, a.1@), (b.0@, b.1@)),
{
    if crate::text::text_less_str(a.0.as_str(), b.0.as_str()) {
        true
    } else if same_text(a.0.as_str(), b.0.as_str()) {
        same_text(a.1.as_str(), b.1.as_str()) || crate::text::text_less_str(a.1.as_str(), b.1.as_str())
    } else {
        false
    }
}

/// The report of a copy from the outcome of each entry: the successes
/// counted, the failures sorted (by path, then message).
pub fn copy_report(outcomes: Vec<CopyOutcome>) -> (r: CopyReport)
    ensures
        r.copied == successes(outcomes@),
        sorted_pairs(string_pairs(r.failed@)),
        string_pairs(r.failed@).to_multiset() == failures(outcomes@).to_multiset(),
        r.copied + r.failed@.len() == outcomes@.len(),
{
    broadcast use vstd::seq_lib::group_to_multiset_ensures;
    let mut copied: usize = 0;
    let mut failed: Vec<(String, String)> = Vec::new();
    let mut i: usize = 0;
    assert(outcomes@.take(0) =~= Seq::<CopyOutcome>::empty());
    assert(string_pairs(failed@) =~= Seq::<(Seq<char>, Seq<char>)>::empty());
    while i < outcomes.len()
        invariant
            i <= outcomes.len(),
            copied == successes(outcomes@.take(i as int)),
            copied <= i,
            sorted_pairs(string_pairs(failed@)),
            string_pairs(failed@).to_multiset() == failures(outcomes@.take(i as int)).to_multiset(),
        decreases outcomes.len() - i,
    {
        let ghost prev = outcomes@.take(i as int);
        assert(outcomes@.take(i + 1).drop_last() =~= prev);
        match &outcomes[i].1 {
            None => {
                copied = copied + 1;
            },
            Some(e) => {
                let x = (outcomes[i].0.clone(), e.clone());
                let ghost xv = (x.0@, x.1@);
                let ghost o = string_pairs(failed@);
                let mut p: usize = 0;
                while p < failed.len() && pair_less_eq(&failed[p], &x)
                    invariant
                        p <= failed@.len(),
                        o == string_pairs(failed@),
                        xv == (x.0@, x.1@),
                        forall|k: int| 0 <= k < p ==> pair_le(o[k], xv),
                    decreases failed@.len() - p,
                {
                    p = p + 1;
                }
                proof {
                    let r = o.insert(p as int, xv);
                    if p < failed@.len() {
                        lemma_pair_strict(o[p as int], xv);
                    }
                    assert forall|a: int, b: int| 0 <= a < b < r.len() implies pair_le(r[a], r[b]) by {
                        if b < p {
                            assert(r[a] == o[a] && r[b] == o[b]);
                        } else if b == p {
                            assert(r[a] == o[a]);
                        } else if a < p {
                            assert(r[a] == o[a] && r[b] == o[b - 1]);
                            if b - 1 > p {
                                lemma_pair_le_trans(xv, o[p as int], o[b - 1]);
                            }
                            lemma_pair_le_trans(o[a], xv, o[b - 1]);
                        } else if a == p {
                            assert(r[b] == o[b - 1]);
                            if b - 1 > p {
                                lemma_pair_le_trans(xv, o[p as int], o[b - 1]);
                            }
                        } else {
                            assert(r[a] == o[a - 1] && r[b] == o[b - 1]);
                        }
                    }
                    vstd::seq_lib::to_multiset_insert(o, p as int, xv);
                    vstd::seq_lib::to_multiset_build(failures(prev), xv);
                }
                failed.insert(p, x);
                assert(string_pairs(failed@) =~= o.insert(p as int, xv));
            },
        }
        i = i + 1;
    }
    assert(outcomes@.take(i as int) =~= outcomes@);
    proof {
        lemma_outcomes_accounted(outcomes@);
        assert(string_pairs(failed@).len() == failed@.len());
        assert(string_pairs(failed@).to_multiset().len() == failures(outcomes@).to_multiset().len());
    }
    CopyReport { copied, failed }
}

/// The records of a copy: `copied` with the count, then one `copyfail`
/// record per failure.
pub fn emit_copy_report(report: &CopyReport) -> (r: Vec<Vec<String>>)
    ensures
        r@.len() == report.failed@.len() + 1,
        texts(r@[0]@) == seq!["copied"@, decimal(report.copied as nat)],
        forall|i: int| 0 <= i < report.failed@.len() ==> texts(#[trigger] r@[i + 1]@) == seq![
            "copyfail"@,
            report.failed@[i].0@,
            report.failed@[i].1@,
        ],
{
    let mut first: Vec<String> = Vec::new();
    first.push("copied".to_owned());
    first.push(decimal_text(report.copied as u64));
    assert(texts(first@) =~= seq!["copied"@, decimal(report.copied as nat)]);
    let mut r: Vec<Vec<String>> = Vec::new();
    r.push(first);
    let mut i: usize = 0;
    while i < report.failed.len()
        invariant
            i <= report.failed@.len(),
            r@.len() == i + 1,
            texts(r@[0]@) == seq!["copied"@, decimal(report.copied as nat)],
            forall|k: int| 0 <= k < i ==> texts(#[trigger] r@[k + 1]@) == seq![
                "copyfail"@,
                report.failed@[k].0@,
                report.failed@[k].1@,
            ],
        decreases report.failed@.len() - i,
    {
        let mut rec: Vec<String> = Vec::new();
        rec.push("copyfail".to_owned());
        rec.push(report.failed[i].0.clone());
        rec.push(report.failed[i].1.clone());
        assert(texts(rec@) =~= seq!["copyfail"@, report.failed@[i as int].0@, report.failed@[i as int].1@]);
        r.push(rec);
        i = i + 1;
    }
    r
}

/// The warning about files that could not be copied: a count, the first
/// five as `path: message`, then how many more there were. No lines when
/// everything was copied.
pub fn warn_copy_failures(report: &CopyReport) -> (r: Vec<String>)
    ensures
        ({
            let n = report.failed@.len();
            let shown: int = if n > 5 { 5 } else { n as int };
            &&& n == 0 ==> r@.len() == 0
            &&& n > 0 ==> {
                &&& r@.len() == 1 + shown + if n > 5 { 1int } else { 0int }
                &&& r@[0]@ == "⚠ "@ + decimal(n) + " file(s) could not be copied"@
                &&& forall|i: int| 0 <= i < shown ==> #[trigger] r@[i + 1]@ == report.failed@[i].0@ + ": "@
                    + report.failed@[i].1@
                &&& n > 5 ==> r@[shown + 1]@ == "+ "@ + decimal((n - 5) as nat) + " more"@
            }
        }),
{
    let mut r: Vec<String> = Vec::new();
    let n = report.failed.len();
    if n == 0 {
        return r;
    }
    r.push(cat3("⚠ ", decimal_text(n as u64).as_str(), " file(s) could not be copied"));
    let shown: usize = if n > 5 { 5 } else { n };
    let mut i: usize = 0;
    while i < shown
        invariant
            i <= shown <= n,
            n == report.failed@.len(),
            r@.len() == i + 1,
            r@[0]@ == "⚠ "@ + decimal(n as nat) + " file(s) could not be copied"@,
            forall|k: int| 0 <= k < i ==> #[trigger] r@[k + 1]@ == report.failed@[k].0@ + ": "@ + report.failed@[k].1@,
        decreases shown - i,
    {
        r.push(cat3(report.failed[i].0.as_str(), ": ", report.failed[i].1.as_str()));
        i = i + 1;
    }
    if n > 5 {
        r.push(cat3("+ ", decimal_text((n - 5) as u64).as_str(), " more"));
    }
    r
}

/// Every entry is either copied or reported as failed: the successes and
/// the failures together are as many as the entries.
pub proof fn lemma_outcomes_accounted(v: Seq<CopyOutcome>)
    ensures
        successes(v) + failures(v).len() == v.len(),
    decreases v.len(),
{
    if v.len() > 0 {
        lemma_outcomes_accounted(v.drop_last());
    }
}

} // verus!
