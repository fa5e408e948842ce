//! Choosing files by pattern: the `copy` patterns of the configuration and
//! the path filters of `pull` and `push`.

use vstd::prelude::*;
use crate::text::{chars_of, has_prefix, has_suffix, find_from, is_prefix, is_suffix, occurs_at, texts};

verus! {

/// Reads the rest `p` of a text cut at `sep`, given the pieces `acc`
/// already closed and the piece `cur` in progress.
pub open spec fn scan_pieces(p: Seq<char>, sep: char, acc: Seq<Seq<char>>, cur: Seq<char>) -> Seq<
    Seq<char>,
>
    decreases p.len(),
{
    if p.len() == 0 {
        acc.push(cur)
    } else if p[0] == sep {
        scan_pieces(p.skip(1), sep, acc.push(cur), Seq::empty())
    } else {
        scan_pieces(p.skip(1), sep, acc, cur.push(p[0]))
    }
}

/// A text cut at every `sep` (`str::split`): always at least one piece.
pub open spec fn pieces(s: Seq<char>, sep: char) -> Seq<Seq<char>> {
    scan_pieces(s, sep, Seq::empty(), Seq::empty())
}

/// The views of a list of character vectors.
pub open spec fn views(v: Seq<Vec<char>>) -> Seq<Seq<char>> {
    v.map_values(|x: Vec<char>| x@)
}

proof fn lemma_scan_pieces_len(p: Seq<char>, sep: char, acc: Seq<Seq<char>>, cur: Seq<char>)
    ensures
        scan_pieces(p, sep, acc, cur).len() > acc.len(),
    decreases p.len(),
{
    if p.len() > 0 {
        if p[0] == sep {
            lemma_scan_pieces_len(p.skip(1), sep, acc.push(cur), Seq::empty());
        } else {
            lemma_scan_pieces_len(p.skip(1), sep, acc, cur.push(p[0]));
        }
    }
}

/// Cutting a text always gives at least one piece.
pub proof fn lemma_pieces_nonempty(s: Seq<char>, sep: char)
    ensures
        pieces(s, sep).len() >= 1,
{
    lemma_scan_pieces_len(s, sep, Seq::empty(), Seq::empty());
}

/// Cuts `s` at every `sep`.
pub fn split_at_char(s: &Vec<char>, sep: char) -> (r: Vec<Vec<char>>)
    ensures
        views(r@) == pieces(s@, sep),
        r.len() >= 1,
{
    let mut acc: Vec<Vec<char>> = Vec::new();
    let mut cur: Vec<char> = Vec::new();
    let mut i: usize = 0;
    assert(s@.skip(0) =~= s@);
    assert(cur@ =~= Seq::<char>::empty());
    assert(views(acc@) =~= Seq::<Seq<char>>::empty());
    while i < s.len()
        invariant
            i <= s.len(),
            pieces(s@, sep) == scan_pieces(s@.skip(i as int), sep, views(acc@), cur@),
        decreases s.len() - i,
    {
        assert(s@.skip(i as int).skip(1) =~= s@.skip(i + 1));
        if s[i] == sep {
            let done = cur;
            cur = Vec::new();
            let ghost before = acc@;
            let ghost last = done@;
            acc.push(done);
            assert(acc@ == before.push(acc@.last()));
            assert(views(acc@) =~= views(before).push(last));
            assert(cur@ =~= Seq::<char>::empty());
        } else {
            cur.push(s[i]);
        }
        i = i + 1;
    }
    assert(s@.skip(i as int) =~= Seq::<char>::empty());
    let ghost before = acc@;
    let ghost last = cur@;
    acc.push(cur);
    assert(acc@ == before.push(acc@.last()));
    assert(views(acc@) =~= views(before).push(last));
    proof {
        lemma_scan_pieces_len(s@, sep, Seq::empty(), Seq::empty());
    }
    acc
}

/// The non-empty `parts`, each found in `text` in order and without
/// overlapping, the first at or after `pos` and the last ending at or
/// before `end`.
pub open spec fn found_between(text: Seq<char>, parts: Seq<Seq<char>>, pos: int, end: int) -> bool
    decreases parts.len(),
{
    if parts.len() == 0 {
        true
    } else if parts[0].len() == 0 {
        found_between(text, parts.skip(1), pos, end)
    } else {
        exists|k: int|
            pos <= k && k + parts[0].len() <= end && occurs_at(text, parts[0], k) && found_between(
                text,
                parts.skip(1),
                k + parts[0].len(),
                end,
            )
    }
}

/// Whether `text` matches a pattern in which each `*` stands for any run of
/// characters, possibly empty. The pattern is cut at its stars; with no
/// star the text must equal the pattern. Otherwise the text is the first
/// piece, then the pieces in between in order, then the last piece, with
/// runs of any characters between them: the first piece starts the text,
/// the last piece ends it, and no two pieces overlap.
pub open spec fn glob_matches(pattern: Seq<char>, text: Seq<char>) -> bool {
    let parts = pieces(pattern, '*');
    if parts.len() == 1 {
        pattern == text
    } else {
        &&& parts[0].len() + parts.last().len() <= text.len()
        &&& is_prefix(parts[0], text)
        &&& is_suffix(parts.last(), text)
        &&& found_between(
            text,
            parts.subrange(1, parts.len() - 1),
            parts[0].len() as int,
            text.len() - parts.last().len(),
        )
    }
}

proof fn lemma_found_between_weaken(text: Seq<char>, parts: Seq<Seq<char>>, p1: int, p2: int, end: int)
    requires
        p1 <= p2,
        found_between(text, parts, p2, end),
    ensures
        found_between(text, parts, p1, end),
    decreases parts.len(),
{
    if parts.len() > 0 && parts[0].len() == 0 {
        lemma_found_between_weaken(text, parts.skip(1), p1, p2, end);
    }
}

/// Glob matching with the `*` wildcard.
pub fn glob_match(pattern: &Vec<char>, text: &Vec<char>) -> (r: bool)
    ensures
        r == glob_matches(pattern@, text@),
{
    let parts = split_at_char(pattern, '*');
    let ghost ps = views(parts@);
    let n = parts.len();
    if n == 1 {
        return same_chars(pattern, text);
    }
    let first = &parts[0];
    assert(ps[0] == first@);
    let last = &parts[n - 1];
    assert(ps.last() == last@);
    if first.len() > text.len() || last.len() > text.len() - first.len() {
        return false;
    }
    if !has_prefix(text, first) {
        return false;
    }
    if !has_suffix(text, last) {
        return false;
    }
    let end: usize = text.len() - last.len();
    let mut pos: usize = first.len();
    let ghost mids = ps.subrange(1, n - 1);
    let mut i: usize = 1;
    assert(mids.skip(0) =~= mids);
    assert(glob_matches(pattern@, text@) == found_between(text@, mids, first@.len() as int, end as int));
    while i < n - 1
        invariant
            n == parts.len(),
            n >= 2,
            ps == views(parts@),
            ps == pieces(pattern@, '*'),
            first@ == ps[0],
            mids == ps.subrange(1, n - 1),
            1 <= i <= n - 1,
            pos <= end <= text.len(),
            glob_matches(pattern@, text@) == found_between(
                text@,
                mids.skip(i - 1),
                pos as int,
                end as int,
            ),
        decreases n - 1 - i,
    {
        let part = &parts[i];
        let ghost rest = mids.skip(i - 1);
        assert(rest[0] == part@);
        assert(rest.skip(1) =~= mids.skip(i as int));
        if part.len() > 0 {
            match find_from(text, part, pos) {
                Some(k) => {
                    if k > end || part.len() > end - k {
                        proof {
                            assert forall|k2: int|
                                pos <= k2 && k2 + part@.len() <= end && occurs_at(text@, part@, k2)
                                implies !found_between(text@, rest.skip(1), k2 + part@.len(), end as int) by {
                                if k2 < k {
                                    assert(!occurs_at(text@, part@, k2));
                                }
                            }
                        }
                        assert(!found_between(text@, rest, pos as int, end as int));
                        return false;
                    }
                    proof {
                        assert forall|k2: int|
                            pos <= k2 && k2 + part@.len() <= end && occurs_at(text@, part@, k2)
                                && found_between(text@, rest.skip(1), k2 + part@.len(), end as int)
                            implies found_between(text@, rest.skip(1), k + part@.len(), end as int) by {
                            if k2 < k {
                                assert(!occurs_at(text@, part@, k2));
                            }
                            lemma_found_between_weaken(
                                text@,
                                rest.skip(1),
                                k + part@.len(),
                                k2 + part@.len(),
                                end as int,
                            );
                        }
                    }
                    pos = k + part.len();
                },
                None => {
                    assert(!found_between(text@, rest, pos as int, end as int));
                    return false;
                },
            }
        }
        i = i + 1;
    }
    assert(mids.skip(i - 1) =~= Seq::<Seq<char>>::empty());
    true
}

/// The pieces after the first, each with the separator in front:
/// `sep + ps[0] + sep + ps[1] + ...`.
pub open spec fn tail_joined(ps: Seq<Seq<char>>, sep: char) -> Seq<char>
    decreases ps.len(),
{
    if ps.len() == 0 {
        Seq::empty()
    } else {
        seq![sep] + ps[0] + tail_joined(ps.skip(1), sep)
    }
}

/// Pieces joined with the separator between them.
pub open spec fn joined(ps: Seq<Seq<char>>, sep: char) -> Seq<char> {
    if ps.len() == 0 {
        Seq::empty()
    } else {
        ps[0] + tail_joined(ps.skip(1), sep)
    }
}

proof fn lemma_tail_joined_push(ps: Seq<Seq<char>>, sep: char, x: Seq<char>)
    ensures
        tail_joined(ps.push(x), sep) == tail_joined(ps, sep) + seq![sep] + x,
    decreases ps.len(),
{
    if ps.len() == 0 {
        assert(ps.push(x).skip(1) =~= Seq::<Seq<char>>::empty());
        assert(ps.push(x)[0] == x);
        assert(tail_joined(Seq::<Seq<char>>::empty(), sep) == Seq::<char>::empty());
        assert(tail_joined(ps, sep) == Seq::<char>::empty());
        assert(tail_joined(ps.push(x), sep) =~= seq![sep] + x);
    } else {
        assert(ps.push(x).skip(1) =~= ps.skip(1).push(x));
        lemma_tail_joined_push(ps.skip(1), sep, x);
        assert(tail_joined(ps.push(x), sep) =~= tail_joined(ps, sep) + seq![sep] + x);
    }
}

proof fn lemma_joined_push(ps: Seq<Seq<char>>, sep: char, x: Seq<char>)
    requires
        ps.len() > 0,
    ensures
        joined(ps.push(x), sep) == joined(ps, sep) + seq![sep] + x,
{
    assert(ps.push(x).skip(1) =~= ps.skip(1).push(x));
    lemma_tail_joined_push(ps.skip(1), sep, x);
    assert(joined(ps.push(x), sep) =~= joined(ps, sep) + seq![sep] + x);
}

proof fn lemma_scan_joined(p: Seq<char>, sep: char, acc: Seq<Seq<char>>, cur: Seq<char>)
    ensures
        joined(scan_pieces(p, sep, acc, cur), sep) == joined(acc.push(cur), sep) + p,
    decreases p.len(),
{
    if p.len() == 0 {
        assert(joined(acc.push(cur), sep) + p =~= joined(acc.push(cur), sep));
    } else if p[0] == sep {
        lemma_scan_joined(p.skip(1), sep, acc.push(cur), Seq::empty());
        lemma_joined_push(acc.push(cur), sep, Seq::empty());
        assert(joined(acc.push(cur), sep) + seq![sep] + Seq::<char>::empty() + p.skip(1) =~= joined(acc.push(cur), sep) + p);
    } else {
        lemma_scan_joined(p.skip(1), sep, acc, cur.push(p[0]));
        if acc.len() == 0 {
            assert(acc.push(cur.push(p[0])).skip(1) =~= Seq::<Seq<char>>::empty());
            assert(acc.push(cur).skip(1) =~= Seq::<Seq<char>>::empty());
            assert(joined(acc.push(cur.push(p[0])), sep) + p.skip(1) =~= joined(acc.push(cur), sep) + p);
        } else {
            lemma_joined_push(acc, sep, cur.push(p[0]));
            lemma_joined_push(acc, sep, cur);
            assert(joined(acc.push(cur.push(p[0])), sep) + p.skip(1) =~= joined(acc.push(cur), sep) + p);
        }
    }
}

proof fn lemma_found_tail(text: Seq<char>, mids: Seq<Seq<char>>, pos: int, end: int)
    requires
        0 <= pos <= end <= text.len(),
        text.subrange(pos, end) == tail_joined(mids, '*') + seq!['*'],
    ensures
        found_between(text, mids, pos, end),
    decreases mids.len(),
{
    if mids.len() > 0 {
        let m = mids[0];
        let next = pos + 1 + m.len();
        let rest = tail_joined(mids.skip(1), '*') + seq!['*'];
        assert(tail_joined(mids, '*') + seq!['*'] =~= seq!['*'] + m + rest);
        let whole = text.subrange(pos, end);
        assert(whole.len() == end - pos);
        assert(whole.len() == 1 + m.len() + rest.len());
        assert(text.subrange(next, end) =~= rest) by {
            assert forall|i: int| 0 <= i < end - next implies text.subrange(next, end)[i] == rest[i] by {
                assert(whole[1 + m.len() + i] == text[next + i]);
                assert(whole[1 + m.len() + i] == rest[i]);
            }
        }
        lemma_found_tail(text, mids.skip(1), next, end);
        if m.len() > 0 {
            assert(occurs_at(text, m, pos + 1)) by {
                assert forall|i: int| 0 <= i < m.len() implies text.subrange(pos + 1, pos + 1 + m.len())[i] == m[i] by {
                    assert(whole[1 + i] == text[pos + 1 + i]);
                    assert(whole[1 + i] == m[i]);
                }
                assert(text.subrange(pos + 1, pos + 1 + m.len()) =~= m);
            }
            lemma_found_between_weaken(text, mids.skip(1), next, next, end);
        } else {
            lemma_found_between_weaken(text, mids.skip(1), pos, next, end);
        }
    }
}

/// A pattern matches its own text: each `*` can stand for a `*`.
pub proof fn lemma_glob_matches_itself(pattern: Seq<char>)
    ensures
        glob_matches(pattern, pattern),
{
    let parts = pieces(pattern, '*');
    lemma_pieces_nonempty(pattern, '*');
    lemma_scan_joined(pattern, '*', Seq::empty(), Seq::empty());
    assert(Seq::<Seq<char>>::empty().push(Seq::<char>::empty()).skip(1) =~= Seq::<Seq<char>>::empty());
    assert(joined(parts, '*') =~= pattern);
    if parts.len() >= 2 {
        let n = parts.len() as int;
        let first = parts[0];
        let last = parts[n - 1];
        let mids = parts.subrange(1, n - 1);
        assert(parts.skip(1) =~= mids.push(last));
        lemma_tail_joined_push(mids, '*', last);
        assert(pattern =~= first + (tail_joined(mids, '*') + seq!['*']) + last);
        let end = pattern.len() - last.len();
        assert(pattern.take(first.len() as int) =~= first);
        assert(pattern.skip(end) =~= last);
        assert(pattern.subrange(first.len() as int, end) =~= tail_joined(mids, '*') + seq!['*']);
        lemma_found_tail(pattern, mids, first.len() as int, end);
    }
}

/// The `copy` pattern rule in the form `str` code states it: a file is
/// chosen when it lies below the pattern's directory, when the pattern has
/// a `*` and glob-matches it, or when it is the pattern itself.
pub proof fn lemma_copy_pattern_forms(pattern: Seq<char>, file: Seq<char>)
    ensures
        copy_pattern_matches(pattern, file) <==> ({
            let p = trim_slashes(pattern);
            ||| is_prefix(p.push('/'), file)
            ||| (p.contains('*') && glob_matches(p, file))
            ||| file == p
        }),
{
    lemma_glob_matches_itself(trim_slashes(pattern));
}

fn same_chars(a: &Vec<char>, b: &Vec<char>) -> (r: bool)
    ensures
        r == (a@ == b@),
{
    if a.len() != b.len() {
        return false;
    }
    let mut i: usize = 0;
    while i < a.len()
        invariant
            a.len() == b.len(),
            i <= a.len(),
            forall|j: int| 0 <= j < i ==> a@[j] == b@[j],
        decreases a.len() - i,
    {
        if a[i] != b[i] {
            assert(a@[i as int] != b@[i as int]);
            return false;
        }
        i = i + 1;
    }
    assert(a@ =~= b@);
    true
}


/// `p` without its trailing slashes (`str::trim_end_matches('/')`).
pub open spec fn trim_slashes(p: Seq<char>) -> Seq<char>
    decreases p.len(),
{
    if p.len() > 0 && p.last() == '/' {
        trim_slashes(p.drop_last())
    } else {
        p
    }
}

/// Whether `file` is chosen by one `copy` pattern: a directory pattern
/// (after trailing slashes are dropped) takes everything below it; a
/// pattern with `*` takes what it glob-matches; any other pattern takes the
/// file of exactly that name.
pub open spec fn copy_pattern_matches(pattern: Seq<char>, file: Seq<char>) -> bool {
    let p = trim_slashes(pattern);
    ||| is_prefix(p.push('/'), file)
    ||| if p.contains('*') {
        glob_matches(p, file)
    } else {
        file == p
    }
}

/// Whether some pattern of `patterns` chooses `file`.
pub open spec fn chosen_by_patterns(patterns: Seq<Seq<char>>, file: Seq<char>) -> bool {
    exists|i: int| 0 <= i < patterns.len() && copy_pattern_matches(patterns[i], file)
}

/// Whether the path filter `path` (after trailing slashes are dropped) keeps
/// `file`: the file itself, or anything below it.
pub open spec fn path_filter_keeps(path: Seq<char>, file: Seq<char>) -> bool {
    let p = trim_slashes(path);
    file == p || is_prefix(p.push('/'), file)
}

/// Whether some filter of `paths` keeps `file`.
pub open spec fn kept_by_paths(paths: Seq<Seq<char>>, file: Seq<char>) -> bool {
    exists|i: int| 0 <= i < paths.len() && path_filter_keeps(paths[i], file)
}

fn trim_trailing_slashes(p: &Vec<char>) -> (r: Vec<char>)
    ensures
        r@ == trim_slashes(p@),
{
    let mut n: usize = p.len();
    assert(p@.take(n as int) =~= p@);
    while n > 0 && p[n - 1] == '/'
        invariant
            n <= p.len(),
            trim_slashes(p@) == trim_slashes(p@.take(n as int)),
        decreases n,
    {
        assert(p@.take(n as int).drop_last() =~= p@.take(n - 1));
        n = n - 1;
    }
    let mut r: Vec<char> = Vec::new();
    let mut i: usize = 0;
    while i < n
        invariant
            i <= n <= p.len(),
            r@ == p@.take(i as int),
        decreases n - i,
    {
        r.push(p[i]);
        i = i + 1;
        assert(r@ =~= p@.take(i as int));
    }
    r
}

fn contains_char(s: &Vec<char>, c: char) -> (r: bool)
    ensures
        r == s@.contains(c),
{
    let mut i: usize = 0;
    while i < s.len()
        invariant
            i <= s.len(),
            forall|j: int| 0 <= j < i ==> s@[j] != c,
        decreases s.len() - i,
    {
        if s[i] == c {
            assert(s@[i as int] == c);
            return true;
        }
        i = i + 1;
    }
    false
}

fn with_slash(p: &Vec<char>) -> (r: Vec<char>)
    ensures
        r@ == p@.push('/'),
{
    let mut r: Vec<char> = Vec::new();
    let mut i: usize = 0;
    while i < p.len()
        invariant
            i <= p.len(),
            r@ == p@.take(i as int),
        decreases p.len() - i,
    {
        r.push(p[i]);
        i = i + 1;
        assert(r@ =~= p@.take(i as int));
    }
    assert(p@.take(i as int) =~= p@);
    r.push('/');
    r
}

fn pattern_matches(pattern: &str, file: &Vec<char>) -> (r: bool)
    ensures
        r == copy_pattern_matches(pattern@, file@),
{
    let p = trim_trailing_slashes(&chars_of(pattern));
    let dir = with_slash(&p);
    if has_prefix(file, &dir) {
        return true;
    }
    if contains_char(&p, '*') {
        return glob_match(&p, file);
    }
    same_chars(file, &p)
}

fn filter_keeps(path: &str, file: &Vec<char>) -> (r: bool)
    ensures
        r == path_filter_keeps(path@, file@),
{
    let p = trim_trailing_slashes(&chars_of(path));
    if same_chars(file, &p) {
        return true;
    }
    let dir = with_slash(&p);
    has_prefix(file, &dir)
}

/// The ignored files chosen by the `copy` patterns, in their listed order;
/// `ignored` is the list of files git ignores in the primary worktree.
pub fn matching_files(ignored: &Vec<String>, patterns: &Vec<String>) -> (r: Vec<String>)
    ensures
        texts(r@) == texts(ignored@).filter(|f: Seq<char>| chosen_by_patterns(texts(patterns@), f)),
{
    let ghost pats = texts(patterns@);
    let ghost pred = |f: Seq<char>| chosen_by_patterns(pats, f);
    let ghost all = texts(ignored@);
    let mut out: Vec<String> = Vec::new();
    let mut i: usize = 0;
    assert(all.take(0).filter(pred) =~= Seq::<Seq<char>>::empty()) by {
        reveal(Seq::filter);
    }
    while i < ignored.len()
        invariant
            i <= ignored.len(),
            pats == texts(patterns@),
            pred == (|f: Seq<char>| chosen_by_patterns(pats, f)),
            all == texts(ignored@),
            texts(out@) == all.take(i as int).filter(pred),
        decreases ignored.len() - i,
    {
        let file = chars_of(ignored[i].as_str());
        let mut hit = false;
        let mut j: usize = 0;
        while j < patterns.len()
            invariant
                j <= patterns.len(),
                pats == texts(patterns@),
                file@ == all[i as int],
                i < ignored.len(),
                all == texts(ignored@),
                hit == exists|k: int| 0 <= k < j && copy_pattern_matches(pats[k], file@),
            decreases patterns.len() - j,
        {
            if pattern_matches(patterns[j].as_str(), &file) {
                assert(copy_pattern_matches(pats[j as int], file@));
                hit = true;
            }
            j = j + 1;
        }
        proof {
            reveal(Seq::filter);
            assert(all.take(i + 1).drop_last() =~= all.take(i as int));
            assert(all.take(i + 1).last() == all[i as int]);
        }
        if hit {
            let ghost before = out@;
            out.push(ignored[i].clone());
            assert(texts(out@) =~= texts(before).push(all[i as int]));
        }
        i = i + 1;
    }
    assert(all.take(i as int) =~= all);
    out
}

/// Filters files by path prefixes: with no paths every file stays;
/// otherwise a file stays when some path names it or a directory above it.
pub fn filter_by_paths(files: Vec<String>, paths: &Vec<String>) -> (r: Vec<String>)
    ensures
        paths.len() == 0 ==> r@ == files@,
        paths.len() > 0 ==> texts(r@) == texts(files@).filter(
            |f: Seq<char>| kept_by_paths(texts(paths@), f),
        ),
{
    if paths.len() == 0 {
        return files;
    }
    let ghost ps = texts(paths@);
    let ghost pred = |f: Seq<char>| kept_by_paths(ps, f);
    let ghost all = texts(files@);
    let mut out: Vec<String> = Vec::new();
    let mut i: usize = 0;
    assert(all.take(0).filter(pred) =~= Seq::<Seq<char>>::empty()) by {
        reveal(Seq::filter);
    }
    while i < files.len()
        invariant
            i <= files.len(),
            ps == texts(paths@),
            pred == (|f: Seq<char>| kept_by_paths(ps, f)),
            all == texts(files@),
            texts(out@) == all.take(i as int).filter(pred),
        decreases files.len() - i,
    {
        let file = chars_of(files[i].as_str());
        let mut hit = false;
        let mut j: usize = 0;
        while j < paths.len()
            invariant
                j <= paths.len(),
                ps == texts(paths@),
                file@ == all[i as int],
                i < files.len(),
                all == texts(files@),
                hit == exists|k: int| 0 <= k < j && path_filter_keeps(ps[k], file@),
            decreases paths.len() - j,
        {
            if filter_keeps(paths[j].as_str(), &file) {
                assert(path_filter_keeps(ps[j as int], file@));
                hit = true;
            }
            j = j + 1;
        }
        proof {
            reveal(Seq::filter);
            assert(all.take(i + 1).drop_last() =~= all.take(i as int));
            assert(all.take(i + 1).last() == all[i as int]);
        }
        if hit {
            let ghost before = out@;
            out.push(files[i].clone());
            assert(texts(out@) =~= texts(before).push(all[i as int]));
        }
        i = i + 1;
    }
    assert(all.take(i as int) =~= all);
    out
}

} // verus!
