//! Hook command templates and their variables `{{path}}`, `{{branch}}`,
//! `{{id}}` and `{{repo}}`.

use vstd::prelude::*;
use crate::text::{chars_of, string_from_chars, matches_at, is_prefix};

verus! {

/// `s` with every occurrence of `pat` replaced by `with`, scanning from the
/// left and never overlapping (`str::replace`, for a non-empty `pat`).
pub open spec fn replaced(s: Seq<char>, pat: Seq<char>, with: Seq<char>) -> Seq<char>
    decreases s.len(),
{
    if s.len() == 0 {
        Seq::empty()
    } else if pat.len() > 0 && is_prefix(pat, s) {
        with + replaced(s.skip(pat.len() as int), pat, with)
    } else {
        seq![s[0]] + replaced(s.skip(1), pat, with)
    }
}

/// Replaces every occurrence of `pat` in `s` by `with`.
pub fn replace_all(s: &str, pat: &str, with: &str) -> (r: String)
    requires
        pat@.len() > 0,
    ensures
        r@ == replaced(s@, pat@, with@),
{
    let cs = chars_of(s);
    let ps = chars_of(pat);
    let ws = chars_of(with);
    let mut out: Vec<char> = Vec::new();
    let mut i: usize = 0;
    assert(cs@.skip(0) =~= cs@);
    while i < cs.len()
        invariant
            i <= cs.len(),
            ps@.len() > 0,
            ps@ == pat@,
            ws@ == with@,
            cs@ == s@,
            replaced(s@, pat@, with@) == out@ + replaced(cs@.skip(i as int), pat@, with@),
        decreases cs.len() - i,
    {
        let ghost rest = cs@.skip(i as int);
        if ps.len() <= cs.len() - i && matches_at(&cs, &ps, i) {
            assert(rest.take(ps@.len() as int) =~= cs@.subrange(i as int, i + ps.len()));
            assert(rest.skip(ps@.len() as int) =~= cs@.skip(i + ps.len()));
            let mut j: usize = 0;
            let ghost start = out@;
            while j < ws.len()
                invariant
                    j <= ws.len(),
                    out@ == start + ws@.take(j as int),
                decreases ws.len() - j,
            {
                out.push(ws[j]);
                j = j + 1;
                assert(out@ =~= start + ws@.take(j as int));
            }
            assert(ws@.take(j as int) =~= ws@);
            i = i + ps.len();
            assert(replaced(s@, pat@, with@) =~= out@ + replaced(cs@.skip(i as int), pat@, with@));
        } else {
            proof {
                if is_prefix(pat@, rest) {
                    assert(rest.take(ps@.len() as int) =~= cs@.subrange(i as int, i + ps.len()));
                }
            }
            assert(rest.skip(1) =~= cs@.skip(i + 1));
            out.push(cs[i]);
            i = i + 1;
            assert(replaced(s@, pat@, with@) =~= out@ + replaced(cs@.skip(i as int), pat@, with@));
        }
    }
    assert(cs@.skip(i as int) =~= Seq::<char>::empty());
    assert(out@ + Seq::<char>::empty() =~= out@);
    string_from_chars(&out)
}

/// Template variables for hook expansion.
pub struct HookContext<'a> {
    pub path: &'a str,
    pub branch: &'a str,
    pub id: &'a str,
    pub repo: &'a str,
}

/// The placeholder for the worktree path.
pub open spec fn path_var() -> Seq<char> {
    seq!['{', '{', 'p', 'a', 't', 'h', '}', '}']
}

/// The placeholder for the branch name.
pub open spec fn branch_var() -> Seq<char> {
    seq!['{', '{', 'b', 'r', 'a', 'n', 'c', 'h', '}', '}']
}

/// The placeholder for the worktree id.
pub open spec fn id_var() -> Seq<char> {
    seq!['{', '{', 'i', 'd', '}', '}']
}

/// The placeholder for the repository root.
pub open spec fn repo_var() -> Seq<char> {
    seq!['{', '{', 'r', 'e', 'p', 'o', '}', '}']
}

/// A template with its variables filled in, one variable after the other:
/// `{{path}}`, then `{{branch}}`, then `{{id}}`, then `{{repo}}`.
pub open spec fn expanded(
    template: Seq<char>,
    path: Seq<char>,
    branch: Seq<char>,
    id: Seq<char>,
    repo: Seq<char>,
) -> Seq<char> {
    replaced(
        replaced(replaced(replaced(template, path_var(), path), branch_var(), branch), id_var(), id),
        repo_var(),
        repo,
    )
}

/// Expands the template variables in a hook command.
pub fn expand_template(template: &str, ctx: &HookContext) -> (r: String)
    ensures
        r@ == expanded(template@, ctx.path@, ctx.branch@, ctx.id@, ctx.repo@),
{
    proof {
        reveal_strlit("{{path}}");
        reveal_strlit("{{branch}}");
        reveal_strlit("{{id}}");
        reveal_strlit("{{repo}}");
        assert("{{path}}"@ =~= path_var());
        assert("{{branch}}"@ =~= branch_var());
        assert("{{id}}"@ =~= id_var());
        assert("{{repo}}"@ =~= repo_var());
    }
    let a = replace_all(template, "{{path}}", ctx.path);
    let b = replace_all(a.as_str(), "{{branch}}", ctx.branch);
    let c = replace_all(b.as_str(), "{{id}}", ctx.id);
    replace_all(c.as_str(), "{{repo}}", ctx.repo)
}

/// A piece of a hook template: text, or one of the four variables
/// (`0` for `{{path}}`, `1` for `{{branch}}`, `2` for `{{id}}`, `3` for
/// `{{repo}}`).
pub enum Piece {
    Text(Seq<char>),
    Var(nat),
}

/// The placeholder of variable `v`.
pub open spec fn var_name(v: nat) -> Seq<char> {
    if v == 0 {
        path_var()
    } else if v == 1 {
        branch_var()
    } else if v == 2 {
        id_var()
    } else {
        repo_var()
    }
}

/// A piece written out when the variables before `k` have been filled in
/// with `vals` and the others are still placeholders.
pub open spec fn piece_at(p: Piece, k: nat, vals: Seq<Seq<char>>) -> Seq<char> {
    match p {
        Piece::Text(t) => t,
        Piece::Var(v) => if v < k {
            vals[v as int]
        } else {
            var_name(v)
        },
    }
}

/// The pieces written out, the variables before `k` filled in.
pub open spec fn staged(ps: Seq<Piece>, k: nat, vals: Seq<Seq<char>>) -> Seq<char>
    decreases ps.len(),
{
    if ps.len() == 0 {
        Seq::empty()
    } else {
        piece_at(ps[0], k, vals) + staged(ps.skip(1), k, vals)
    }
}

/// The template the pieces make: text and placeholders.
pub open spec fn template_of(ps: Seq<Piece>) -> Seq<char> {
    staged(ps, 0, seq![])
}

/// The pieces with every variable filled in at once.
pub open spec fn filled(ps: Seq<Piece>, path: Seq<char>, branch: Seq<char>, id: Seq<char>, repo: Seq<char>) -> Seq<char> {
    staged(ps, 4, seq![path, branch, id, repo])
}

/// Every `{` of `s` stands alone inside it: neither first nor last, and
/// not followed by another `{`. Such text cannot begin a placeholder, nor
/// help one form with what stands next to it.
pub open spec fn lone_braces(s: Seq<char>) -> bool {
    forall|i: int| 0 <= i < s.len() && #[trigger] s[i] == '{' ==> 0 < i < s.len() - 1 && s[i + 1] != '{'
}

/// The pieces are text whose braces stand alone, and the four variables.
pub open spec fn plain_pieces(ps: Seq<Piece>) -> bool {
    forall|i: int| 0 <= i < ps.len() ==> match #[trigger] ps[i] {
        Piece::Text(t) => lone_braces(t),
        Piece::Var(v) => v < 4,
    }
}

proof fn lemma_replaced_skips(x: Seq<char>, y: Seq<char>, pat: Seq<char>, with: Seq<char>)
    requires
        pat.len() > 0,
        forall|t: int| 0 <= t < x.len() ==> !is_prefix(pat, #[trigger] (x + y).skip(t)),
    ensures
        replaced(x + y, pat, with) == x + replaced(y, pat, with),
    decreases x.len(),
{
    if x.len() > 0 {
        let s = x + y;
        assert(!is_prefix(pat, s.skip(0)));
        assert(s.skip(0) =~= s);
        let x1 = x.skip(1);
        assert(s.skip(1) =~= x1 + y);
        assert forall|t: int| 0 <= t < x1.len() implies !is_prefix(pat, #[trigger] (x1 + y).skip(t)) by {
            assert((x1 + y).skip(t) =~= s.skip(t + 1));
        }
        lemma_replaced_skips(x1, y, pat, with);
        assert(seq![s[0]] + (x1 + replaced(y, pat, with)) =~= x + replaced(y, pat, with));
    }
}

proof fn lemma_no_brace_skips(x: Seq<char>, y: Seq<char>, pat: Seq<char>)
    requires
        pat.len() > 1,
        pat[0] == '{',
        pat[1] == '{',
        lone_braces(x),
    ensures
        forall|t: int| 0 <= t < x.len() ==> !is_prefix(pat, #[trigger] (x + y).skip(t)),
{
    assert forall|t: int| 0 <= t < x.len() implies !is_prefix(pat, #[trigger] (x + y).skip(t)) by {
        let s = (x + y).skip(t);
        assert(s[0] == x[t]);
        if is_prefix(pat, s) {
            assert(s.take(pat.len() as int)[0] == s[0]);
            assert(x[t] == '{');
            assert(t + 1 < x.len() && x[t + 1] != '{');
            assert(s[1] == x[t + 1]);
            assert(s.take(pat.len() as int)[1] == s[1]);
        }
    }
}

proof fn lemma_names_skip(v: nat, k: nat, y: Seq<char>)
    requires
        v < 4,
        k < 4,
        v != k,
    ensures
        forall|t: int| 0 <= t < var_name(v).len() ==> !is_prefix(var_name(k), #[trigger] (var_name(v) + y).skip(t)),
{
    let x = var_name(v);
    let pat = var_name(k);
    assert(x[0] == '{' && x[1] == '{' && pat[0] == '{' && pat[1] == '{');
    assert(pat.len() >= 6 && x.len() >= 6);
    assert forall|t: int| 0 <= t < x.len() implies !is_prefix(pat, #[trigger] (x + y).skip(t)) by {
        let s = (x + y).skip(t);
        if is_prefix(pat, s) {
            let pre = s.take(pat.len() as int);
            if t == 0 {
                assert(pre[2] == x[2]);
                assert(x[2] != pat[2]);
            } else if t == 1 {
                assert(pre[1] == x[2]);
            } else {
                assert(pre[0] == x[t]);
                assert(x[t] != '{');
            }
        }
    }
}

proof fn lemma_stage_step(ps: Seq<Piece>, k: nat, vals: Seq<Seq<char>>)
    requires
        k < 4,
        vals.len() == 4,
        plain_pieces(ps),
        forall|i: int| 0 <= i < 4 ==> lone_braces(#[trigger] vals[i]),
    ensures
        replaced(staged(ps, k, vals), var_name(k), vals[k as int]) == staged(ps, k + 1, vals),
    decreases ps.len(),
{
    if ps.len() > 0 {
        let pat = var_name(k);
        let w = vals[k as int];
        let rest = ps.skip(1);
        assert(plain_pieces(rest)) by {
            assert forall|i: int| 0 <= i < rest.len() implies match #[trigger] rest[i] {
                Piece::Text(t) => lone_braces(t),
                Piece::Var(v) => v < 4,
            } by {
                assert(rest[i] == ps[i + 1]);
            }
        }
        lemma_stage_step(rest, k, vals);
        let x = piece_at(ps[0], k, vals);
        let y = staged(rest, k, vals);
        assert(staged(ps, k, vals) == x + y);
        assert(staged(ps, k + 1, vals) == piece_at(ps[0], k + 1, vals) + staged(rest, k + 1, vals));
        assert(match ps[0] {
            Piece::Text(t) => lone_braces(t),
            Piece::Var(v) => v < 4,
        });
        assert(pat[0] == '{' && pat[1] == '{' && pat.len() > 1);
        match ps[0] {
            Piece::Text(t) => {
                lemma_no_brace_skips(x, y, pat);
                lemma_replaced_skips(x, y, pat, w);
            },
            Piece::Var(v) => {
                if v == k {
                    assert(is_prefix(pat, x + y)) by {
                        assert((x + y).take(pat.len() as int) =~= pat);
                    }
                    assert((x + y).skip(pat.len() as int) =~= y);
                } else if v < k {
                    lemma_no_brace_skips(x, y, pat);
                    lemma_replaced_skips(x, y, pat, w);
                } else {
                    lemma_names_skip(v, k, y);
                    lemma_replaced_skips(x, y, pat, w);
                }
            },
        }
    }
}

/// Expanding a template fills each placeholder with its value when every
/// `{` of the values and of the template's text between its placeholders
/// stands alone (not first or last in its text, not doubled), as in
/// `awk '{print}'` or `${HOME}`: then the replacements, though made one
/// variable after the other, never meet a placeholder that a value helped
/// to form.
pub proof fn lemma_expand_fills_placeholders(
    ps: Seq<Piece>,
    path: Seq<char>,
    branch: Seq<char>,
    id: Seq<char>,
    repo: Seq<char>,
)
    requires
        plain_pieces(ps),
        lone_braces(path),
        lone_braces(branch),
        lone_braces(id),
        lone_braces(repo),
    ensures
        expanded(template_of(ps), path, branch, id, repo) == filled(ps, path, branch, id, repo),
{
    let vals = seq![path, branch, id, repo];
    assert forall|i: int| 0 <= i < 4 implies lone_braces(#[trigger] vals[i]) by {}
    lemma_same_template(ps, vals);
    lemma_stage_step(ps, 0, vals);
    lemma_stage_step(ps, 1, vals);
    lemma_stage_step(ps, 2, vals);
    lemma_stage_step(ps, 3, vals);
}

proof fn lemma_same_template(ps: Seq<Piece>, vals: Seq<Seq<char>>)
    ensures
        template_of(ps) == staged(ps, 0, vals),
    decreases ps.len(),
{
    if ps.len() > 0 {
        lemma_same_template(ps.skip(1), vals);
    }
}

} // verus!
