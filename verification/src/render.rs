//! The human-facing tree view of the listing, laid out as styled segments.
//! Painting a segment in its style is left to the terminal side.

use vstd::prelude::*;
use crate::listing::{Entry, WorktreeStatus};
use crate::text::{decimal, decimal_text};

verus! {

/// How a segment is painted.
#[derive(Debug, Clone, Copy, PartialEq, Eq, Structural)]
pub enum Style {
    Plain,
    /// A 24-bit colour.
    Rgb(u8, u8, u8),
    Green,
    Red,
    Cyan,
    BoldCyan,
    BrightBlack,
}

/// A run of text in one style.
#[derive(Debug, PartialEq, Eq)]
pub struct Segment {
    pub text: String,
    pub style: Style,
}

/// What a segment says.
pub type SegmentView = (Seq<char>, Style);

/// The view of a segment.
pub open spec fn segment_view(s: Segment) -> SegmentView {
    (s.text@, s.style)
}

/// The views of a line of segments.
pub open spec fn segment_views(v: Seq<Segment>) -> Seq<SegmentView> {
    v.map_values(|s: Segment| segment_view(s))
}

/// The colour of the tree lines: dimmer for orphans.
pub open spec fn tree_style(is_orphan: bool) -> Style {
    if is_orphan {
        Style::Rgb(120, 100, 140)
    } else {
        Style::Rgb(180, 160, 200)
    }
}

/// `└─` for the last sibling, `├─` otherwise.
pub open spec fn connector(is_last: bool) -> Seq<char> {
    if is_last {
        seq!['└', '─']
    } else {
        seq!['├', '─']
    }
}

/// What stands before the path line: the continuation of this level and of
/// the children below.
pub open spec fn path_prefix(is_last: bool, has_children: bool) -> Seq<char> {
    if !is_last && has_children {
        seq!['│', ' ', ' ', '│', ' ', ' ']
    } else if !is_last {
        seq!['│', ' ', ' ', ' ', ' ', ' ']
    } else if has_children {
        seq![' ', ' ', ' ', '│', ' ', ' ']
    } else {
        seq![' ', ' ', ' ', ' ', ' ', ' ']
    }
}

/// The marker: a red cross when the directory is missing, a green dot for
/// the current worktree, a circle otherwise.
pub open spec fn marker(is_current: bool, is_orphan: bool, dir_exists: bool) -> SegmentView {
    if !dir_exists {
        (seq!['✗'], Style::Red)
    } else if is_current {
        (seq!['●'], Style::Green)
    } else if is_orphan {
        (seq!['○'], Style::Rgb(150, 150, 150))
    } else {
        (seq!['○'], Style::BrightBlack)
    }
}

/// The style of the branch name.
pub open spec fn name_style(is_current: bool, is_orphan: bool) -> Style {
    if is_current {
        Style::BoldCyan
    } else if is_orphan {
        Style::Rgb(180, 180, 180)
    } else {
        Style::Cyan
    }
}

/// The first line of an entry: tree prefix, connector, marker, branch name
/// and, for the current worktree, `← here`.
pub open spec fn first_line(
    name: Seq<char>,
    is_current: bool,
    is_last: bool,
    prefix: Seq<char>,
    is_orphan: bool,
    dir_exists: bool,
) -> Seq<SegmentView> {
    seq![
        (prefix, tree_style(is_orphan)),
        (connector(is_last), tree_style(is_orphan)),
        (seq![' '], Style::Plain),
        marker(is_current, is_orphan, dir_exists),
        (seq![' '], Style::Plain),
        (name, name_style(is_current, is_orphan)),
    ] + if is_current {
        seq![(seq![' ', '←', ' ', 'h', 'e', 'r', 'e'], Style::Green)]
    } else {
        Seq::empty()
    }
}

/// The commits-ahead part, when there are any.
pub open spec fn ahead_part(status: WorktreeStatus) -> Seq<Seq<SegmentView>> {
    if status.ahead > 0 {
        seq![seq![(seq!['↑'] + decimal(status.ahead as nat), Style::Green)]]
    } else {
        Seq::empty()
    }
}

/// The commits-behind part, when there are any.
pub open spec fn behind_part(status: WorktreeStatus) -> Seq<Seq<SegmentView>> {
    if status.behind > 0 {
        seq![seq![(seq!['↓'] + decimal(status.behind as nat), Style::Rgb(255, 165, 0))]]
    } else {
        Seq::empty()
    }
}

/// The views of groups of segments.
pub open spec fn group_views(v: Seq<Vec<Segment>>) -> Seq<Seq<SegmentView>> {
    v.map_values(|g: Vec<Segment>| segment_views(g@))
}

/// The status parts: commits ahead, commits behind, and the dirty marks
/// (`!` modified, `?` untracked), each a group of segments.
pub open spec fn status_parts(status: WorktreeStatus) -> Seq<Seq<SegmentView>> {
    ahead_part(status) + behind_part(status) + dirty_part(status)
}

/// The dirty marks, when there are any.
pub open spec fn dirty_part(status: WorktreeStatus) -> Seq<Seq<SegmentView>> {
    if status.has_modified && status.has_untracked {
        seq![seq![(seq!['!'], Style::Red), (seq!['?'], Style::Cyan)]]
    } else if status.has_modified {
        seq![seq![(seq!['!'], Style::Red)]]
    } else if status.has_untracked {
        seq![seq![(seq!['?'], Style::Cyan)]]
    } else {
        Seq::empty()
    }
}

/// Groups of segments joined by a plain space.
pub open spec fn joined_parts(parts: Seq<Seq<SegmentView>>) -> Seq<SegmentView>
    decreases parts.len(),
{
    if parts.len() == 0 {
        Seq::empty()
    } else if parts.len() == 1 {
        parts[0]
    } else {
        joined_parts(parts.drop_last()) + seq![(seq![' '], Style::Plain)] + parts.last()
    }
}

/// The second line of an entry: tree prefix, path prefix, the status parts
/// followed by ` · ` when there are any, and the path.
pub open spec fn second_line(
    path: Seq<char>,
    is_last: bool,
    has_children: bool,
    prefix: Seq<char>,
    is_orphan: bool,
    status: WorktreeStatus,
) -> Seq<SegmentView> {
    let parts = status_parts(status);
    seq![(prefix, tree_style(is_orphan)), (path_prefix(is_last, has_children), tree_style(is_orphan))]
        + (if parts.len() == 0 {
        Seq::empty()
    } else {
        joined_parts(parts) + seq![(seq![' ', '·', ' '], Style::Plain)]
    }) + seq![(path, Style::BrightBlack)]
}

fn seg(text: String, style: Style) -> (r: Segment)
    ensures
        segment_view(r) == (text@, style),
{
    Segment { text, style }
}

fn lit(s: &str, style: Style) -> (r: Segment)
    ensures
        segment_view(r) == (s@, style),
{
    Segment { text: s.to_owned(), style }
}

fn tree_style_of(is_orphan: bool) -> (r: Style)
    ensures
        r == tree_style(is_orphan),
{
    if is_orphan {
        Style::Rgb(120, 100, 140)
    } else {
        Style::Rgb(180, 160, 200)
    }
}

fn connector_text(is_last: bool) -> (r: &'static str)
    ensures
        r@ == connector(is_last),
{
    proof {
        reveal_strlit("└─");
        reveal_strlit("├─");
        assert("└─"@ =~= connector(true));
        assert("├─"@ =~= connector(false));
    }
    if is_last { "└─" } else { "├─" }
}

fn path_prefix_text(is_last: bool, has_children: bool) -> (r: &'static str)
    ensures
        r@ == path_prefix(is_last, has_children),
{
    proof {
        reveal_strlit("│  │  ");
        reveal_strlit("│     ");
        reveal_strlit("   │  ");
        reveal_strlit("      ");
        assert("│  │  "@ =~= path_prefix(false, true));
        assert("│     "@ =~= path_prefix(false, false));
        assert("   │  "@ =~= path_prefix(true, true));
        assert("      "@ =~= path_prefix(true, false));
    }
    if !is_last && has_children {
        "│  │  "
    } else if !is_last {
        "│     "
    } else if has_children {
        "   │  "
    } else {
        "      "
    }
}

fn marker_segment(is_current: bool, is_orphan: bool, dir_exists: bool) -> (r: Segment)
    ensures
        segment_view(r) == marker(is_current, is_orphan, dir_exists),
{
    proof {
        reveal_strlit("✗");
        reveal_strlit("●");
        reveal_strlit("○");
        assert("✗"@ =~= seq!['✗']);
        assert("●"@ =~= seq!['●']);
        assert("○"@ =~= seq!['○']);
    }
    if !dir_exists {
        lit("✗", Style::Red)
    } else if is_current {
        lit("●", Style::Green)
    } else if is_orphan {
        lit("○", Style::Rgb(150, 150, 150))
    } else {
        lit("○", Style::BrightBlack)
    }
}

fn space() -> (r: Segment)
    ensures
        segment_view(r) == (seq![' '], Style::Plain),
{
    proof {
        reveal_strlit(" ");
        assert(" "@ =~= seq![' ']);
    }
    lit(" ", Style::Plain)
}

fn entry_first_line(
    name: &str,
    is_current: bool,
    is_last: bool,
    prefix: &str,
    is_orphan: bool,
    dir_exists: bool,
) -> (r: Vec<Segment>)
    ensures
        segment_views(r@) == first_line(name@, is_current, is_last, prefix@, is_orphan, dir_exists),
{
    let tree = tree_style_of(is_orphan);
    let name_style_v = if is_current {
        Style::BoldCyan
    } else if is_orphan {
        Style::Rgb(180, 180, 180)
    } else {
        Style::Cyan
    };
    let mut first: Vec<Segment> = Vec::new();
    first.push(lit(prefix, tree));
    first.push(lit(connector_text(is_last), tree));
    first.push(space());
    first.push(marker_segment(is_current, is_orphan, dir_exists));
    first.push(space());
    first.push(lit(name, name_style_v));
    if is_current {
        proof {
            reveal_strlit(" ← here");
            assert(" ← here"@ =~= seq![' ', '←', ' ', 'h', 'e', 'r', 'e']);
        }
        first.push(lit(" ← here", Style::Green));
    }
    assert(segment_views(first@) =~= first_line(name@, is_current, is_last, prefix@, is_orphan, dir_exists));
    first
}

fn count_group(mark: &str, n: u32, style: Style) -> (g: Vec<Segment>)
    ensures
        segment_views(g@) == seq![(mark@ + decimal(n as nat), style)],
{
    let mut t = mark.to_owned();
    t.append(decimal_text(n as u64).as_str());
    let mut g: Vec<Segment> = Vec::new();
    g.push(seg(t, style));
    assert(segment_views(g@) =~= seq![(mark@ + decimal(n as nat), style)]);
    g
}

fn status_groups(status: &WorktreeStatus) -> (parts: Vec<Vec<Segment>>)
    ensures
        group_views(parts@) == status_parts(*status),
{
    proof {
        reveal_strlit("↑");
        reveal_strlit("↓");
        reveal_strlit("!");
        reveal_strlit("?");
        assert("↑"@ =~= seq!['↑']);
        assert("↓"@ =~= seq!['↓']);
        assert("!"@ =~= seq!['!']);
        assert("?"@ =~= seq!['?']);
    }
    let mut parts: Vec<Vec<Segment>> = Vec::new();
    if status.ahead > 0 {
        let g = count_group("↑", status.ahead, Style::Green);
        parts.push(g);
        assert(group_views(parts@) =~= seq![segment_views(g@)]);
    }
    assert(group_views(parts@) =~= ahead_part(*status));
    if status.behind > 0 {
        let g = count_group("↓", status.behind, Style::Rgb(255, 165, 0));
        let ghost before = group_views(parts@);
        parts.push(g);
        assert(group_views(parts@) =~= before.push(segment_views(g@)));
    }
    assert(group_views(parts@) =~= ahead_part(*status) + behind_part(*status));
    if status.has_modified || status.has_untracked {
        let mut g: Vec<Segment> = Vec::new();
        if status.has_modified {
            g.push(lit("!", Style::Red));
        }
        assert(segment_views(g@) =~= if status.has_modified {
            seq![(seq!['!'], Style::Red)]
        } else {
            Seq::<SegmentView>::empty()
        });
        if status.has_untracked {
            g.push(lit("?", Style::Cyan));
        }
        assert(segment_views(g@) =~= dirty_part(*status)[0]);
        let ghost before = group_views(parts@);
        let ghost gv = segment_views(g@);
        parts.push(g);
        assert(group_views(parts@) =~= before.push(gv));
    } else {
        assert(dirty_part(*status) =~= Seq::<Seq<SegmentView>>::empty());
    }
    assert(group_views(parts@) =~= status_parts(*status));
    parts
}

/// Appends groups of segments joined by a plain space.
fn push_joined(out: &mut Vec<Segment>, parts: &Vec<Vec<Segment>>)
    ensures
        segment_views(final(out)@) == segment_views(old(out)@) + joined_parts(group_views(parts@)),
{
    let ghost sp = group_views(parts@);
    let ghost base = segment_views(out@);
    let mut k: usize = 0;
    assert(joined_parts(sp.take(0)) =~= Seq::<SegmentView>::empty());
    assert(segment_views(out@) =~= base + joined_parts(sp.take(0)));
    while k < parts.len()
        invariant
            k <= parts.len(),
            sp == group_views(parts@),
            segment_views(out@) == base + joined_parts(sp.take(k as int)),
        decreases parts.len() - k,
    {
        let ghost before = segment_views(out@);
        if k > 0 {
            out.push(space());
        }
        let ghost mid = segment_views(out@);
        let mut j: usize = 0;
        while j < parts[k].len()
            invariant
                j <= parts@[k as int]@.len(),
                k < parts@.len(),
                segment_views(out@) == mid + segment_views(parts@[k as int]@).take(j as int),
            decreases parts@[k as int]@.len() - j,
        {
            let s = &parts[k][j];
            assert(segment_view(*s) == segment_views(parts@[k as int]@)[j as int]);
            let ghost b2 = segment_views(out@);
            out.push(Segment { text: s.text.clone(), style: s.style });
            assert(segment_views(out@) =~= b2.push(segment_view(*s)));
            j = j + 1;
            assert(segment_views(out@) =~= mid + segment_views(parts@[k as int]@).take(j as int));
        }
        proof {
            assert(segment_views(parts@[k as int]@).take(j as int) =~= sp[k as int]);
            if k == 0 {
                assert(sp.take(1) =~= seq![sp[0]]);
                assert(segment_views(out@) =~= base + joined_parts(sp.take(1)));
            } else {
                assert(sp.take(k + 1).drop_last() =~= sp.take(k as int));
                assert(sp.take(k + 1).last() == sp[k as int]);
                assert(joined_parts(sp.take(k + 1)) == joined_parts(sp.take(k as int)) + seq![(seq![' '], Style::Plain)]
                    + sp[k as int]);
                assert(mid =~= before + seq![(seq![' '], Style::Plain)]);
                assert(segment_views(out@) =~= base + joined_parts(sp.take(k + 1)));
            }
        }
        k = k + 1;
    }
    assert(sp.take(k as int) =~= sp);
}

fn entry_second_line(
    path: &str,
    is_last: bool,
    has_children: bool,
    prefix: &str,
    is_orphan: bool,
    status: &WorktreeStatus,
) -> (r: Vec<Segment>)
    ensures
        segment_views(r@) == second_line(path@, is_last, has_children, prefix@, is_orphan, *status),
{
    let tree = tree_style_of(is_orphan);
    let parts = status_groups(status);
    let mut second: Vec<Segment> = Vec::new();
    second.push(lit(prefix, tree));
    second.push(lit(path_prefix_text(is_last, has_children), tree));
    let ghost base = segment_views(second@);
    push_joined(&mut second, &parts);
    let ghost mid = segment_views(second@);
    if parts.len() > 0 {
        proof {
            reveal_strlit(" · ");
            assert(" · "@ =~= seq![' ', '·', ' ']);
        }
        second.push(lit(" · ", Style::Plain));
    }
    let ghost sp = status_parts(*status);
    assert(mid == base + joined_parts(sp));
    assert(base =~= seq![(prefix@, tree_style(is_orphan)), (path_prefix(is_last, has_children), tree_style(is_orphan))]);
    assert(segment_views(second@) =~= mid + (if sp.len() == 0 {
        Seq::<SegmentView>::empty()
    } else {
        seq![(seq![' ', '·', ' '], Style::Plain)]
    }));
    let ghost mid2 = segment_views(second@);
    second.push(lit(path, Style::BrightBlack));
    assert(segment_views(second@) =~= mid2.push((path@, Style::BrightBlack)));
    assert(segment_views(second@) =~= second_line(path@, is_last, has_children, prefix@, is_orphan, *status));
    second
}

/// The two lines of one entry of the tree view.
pub fn print_worktree_entry(
    name: &str,
    path: &str,
    is_current: bool,
    is_last: bool,
    has_children: bool,
    prefix: &str,
    is_orphan: bool,
    status: &WorktreeStatus,
) -> (r: (Vec<Segment>, Vec<Segment>))
    ensures
        segment_views(r.0@) == first_line(name@, is_current, is_last, prefix@, is_orphan, status.dir_exists),
        segment_views(r.1@) == second_line(path@, is_last, has_children, prefix@, is_orphan, *status),
{
    (
        entry_first_line(name, is_current, is_last, prefix, is_orphan, status.dir_exists),
        entry_second_line(path, is_last, has_children, prefix, is_orphan, status),
    )
}

/// The bars drawn for the ancestor levels of a row: `│  ` for a level that
/// still has siblings to come, blank otherwise.
pub open spec fn bars(st: Seq<bool>) -> Seq<char>
    decreases st.len(),
{
    if st.len() == 0 {
        Seq::empty()
    } else {
        bars(st.drop_last()) + if st.last() {
            seq!['│', ' ', ' ']
        } else {
            seq![' ', ' ', ' ']
        }
    }
}

/// The first `d` levels of a stack (all of it when it is shorter).
pub open spec fn truncated(st: Seq<bool>, d: nat) -> Seq<bool> {
    if d < st.len() {
        st.take(d as int)
    } else {
        st
    }
}

/// Depth and last-sibling flag of each entry.
pub open spec fn shape(es: Seq<Entry>) -> Seq<(nat, bool)> {
    es.map_values(|e: Entry| (e.depth as nat, e.is_last))
}

/// For each level, whether it still has siblings to come, as it stands
/// before row `i` is drawn: each row cuts the stack to its depth and pushes
/// whether it has siblings after it.
pub open spec fn stack_before(sh: Seq<(nat, bool)>, i: nat) -> Seq<bool>
    decreases i,
{
    if i == 0 || i > sh.len() {
        Seq::empty()
    } else {
        truncated(stack_before(sh, (i - 1) as nat), sh[i - 1].0).push(!sh[i - 1].1)
    }
}

/// The tree prefix of row `i`.
pub open spec fn prefix_at(sh: Seq<(nat, bool)>, i: nat) -> Seq<char> {
    bars(truncated(stack_before(sh, i), sh[i as int].0))
}

/// The visual break drawn before the orphans.
pub open spec fn break_line() -> Seq<SegmentView> {
    seq![(seq!['┊'], Style::Rgb(120, 100, 140))]
}

/// The lines drawn for row `i`: the break when the orphans start there,
/// then the two lines of the entry.
pub open spec fn entry_block(es: Seq<Entry>, orphan_start: nat, i: nat) -> Seq<Seq<SegmentView>> {
    let e = es[i as int];
    let prefix = prefix_at(shape(es), i);
    (if i == orphan_start && orphan_start < es.len() {
        seq![break_line()]
    } else {
        Seq::empty()
    }) + seq![
        first_line(e.branch@, e.is_current, e.is_last, prefix, e.is_orphan, e.status.dir_exists),
        second_line(e.path@, e.is_last, e.has_children, prefix, e.is_orphan, e.status),
    ]
}

/// The lines drawn for the first `n` rows.
pub open spec fn tree_lines(es: Seq<Entry>, orphan_start: nat, n: nat) -> Seq<Seq<SegmentView>>
    decreases n,
{
    if n == 0 || n > es.len() {
        Seq::empty()
    } else {
        tree_lines(es, orphan_start, (n - 1) as nat) + entry_block(es, orphan_start, (n - 1) as nat)
    }
}

/// The views of a list of lines.
pub open spec fn line_views(v: Seq<Vec<Segment>>) -> Seq<Seq<SegmentView>> {
    v.map_values(|l: Vec<Segment>| segment_views(l@))
}

fn bars_text(st: &Vec<bool>) -> (r: String)
    ensures
        r@ == bars(st@),
{
    proof {
        reveal_strlit("│  ");
        reveal_strlit("   ");
        assert("│  "@ =~= seq!['│', ' ', ' ']);
        assert("   "@ =~= seq![' ', ' ', ' ']);
    }
    let mut out = String::new();
    let mut k: usize = 0;
    assert(st@.take(0) =~= Seq::<bool>::empty());
    while k < st.len()
        invariant
            k <= st.len(),
            out@ == bars(st@.take(k as int)),
            "│  "@ == seq!['│', ' ', ' '],
            "   "@ == seq![' ', ' ', ' '],
        decreases st.len() - k,
    {
        out.append(if st[k] { "│  " } else { "   " });
        assert(st@.take(k + 1).drop_last() =~= st@.take(k as int));
        k = k + 1;
    }
    assert(st@.take(k as int) =~= st@);
    out
}

/// Renders the collected entries as the tree view: for each entry its two
/// lines, preceded by a break where the orphans begin. The tree prefix of
/// each row is rebuilt from the depths and last-sibling flags of the rows
/// before it.
pub fn render_entries(entries: &Vec<Entry>, orphan_start: usize) -> (r: Vec<Vec<Segment>>)
    ensures
        line_views(r@) == tree_lines(entries@, orphan_start as nat, entries@.len()),
{
    let ghost sh = shape(entries@);
    let mut continuation: Vec<bool> = Vec::new();
    let mut lines: Vec<Vec<Segment>> = Vec::new();
    let mut i: usize = 0;
    assert(line_views(lines@) =~= Seq::<Seq<SegmentView>>::empty());
    while i < entries.len()
        invariant
            i <= entries.len(),
            sh == shape(entries@),
            continuation@ == stack_before(sh, i as nat),
            line_views(lines@) == tree_lines(entries@, orphan_start as nat, i as nat),
        decreases entries.len() - i,
    {
        let e = &entries[i];
        assert(sh[i as int] == (e.depth as nat, e.is_last));
        let ghost before = line_views(lines@);
        if i == orphan_start && orphan_start < entries.len() {
            proof {
                reveal_strlit("┊");
                assert("┊"@ =~= seq!['┊']);
            }
            let mut brk: Vec<Segment> = Vec::new();
            brk.push(lit("┊", Style::Rgb(120, 100, 140)));
            assert(segment_views(brk@) =~= break_line());
            lines.push(brk);
        }
        continuation.truncate(e.depth);
        assert(continuation@ =~= truncated(stack_before(sh, i as nat), e.depth as nat));
        let prefix = bars_text(&continuation);
        continuation.push(!e.is_last);
        let (first, second) = print_worktree_entry(
            e.branch.as_str(),
            e.path.as_str(),
            e.is_current,
            e.is_last,
            e.has_children,
            prefix.as_str(),
            e.is_orphan,
            &e.status,
        );
        lines.push(first);
        lines.push(second);
        proof {
            assert(prefix@ == prefix_at(sh, i as nat));
            assert(line_views(lines@) =~= before + entry_block(entries@, orphan_start as nat, i as nat));
            assert(tree_lines(entries@, orphan_start as nat, (i + 1) as nat) == tree_lines(
                entries@,
                orphan_start as nat,
                i as nat,
            ) + entry_block(entries@, orphan_start as nat, i as nat));
        }
        i = i + 1;
    }
    lines
}

proof fn lemma_joined_contains(parts: Seq<Seq<SegmentView>>, x: SegmentView)
    requires
        x.1 != Style::Plain,
    ensures
        joined_parts(parts).contains(x) <==> exists|k: int| 0 <= k < parts.len() && (#[trigger] parts[k]).contains(x),
    decreases parts.len(),
{
    if parts.len() == 1 {
        if parts[0].contains(x) {
            assert(0 <= 0 < parts.len() && parts[0].contains(x));
        }
    } else if parts.len() >= 2 {
        let init = parts.drop_last();
        lemma_joined_contains(init, x);
        let a = joined_parts(init);
        let sp = seq![(seq![' '], Style::Plain)];
        let b = parts.last();
        let j = a + sp + b;
        assert(joined_parts(parts) == j);
        if j.contains(x) {
            let i = choose|i: int| 0 <= i < j.len() && j[i] == x;
            if i < a.len() {
                assert(a[i] == x);
                assert(a.contains(x));
                let k = choose|k: int| 0 <= k < init.len() && (#[trigger] init[k]).contains(x);
                assert(parts[k] == init[k]);
            } else if i == a.len() {
                assert(j[i] == sp[0]);
            } else {
                assert(b[i - a.len() - 1] == x);
                assert(b.contains(x));
                assert(parts[parts.len() - 1] == b);
            }
        }
        if exists|k: int| 0 <= k < parts.len() && (#[trigger] parts[k]).contains(x) {
            let k = choose|k: int| 0 <= k < parts.len() && (#[trigger] parts[k]).contains(x);
            if k < parts.len() - 1 {
                assert(init[k] == parts[k]);
                assert(a.contains(x));
                let i = choose|i: int| 0 <= i < a.len() && a[i] == x;
                assert(j[i] == x);
            } else {
                let i = choose|i: int| 0 <= i < b.len() && b[i] == x;
                assert(j[a.len() + 1 + i] == x);
            }
        }
    }
}

/// Some group of `parts` holds `x`.
pub open spec fn in_some_part(parts: Seq<Seq<SegmentView>>, x: SegmentView) -> bool {
    exists|k: int| 0 <= k < parts.len() && (#[trigger] parts[k]).contains(x)
}

proof fn lemma_line_parts(
    path: Seq<char>,
    is_last: bool,
    has_children: bool,
    prefix: Seq<char>,
    is_orphan: bool,
    status: WorktreeStatus,
    x: SegmentView,
)
    requires
        x.1 != Style::Plain,
        x.1 != tree_style(is_orphan),
        x.1 != Style::BrightBlack,
    ensures
        second_line(path, is_last, has_children, prefix, is_orphan, status).contains(x) <==> (in_some_part(
            ahead_part(status),
            x,
        ) || in_some_part(behind_part(status), x) || in_some_part(dirty_part(status), x)),
{
    let parts = status_parts(status);
    let line = second_line(path, is_last, has_children, prefix, is_orphan, status);
    let head = seq![(prefix, tree_style(is_orphan)), (path_prefix(is_last, has_children), tree_style(is_orphan))];
    let mid = if parts.len() == 0 {
        Seq::<SegmentView>::empty()
    } else {
        joined_parts(parts) + seq![(seq![' ', '·', ' '], Style::Plain)]
    };
    let tail = seq![(path, Style::BrightBlack)];
    assert(line == head + mid + tail);
    lemma_joined_contains(parts, x);
    if line.contains(x) {
        let i = choose|i: int| 0 <= i < line.len() && line[i] == x;
        if i < head.len() {
            assert(head[i].1 == tree_style(is_orphan));
        } else if i < head.len() + mid.len() {
            assert(mid[i - head.len()] == x);
            let m = i - head.len();
            if m < joined_parts(parts).len() {
                assert(joined_parts(parts)[m] == x);
                assert(joined_parts(parts).contains(x));
            }
        } else {
            assert(tail[i - head.len() - mid.len()] == x);
        }
    }
    if in_some_part(parts, x) {
        assert(joined_parts(parts).contains(x));
        let m = choose|m: int| 0 <= m < joined_parts(parts).len() && joined_parts(parts)[m] == x;
        assert(mid[m] == x);
        assert(line[head.len() + m] == x);
    }
    let ap = ahead_part(status);
    let bp = behind_part(status);
    let dp = dirty_part(status);
    assert(parts == ap + bp + dp);
    if in_some_part(parts, x) {
        let k = choose|k: int| 0 <= k < parts.len() && (#[trigger] parts[k]).contains(x);
        if k < ap.len() {
            assert(parts[k] == ap[k]);
        } else if k < ap.len() + bp.len() {
            assert(parts[k] == bp[k - ap.len()]);
        } else {
            assert(parts[k] == dp[k - ap.len() - bp.len()]);
        }
    }
    if in_some_part(ap, x) {
        let k = choose|k: int| 0 <= k < ap.len() && (#[trigger] ap[k]).contains(x);
        assert(parts[k] == ap[k]);
    }
    if in_some_part(bp, x) {
        let k = choose|k: int| 0 <= k < bp.len() && (#[trigger] bp[k]).contains(x);
        assert(parts[ap.len() + k] == bp[k]);
    }
    if in_some_part(dp, x) {
        let k = choose|k: int| 0 <= k < dp.len() && (#[trigger] dp[k]).contains(x);
        assert(parts[ap.len() + bp.len() + k] == dp[k]);
    }
}

/// The status line of an entry shows each mark exactly when its condition
/// holds, each independently of the others: `?` (cyan) when the worktree
/// has untracked files, `!` (red) when it has modified ones, `↑n` (green)
/// for `n > 0` commits ahead and `↓n` (orange) for `n > 0` commits behind.
pub proof fn lemma_status_line_marks(
    path: Seq<char>,
    is_last: bool,
    has_children: bool,
    prefix: Seq<char>,
    is_orphan: bool,
    status: WorktreeStatus,
)
    ensures
        second_line(path, is_last, has_children, prefix, is_orphan, status).contains((seq!['?'], Style::Cyan))
            <==> status.has_untracked,
        second_line(path, is_last, has_children, prefix, is_orphan, status).contains((seq!['!'], Style::Red))
            <==> status.has_modified,
        second_line(path, is_last, has_children, prefix, is_orphan, status).contains(
            (seq!['↑'] + decimal(status.ahead as nat), Style::Green),
        ) <==> status.ahead > 0,
        second_line(path, is_last, has_children, prefix, is_orphan, status).contains(
            (seq!['↓'] + decimal(status.behind as nat), Style::Rgb(255, 165, 0)),
        ) <==> status.behind > 0,
{
    let q: SegmentView = (seq!['?'], Style::Cyan);
    let e: SegmentView = (seq!['!'], Style::Red);
    let u: SegmentView = (seq!['↑'] + decimal(status.ahead as nat), Style::Green);
    let d: SegmentView = (seq!['↓'] + decimal(status.behind as nat), Style::Rgb(255, 165, 0));
    lemma_line_parts(path, is_last, has_children, prefix, is_orphan, status, q);
    lemma_line_parts(path, is_last, has_children, prefix, is_orphan, status, e);
    lemma_line_parts(path, is_last, has_children, prefix, is_orphan, status, u);
    lemma_line_parts(path, is_last, has_children, prefix, is_orphan, status, d);
    let ap = ahead_part(status);
    let bp = behind_part(status);
    let dp = dirty_part(status);
    assert forall|x: SegmentView| #![trigger in_some_part(ap, x)] (x.1 != Style::Green) implies !in_some_part(ap, x) by {
        if in_some_part(ap, x) {
            let k = choose|k: int| 0 <= k < ap.len() && (#[trigger] ap[k]).contains(x);
            let i = choose|i: int| 0 <= i < ap[k].len() && ap[k][i] == x;
        }
    }
    assert forall|x: SegmentView| #![trigger in_some_part(bp, x)] (x.1 != Style::Rgb(255, 165, 0)) implies !in_some_part(bp, x) by {
        if in_some_part(bp, x) {
            let k = choose|k: int| 0 <= k < bp.len() && (#[trigger] bp[k]).contains(x);
            let g = bp[k];
            let i = choose|i: int| 0 <= i < g.len() && g[i] == x;
        }
    }
    assert forall|x: SegmentView| #![trigger in_some_part(dp, x)] (x.1 != Style::Cyan && x.1 != Style::Red) implies !in_some_part(dp, x) by {
        if in_some_part(dp, x) {
            let k = choose|k: int| 0 <= k < dp.len() && (#[trigger] dp[k]).contains(x);
            let g = dp[k];
            let i = choose|i: int| 0 <= i < g.len() && g[i] == x;
        }
    }
    if status.has_untracked {
        if status.has_modified {
            assert(dp[0][1] == q);
        } else {
            assert(dp[0][0] == q);
        }
        assert(dp[0].contains(q));
    }
    if status.has_modified {
        assert(dp[0][0] == e);
        assert(dp[0].contains(e));
    }
    if in_some_part(dp, q) {
        let k = choose|k: int| 0 <= k < dp.len() && (#[trigger] dp[k]).contains(q);
        let i = choose|i: int| 0 <= i < dp[k].len() && dp[k][i] == q;
    }
    if in_some_part(dp, e) {
        let k = choose|k: int| 0 <= k < dp.len() && (#[trigger] dp[k]).contains(e);
        let i = choose|i: int| 0 <= i < dp[k].len() && dp[k][i] == e;
    }
    if status.ahead > 0 {
        assert(ap[0][0] == u);
        assert(ap[0].contains(u));
    }
    if status.behind > 0 {
        assert(bp[0][0] == d);
        assert(bp[0].contains(d));
    }
}
} // verus!
