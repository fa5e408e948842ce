//! Machine-readable records: tab-separated fields, one record per line.
//!
//! Every field is escaped so that no value can introduce a field or record
//! boundary: `\` becomes `\\`, tab `\t`, newline `\n`, carriage return `\r`.
//! Absent optional fields are written `-`.

use vstd::prelude::*;
use crate::text::{chars_of, push_char, texts};

verus! {

/// Whether the porcelain protocol replaces the decorated output.
#[derive(Debug, Clone, Copy, PartialEq, Eq, Structural)]
pub struct OutputMode {
    pub porcelain: bool,
}

/// Switches porcelain output on or off.
pub fn set(mode: &mut OutputMode, value: bool)
    ensures
        final(mode).porcelain == value,
{
    mode.porcelain = value;
}

/// Whether porcelain output is on.
pub fn enabled(mode: &OutputMode) -> (r: bool)
    ensures
        r == mode.porcelain,
{
    mode.porcelain
}

/// Placeholder for an absent optional field.
pub const NONE: &'static str = "-";

/// The escaped form of one character.
pub open spec fn escape_char(c: char) -> Seq<char> {
    if c == '\\' {
        seq!['\\', '\\']
    } else if c == '\t' {
        seq!['\\', 't']
    } else if c == '\n' {
        seq!['\\', 'n']
    } else if c == '\r' {
        seq!['\\', 'r']
    } else {
        seq![c]
    }
}

/// The escaped form of a field: each character escaped in turn.
pub open spec fn escaped(s: Seq<char>) -> Seq<char>
    decreases s.len(),
{
    if s.len() == 0 {
        Seq::empty()
    } else {
        escape_char(s[0]) + escaped(s.skip(1))
    }
}

/// Reads an escaped field back.
pub open spec fn unescaped(t: Seq<char>) -> Seq<char>
    decreases t.len(),
{
    if t.len() == 0 {
        Seq::empty()
    } else if t[0] == '\\' && t.len() >= 2 {
        let c = t[1];
        let head = if c == 't' {
            seq!['\t']
        } else if c == 'n' {
            seq!['\n']
        } else if c == 'r' {
            seq!['\r']
        } else if c == '\\' {
            seq!['\\']
        } else {
            seq!['\\', c]
        };
        head + unescaped(t.skip(2))
    } else {
        seq![t[0]] + unescaped(t.skip(1))
    }
}

/// Fields joined by single tabs.
pub open spec fn joined(fields: Seq<Seq<char>>) -> Seq<char>
    decreases fields.len(),
{
    if fields.len() == 0 {
        Seq::empty()
    } else if fields.len() == 1 {
        fields[0]
    } else {
        fields[0] + seq!['\t'] + joined(fields.skip(1))
    }
}

/// A line cut at every tab (`str::split('\t')`).
pub open spec fn split_tabs(s: Seq<char>) -> Seq<Seq<char>>
    decreases s.len(),
{
    if s.len() == 0 {
        seq![Seq::empty()]
    } else {
        let rest = split_tabs(s.skip(1));
        if s[0] == '\t' {
            seq![Seq::<char>::empty()] + rest
        } else {
            rest.update(0, seq![s[0]] + rest[0])
        }
    }
}

/// The escaped fields of a record, in order.
pub open spec fn escaped_fields(fields: Seq<Seq<char>>) -> Seq<Seq<char>> {
    fields.map_values(|f: Seq<char>| escaped(f))
}

/// The text of a record line (without its newline).
pub open spec fn record_text(fields: Seq<Seq<char>>) -> Seq<char> {
    joined(escaped_fields(fields))
}

proof fn lemma_escaped_concat(a: Seq<char>, b: Seq<char>)
    ensures
        escaped(a + b) == escaped(a) + escaped(b),
    decreases a.len(),
{
    if a.len() == 0 {
        assert(a + b =~= b);
    } else {
        assert((a + b).skip(1) =~= a.skip(1) + b);
        lemma_escaped_concat(a.skip(1), b);
        assert(escaped(a + b) =~= escaped(a) + escaped(b));
    }
}

proof fn lemma_escaped_push(a: Seq<char>, c: char)
    ensures
        escaped(a.push(c)) == escaped(a) + escape_char(c),
{
    lemma_escaped_concat(a, seq![c]);
    assert(a.push(c) =~= a + seq![c]);
    assert(seq![c].skip(1) =~= Seq::<char>::empty());
    assert(escaped(Seq::<char>::empty()) == Seq::<char>::empty());
    assert(escaped(seq![c]) == escape_char(seq![c][0]) + escaped(seq![c].skip(1)));
    assert(escaped(seq![c]) =~= escape_char(c));
}

/// Escapes a field so it cannot introduce a spurious field or record boundary.
pub fn escape(field: &str) -> (out: String)
    ensures
        out@ == escaped(field@),
{
    let cs = chars_of(field);
    let mut out = String::new();
    let mut i: usize = 0;
    while i < cs.len()
        invariant
            i <= cs.len(),
            out@ == escaped(cs@.take(i as int)),
        decreases cs.len() - i,
    {
        let c = cs[i];
        proof {
            lemma_escaped_push(cs@.take(i as int), c);
            assert(cs@.take(i as int).push(c) =~= cs@.take(i + 1));
        }
        if c == '\\' {
            push_char(&mut out, '\\');
            push_char(&mut out, '\\');
        } else if c == '\t' {
            push_char(&mut out, '\\');
            push_char(&mut out, 't');
        } else if c == '\n' {
            push_char(&mut out, '\\');
            push_char(&mut out, 'n');
        } else if c == '\r' {
            push_char(&mut out, '\\');
            push_char(&mut out, 'r');
        } else {
            push_char(&mut out, c);
        }
        i = i + 1;
        assert(out@ =~= escaped(cs@.take(i as int)));
    }
    assert(cs@.take(i as int) =~= cs@);
    out
}

proof fn lemma_joined_push(fields: Seq<Seq<char>>, f: Seq<char>)
    requires
        fields.len() >= 1,
    ensures
        joined(fields.push(f)) == joined(fields) + seq!['\t'] + f,
    decreases fields.len(),
{
    if fields.len() == 1 {
        assert(fields.push(f).skip(1) =~= seq![f]);
        assert(joined(seq![f]) == f);
    } else {
        assert(fields.push(f).skip(1) =~= fields.skip(1).push(f));
        lemma_joined_push(fields.skip(1), f);
        assert(joined(fields.push(f)) =~= joined(fields) + seq!['\t'] + f);
    }
}

/// The line for one record: escaped fields joined by tabs.
pub fn record_line(fields: &Vec<String>) -> (line: String)
    ensures
        line@ == record_text(texts(fields@)),
{
    let ghost fs = texts(fields@);
    let mut line = String::new();
    let mut i: usize = 0;
    while i < fields.len()
        invariant
            i <= fields.len(),
            fs == texts(fields@),
            line@ == joined(escaped_fields(fs.take(i as int))),
        decreases fields.len() - i,
    {
        let e = escape(fields[i].as_str());
        proof {
            assert(escaped_fields(fs.take(i + 1)) =~= escaped_fields(fs.take(i as int)).push(
                escaped(fs[i as int]),
            ));
            if i >= 1 {
                lemma_joined_push(escaped_fields(fs.take(i as int)), escaped(fs[i as int]));
            } else {
                assert(escaped_fields(fs.take(1)) =~= seq![escaped(fs[0])]);
            }
        }
        if i > 0 {
            push_char(&mut line, '\t');
        }
        line.append(e.as_str());
        i = i + 1;
        assert(line@ =~= joined(escaped_fields(fs.take(i as int))));
    }
    assert(fs.take(i as int) =~= fs);
    line
}

/// Emits one record: the line to write when porcelain output is on, and
/// nothing otherwise, so call sites need not branch.
pub fn record(mode: &OutputMode, fields: &Vec<String>) -> (r: Option<String>)
    ensures
        mode.porcelain ==> (r matches Some(line) && line@ == record_text(texts(fields@))),
        !mode.porcelain ==> r is None,
{
    if mode.porcelain {
        Some(record_line(fields))
    } else {
        None
    }
}

/// The error record for `msg`, written to stderr: `error`, a tab, and the
/// escaped message.
pub fn error(msg: &str) -> (line: String)
    ensures
        line@ == seq!['e', 'r', 'r', 'o', 'r', '\t'] + escaped(msg@),
{
    let mut line = String::new();
    push_char(&mut line, 'e');
    push_char(&mut line, 'r');
    push_char(&mut line, 'r');
    push_char(&mut line, 'o');
    push_char(&mut line, 'r');
    push_char(&mut line, '\t');
    let e = escape(msg);
    line.append(e.as_str());
    assert(line@ =~= seq!['e', 'r', 'r', 'o', 'r', '\t'] + escaped(msg@));
    line
}


/// No tab, newline or carriage return appears in `s`.
pub open spec fn free_of_separators(s: Seq<char>) -> bool {
    forall|i: int| 0 <= i < s.len() ==> s[i] != '\t' && s[i] != '\n' && s[i] != '\r'
}

/// Escaping can be undone: reading an escaped field back gives the field.
pub proof fn lemma_unescape_escape(s: Seq<char>)
    ensures
        unescaped(escaped(s)) == s,
    decreases s.len(),
{
    if s.len() == 0 {
    } else {
        let t = escaped(s);
        let rest = escaped(s.skip(1));
        lemma_unescape_escape(s.skip(1));
        let c = s[0];
        if c == '\\' || c == '\t' || c == '\n' || c == '\r' {
            assert(t.skip(2) =~= rest);
        } else {
            assert(t.skip(1) =~= rest);
        }
        assert(unescaped(t) =~= s);
    }
}

/// Escaping is unambiguous: distinct fields never escape to the same text.
pub proof fn lemma_escape_injective(a: Seq<char>, b: Seq<char>)
    requires
        escaped(a) == escaped(b),
    ensures
        a == b,
{
    lemma_unescape_escape(a);
    lemma_unescape_escape(b);
}

/// An escaped field holds no tab, newline or carriage return, so it can
/// introduce neither a field nor a record boundary.
pub proof fn lemma_escaped_free_of_separators(s: Seq<char>)
    ensures
        free_of_separators(escaped(s)),
    decreases s.len(),
{
    if s.len() > 0 {
        lemma_escaped_free_of_separators(s.skip(1));
        let t = escaped(s);
        let h = escape_char(s[0]);
        assert(t == h + escaped(s.skip(1)));
        assert forall|i: int| 0 <= i < t.len() implies t[i] != '\t' && t[i] != '\n' && t[i]
            != '\r' by {
            if i >= h.len() {
                assert(t[i] == escaped(s.skip(1))[i - h.len()]);
            }
        }
    }
}

proof fn lemma_split_free(f: Seq<char>)
    requires
        forall|i: int| 0 <= i < f.len() ==> f[i] != '\t',
    ensures
        split_tabs(f) == seq![f],
    decreases f.len(),
{
    if f.len() > 0 {
        lemma_split_free(f.skip(1));
        assert(seq![f[0]] + f.skip(1) =~= f);
        assert(split_tabs(f) =~= seq![f]);
    } else {
        assert(f =~= Seq::<char>::empty());
    }
}

proof fn lemma_split_concat(a: Seq<char>, b: Seq<char>)
    ensures
        split_tabs(a + seq!['\t'] + b) == split_tabs(a) + split_tabs(b),
    decreases a.len(),
{
    if a.len() == 0 {
        assert(a + seq!['\t'] + b =~= seq!['\t'] + b);
        assert((seq!['\t'] + b).skip(1) =~= b);
        assert(split_tabs(a) =~= seq![Seq::<char>::empty()]);
    } else {
        assert((a + seq!['\t'] + b).skip(1) =~= a.skip(1) + seq!['\t'] + b);
        lemma_split_concat(a.skip(1), b);
        let ra = split_tabs(a.skip(1));
        assert(ra.len() >= 1) by {
            lemma_split_nonempty(a.skip(1));
        }
        if a[0] == '\t' {
            assert(split_tabs(a + seq!['\t'] + b) =~= split_tabs(a) + split_tabs(b));
        } else {
            assert(split_tabs(a + seq!['\t'] + b) =~= split_tabs(a) + split_tabs(b));
        }
    }
}

proof fn lemma_split_nonempty(a: Seq<char>)
    ensures
        split_tabs(a).len() >= 1,
    decreases a.len(),
{
    if a.len() > 0 {
        lemma_split_nonempty(a.skip(1));
    }
}

proof fn lemma_split_joined(fs: Seq<Seq<char>>)
    requires
        fs.len() >= 1,
        forall|k: int, i: int| 0 <= k < fs.len() && 0 <= i < fs[k].len() ==> fs[k][i] != '\t',
    ensures
        split_tabs(joined(fs)) == fs,
    decreases fs.len(),
{
    lemma_split_free(fs[0]);
    if fs.len() > 1 {
        lemma_split_joined(fs.skip(1));
        lemma_split_concat(fs[0], joined(fs.skip(1)));
        assert(seq![fs[0]] + fs.skip(1) =~= fs);
    }
}

/// A record line never contains a newline, and cutting it at its tabs and
/// reading each piece back gives exactly the fields it was written from.
pub proof fn lemma_record_round_trip(fields: Seq<Seq<char>>)
    requires
        fields.len() >= 1,
    ensures
        split_tabs(record_text(fields)).map_values(|t: Seq<char>| unescaped(t)) == fields,
        forall|i: int| 0 <= i < record_text(fields).len() ==> record_text(fields)[i] != '\n',
{
    let es = escaped_fields(fields);
    assert forall|k: int, i: int| 0 <= k < es.len() && 0 <= i < es[k].len() implies es[k][i]
        != '\t' by {
        lemma_escaped_free_of_separators(fields[k]);
    }
    lemma_split_joined(es);
    assert forall|k: int| 0 <= k < fields.len() implies unescaped(es[k]) == fields[k] by {
        lemma_unescape_escape(fields[k]);
    }
    assert(split_tabs(record_text(fields)).map_values(|t: Seq<char>| unescaped(t)) =~= fields);
    assert forall|k: int| 0 <= k < es.len() implies free_of_separators(es[k]) by {
        lemma_escaped_free_of_separators(fields[k]);
    }
    lemma_joined_free(es);
}

proof fn lemma_joined_free(fs: Seq<Seq<char>>)
    requires
        forall|k: int| 0 <= k < fs.len() ==> free_of_separators(#[trigger] fs[k]),
    ensures
        forall|i: int| 0 <= i < joined(fs).len() ==> joined(fs)[i] != '\n',
    decreases fs.len(),
{
    if fs.len() > 1 {
        lemma_joined_free(fs.skip(1));
        let j = joined(fs);
        let a = fs[0] + seq!['\t'];
        assert(j == a + joined(fs.skip(1)));
        assert(free_of_separators(fs[0]));
        assert forall|i: int| 0 <= i < j.len() implies j[i] != '\n' by {
            if i < fs[0].len() {
                assert(j[i] == fs[0][i]);
            } else if i == fs[0].len() {
                assert(j[i] == '\t');
            } else {
                assert(j[i] == joined(fs.skip(1))[i - a.len()]);
            }
        }
    } else if fs.len() == 1 {
        assert(free_of_separators(fs[0]));
    }
}

} // verus!
