//! The line classifier and the merge engine for `KEY=value` documents.
//!
//! A document is a sequence of lines. Each line is either kept verbatim
//! (`Raw`) or understood as a variable assignment (`Entry`) whose prefix —
//! everything up to and including the first `=` — is preserved byte for byte
//! so that untouched entries re-serialize identically.

use vstd::prelude::*;

use crate::chars::{
    find_char, find_eq, is_space_char, is_valid_key_seq, is_space, leading_spaces,
    lemma_find_char, lemma_find_char_unique, lemma_leading_spaces, lemma_leading_spaces_unique,
    lemma_trailing_spaces, lemma_trailing_spaces_unique, lemma_trim_all_space, lemma_trim_window,
    find_char_from, is_key_start_char, is_key_char, trim_seq, trim_end_seq, lex_le, str_lex_le,
};

verus! {

/// How a change record came about: a key newly introduced, or an existing
/// entry whose value text changed.
#[derive(Debug, Clone, PartialEq, Eq, Structural)]
pub enum ChangeKind {
    Add,
    Update,
}

/// A redaction-safe change record: the target variable name and the kind of
/// change. Change records never carry secret values.
#[derive(Debug, Clone, PartialEq, Eq)]
pub struct Change {
    pub key: String,
    pub kind: ChangeKind,
}

/// An assignment line, split as `prefix` (everything up to and including the
/// first `=`) and `value` (everything after it). `key` is the trimmed
/// left-hand side.
#[derive(Debug, Clone)]
pub struct EntryLine {
    pub key: String,
    pub prefix: String,
    pub value: String,
}

/// One classified line of a document.
#[derive(Debug, Clone)]
pub enum Line {
    Raw(String),
    Entry(EntryLine),
}

/// A line is blank, or its first non-whitespace character is `#`.
pub open spec fn is_blank_or_comment(s: Seq<char>) -> bool {
    leading_spaces(s) == s.len() || s[leading_spaces(s)] == '#'
}

/// Whether the classifier reads `s` as an assignment: not blank or comment,
/// holding an `=`, with a syntactically valid variable name before it.
pub open spec fn classifies_as_entry(s: Seq<char>) -> bool {
    &&& !is_blank_or_comment(s)
    &&& find_eq(s) >= 0
    &&& is_valid_key_seq(trim_seq(s.subrange(0, find_eq(s))))
}

/// The trimmed left-hand side of an assignment line.
pub open spec fn entry_key(s: Seq<char>) -> Seq<char> {
    trim_seq(s.subrange(0, find_eq(s)))
}

/// Everything up to and including the first `=`.
pub open spec fn entry_prefix(s: Seq<char>) -> Seq<char> {
    s.subrange(0, find_eq(s) + 1)
}

/// Everything after the first `=`.
pub open spec fn entry_value(s: Seq<char>) -> Seq<char> {
    s.subrange(find_eq(s) + 1, s.len() as int)
}

/// What the classifier must return for the text `s`.
pub open spec fn is_classification_of(l: Line, s: Seq<char>) -> bool {
    match l {
        Line::Raw(raw) => raw@ == s && !classifies_as_entry(s),
        Line::Entry(e) => {
            &&& classifies_as_entry(s)
            &&& e.key@ == entry_key(s)
            &&& e.prefix@ == entry_prefix(s)
            &&& e.value@ == entry_value(s)
        },
    }
}

/// The text a classified line stands for. Classification loses nothing:
/// `prefix + value` is the original line.
pub open spec fn line_text(l: Line) -> Seq<char> {
    match l {
        Line::Raw(raw) => raw@,
        Line::Entry(e) => e.prefix@ + e.value@,
    }
}

/// Whether `key` is a syntactically valid variable name:
/// `[A-Za-z_][A-Za-z0-9_]*`.
pub fn is_valid_env_key(key: &str) -> (r: bool)
    ensures
        r == is_valid_key_seq(key@),
{
    let n: usize = key.unicode_len();
    if n == 0 {
        return false;
    }
    let c0 = key.get_char(0);
    if !(c0 == '_' || ('a' <= c0 && c0 <= 'z') || ('A' <= c0 && c0 <= 'Z')) {
        return false;
    }
    let mut i: usize = 1;
    while i < n
        invariant
            1 <= i <= n,
            n == key@.len(),
            is_key_start_char(key@[0]),
            forall|j: int| 1 <= j < i ==> is_key_char(#[trigger] key@[j]),
        decreases n - i,
    {
        let c = key.get_char(i);
        if !(c == '_' || ('a' <= c && c <= 'z') || ('A' <= c && c <= 'Z') || ('0' <= c && c
            <= '9')) {
            return false;
        }
        i = i + 1;
    }
    true
}

/// Classifies one line of a document. Pure and total: anything the
/// classifier does not understand is kept verbatim as `Raw`.
pub fn parse_line(line: &str) -> (r: Line)
    ensures
        is_classification_of(r, line@),
{
    let n: usize = line.unicode_len();

    // Find the first non-whitespace character.
    let mut j: usize = 0;
    while j < n && is_space(line.get_char(j))
        invariant
            0 <= j <= n,
            n == line@.len(),
            forall|i: int| 0 <= i < j ==> is_space_char(#[trigger] line@[i]),
        decreases n - j,
    {
        j = j + 1;
    }
    proof {
        lemma_leading_spaces_unique(line@, j as int);
    }

    if j == n {
        // Blank line.
        return Line::Raw(line.to_owned());
    }
    if line.get_char(j) == '#' {
        // Comment line.
        return Line::Raw(line.to_owned());
    }

    let eq = match find_char_from(line, '=', 0, n) {
        Some(i) => {
            proof {
                assert(line@.subrange(0, n as int) =~= line@);
            }
            i
        },
        None => {
            proof {
                assert(line@.subrange(0, n as int) =~= line@);
            }
            return Line::Raw(line.to_owned());
        },
    };
    let ghost lhs = line@.subrange(0, eq as int);
    proof {
        assert(forall|i: int| 0 <= i < lhs.len() ==> #[trigger] lhs[i] == line@[i]);
    }

    if j >= eq {
        // Nothing but whitespace before the `=`: the key would be empty.
        proof {
            lemma_trim_all_space(lhs);
        }
        return Line::Raw(line.to_owned());
    }

    // Trim trailing whitespace of the left-hand side.
    let mut b: usize = eq;
    while b > j && is_space(line.get_char(b - 1))
        invariant
            j <= b <= eq,
            eq < n == line@.len(),
            forall|i: int| b <= i < eq ==> is_space_char(#[trigger] line@[i]),
        decreases b,
    {
        b = b - 1;
    }
    // line[j] is not whitespace, so the trimmed window [j, b) is non-empty.
    proof {
        if b == j {
            assert(is_space_char(line@[j as int]));
            assert(false);
        }
        lemma_trim_window(lhs, j as int, b as int);
        assert(lhs.subrange(j as int, b as int) =~= line@.subrange(j as int, b as int));
    }

    // Check the variable-name character set over the trimmed window.
    let key_str = line.substring_char(j, b);
    if !is_valid_env_key(key_str) {
        return Line::Raw(line.to_owned());
    }

    let key = key_str.to_owned();
    let prefix = line.substring_char(0, eq + 1).to_owned();
    let value = line.substring_char(eq + 1, n).to_owned();
    Line::Entry(EntryLine { key, prefix, value })
}

/// The name-to-value pairs a list of update pairs stands for.
pub open spec fn pairs_view(u: Seq<(String, String)>) -> Seq<(Seq<char>, Seq<char>)> {
    u.map_values(|p: (String, String)| (p.0@, p.1@))
}

/// The texts a list of output lines stands for.
pub open spec fn texts_view(v: Seq<String>) -> Seq<Seq<char>> {
    v.map_values(|s: String| s@)
}

/// The records a list of changes stands for.
pub open spec fn changes_view(cs: Seq<Change>) -> Seq<(Seq<char>, ChangeKind)> {
    cs.map_values(|c: Change| (c.key@, c.kind))
}

/// Index of the first pair whose name is `k`, or -1 when there is none.
pub open spec fn alist_idx(u: Seq<(Seq<char>, Seq<char>)>, k: Seq<char>) -> int
    decreases u.len(),
{
    if u.len() == 0 {
        -1
    } else if u[0].0 == k {
        0
    } else if alist_idx(u.drop_first(), k) < 0 {
        -1
    } else {
        1 + alist_idx(u.drop_first(), k)
    }
}

pub open spec fn alist_has(u: Seq<(Seq<char>, Seq<char>)>, k: Seq<char>) -> bool {
    alist_idx(u, k) >= 0
}

/// The value paired with the first occurrence of name `k`.
pub open spec fn alist_get(u: Seq<(Seq<char>, Seq<char>)>, k: Seq<char>) -> Seq<char> {
    u[alist_idx(u, k)].1
}

pub proof fn lemma_alist_idx(u: Seq<(Seq<char>, Seq<char>)>, k: Seq<char>)
    ensures
        alist_idx(u, k) >= 0 ==> alist_idx(u, k) < u.len() && u[alist_idx(u, k)].0 == k
            && forall|j: int| 0 <= j < alist_idx(u, k) ==> u[j].0 != k,
        alist_idx(u, k) < 0 ==> forall|j: int| 0 <= j < u.len() ==> u[j].0 != k,
    decreases u.len(),
{
    if u.len() > 0 && u[0].0 != k {
        let t = u.drop_first();
        lemma_alist_idx(t, k);
        assert(forall|j: int| 0 <= j < t.len() ==> #[trigger] t[j] == u[j + 1]);
        if alist_idx(t, k) >= 0 {
            assert forall|j: int| 0 <= j < alist_idx(u, k) implies u[j].0 != k by {
                if j > 0 {
                    assert(u[j] == t[j - 1]);
                }
            }
        } else {
            assert forall|j: int| 0 <= j < u.len() implies u[j].0 != k by {
                if j > 0 {
                    assert(u[j] == t[j - 1]);
                }
            }
        }
    }
}

/// The first match is pinned by what the names are.
pub proof fn lemma_alist_idx_unique(u: Seq<(Seq<char>, Seq<char>)>, k: Seq<char>, i: int)
    requires
        0 <= i < u.len(),
        u[i].0 == k,
        forall|j: int| 0 <= j < i ==> u[j].0 != k,
    ensures
        alist_idx(u, k) == i,
{
    lemma_alist_idx(u, k);
}

/// One pass of the merge over the existing lines, carrying the remaining
/// updates. Yields the rewritten line texts, the update records in line
/// order, and the updates left unconsumed.
pub open spec fn merge_walk(ls: Seq<Line>, u: Seq<(Seq<char>, Seq<char>)>) -> (
    Seq<Seq<char>>,
    Seq<(Seq<char>, ChangeKind)>,
    Seq<(Seq<char>, Seq<char>)>,
)
    decreases ls.len(),
{
    if ls.len() == 0 {
        (Seq::empty(), Seq::empty(), u)
    } else {
        match ls[0] {
            Line::Raw(raw) => {
                let rest = merge_walk(ls.drop_first(), u);
                (seq![raw@] + rest.0, rest.1, rest.2)
            },
            Line::Entry(e) => {
                if alist_has(u, e.key@) {
                    let nv = alist_get(u, e.key@);
                    let rest = merge_walk(ls.drop_first(), u.remove(alist_idx(u, e.key@)));
                    let recs: Seq<(Seq<char>, ChangeKind)> = if nv != e.value@ {
                        seq![(e.key@, ChangeKind::Update)]
                    } else {
                        Seq::empty()
                    };
                    (seq![e.prefix@ + nv] + rest.0, recs + rest.1, rest.2)
                } else {
                    let rest = merge_walk(ls.drop_first(), u);
                    (seq![e.prefix@ + e.value@] + rest.0, rest.1, rest.2)
                }
            },
        }
    }
}

/// Index of the pair with the smallest name, ties going to the earlier pair.
pub open spec fn min_key_idx(s: Seq<(Seq<char>, Seq<char>)>) -> int
    decreases s.len(),
{
    if s.len() <= 1 {
        0
    } else {
        let m = min_key_idx(s.drop_last());
        if lex_le(s[m].0, s.last().0) {
            m
        } else {
            s.len() - 1
        }
    }
}

pub proof fn lemma_min_key_idx_bounds(s: Seq<(Seq<char>, Seq<char>)>)
    requires
        s.len() > 0,
    ensures
        0 <= min_key_idx(s) < s.len(),
    decreases s.len(),
{
    if s.len() > 1 {
        lemma_min_key_idx_bounds(s.drop_last());
    }
}

/// Selection sort of update pairs by name, in lexicographic order.
pub open spec fn sort_pairs(s: Seq<(Seq<char>, Seq<char>)>) -> Seq<(Seq<char>, Seq<char>)>
    decreases s.len(),
    via sort_pairs_decreases
{
    if s.len() == 0 {
        s
    } else {
        seq![s[min_key_idx(s)]] + sort_pairs(s.remove(min_key_idx(s)))
    }
}

#[via_fn]
proof fn sort_pairs_decreases(s: Seq<(Seq<char>, Seq<char>)>) {
    if s.len() > 0 {
        lemma_min_key_idx_bounds(s);
    }
}

/// The texts of the appended lines, `NAME=value` each, in sorted order.
pub open spec fn added_line_texts(rem: Seq<(Seq<char>, Seq<char>)>) -> Seq<Seq<char>> {
    sort_pairs(rem).map_values(|p: (Seq<char>, Seq<char>)| p.0 + seq!['='] + p.1)
}

/// All output line texts of a merge: the rewritten existing lines, then the
/// new `NAME=value` lines in lexicographic name order.
pub open spec fn merge_out_lines(ls: Seq<Line>, u: Seq<(Seq<char>, Seq<char>)>) -> Seq<Seq<char>> {
    merge_walk(ls, u).0 + added_line_texts(merge_walk(ls, u).2)
}

/// All change records of a merge: updates in line order, then adds in
/// lexicographic name order.
pub open spec fn merge_change_records(ls: Seq<Line>, u: Seq<(Seq<char>, Seq<char>)>) -> Seq<
    (Seq<char>, ChangeKind),
> {
    merge_walk(ls, u).1 + sort_pairs(merge_walk(ls, u).2).map_values(
        |p: (Seq<char>, Seq<char>)| (p.0, ChangeKind::Add),
    )
}

/// Output lines joined with a single newline between them, none trailing.
pub open spec fn join_nl(ls: Seq<Seq<char>>) -> Seq<char>
    decreases ls.len(),
{
    if ls.len() == 0 {
        Seq::empty()
    } else if ls.len() == 1 {
        ls[0]
    } else {
        ls[0] + seq!['\n'] + join_nl(ls.drop_first())
    }
}

/// The merged text of a document and an update mapping.
pub open spec fn merge_text(ls: Seq<Line>, u: Seq<(Seq<char>, Seq<char>)>) -> Seq<char> {
    join_nl(merge_out_lines(ls, u))
}

pub proof fn lemma_join_push(ls: Seq<Seq<char>>, x: Seq<char>)
    ensures
        join_nl(ls.push(x)) == if ls.len() == 0 {
            x
        } else {
            join_nl(ls) + seq!['\n'] + x
        },
    decreases ls.len(),
{
    let e = ls.push(x);
    if ls.len() == 0 {
        assert(e.len() == 1);
        assert(join_nl(e) == e[0]);
    } else {
        assert(e.drop_first() =~= ls.drop_first().push(x));
        lemma_join_push(ls.drop_first(), x);
        if ls.len() == 1 {
            assert(join_nl(e) == e[0] + seq!['\n'] + join_nl(e.drop_first()));
            assert(join_nl(e.drop_first()) == x);
        }
    }
}

/// Index of the first pair in `u` whose name is `key`, if any.
pub(crate) fn find_pair(u: &Vec<(String, String)>, key: &String) -> (r: Option<usize>)
    ensures
        match r {
            Some(i) => 0 <= alist_idx(pairs_view(u@), key@) == i < u@.len(),
            None => alist_idx(pairs_view(u@), key@) < 0,
        },
{
    let ghost uv = pairs_view(u@);
    let n = u.len();
    let mut idx: usize = 0;
    while idx < n
        invariant
            0 <= idx <= n == u@.len(),
            uv == pairs_view(u@),
            forall|j: int| 0 <= j < idx ==> uv[j].0 != key@,
        decreases n - idx,
    {
        proof {
            assert(uv[idx as int].0 == u@[idx as int].0@);
        }
        if u[idx].0 == *key {
            proof {
                lemma_alist_idx_unique(uv, key@, idx as int);
            }
            return Some(idx);
        }
        idx = idx + 1;
    }
    proof {
        lemma_alist_idx(uv, key@);
        if alist_idx(uv, key@) >= 0 {
            assert(uv[alist_idx(uv, key@)].0 == key@);
            assert(false);
        }
    }
    None
}

/// Removes and returns the pair with the smallest name, ties going to the
/// earliest.
fn pop_min(rem: &mut Vec<(String, String)>) -> (p: (String, String))
    requires
        old(rem)@.len() > 0,
    ensures
        (p.0@, p.1@) == pairs_view(old(rem)@)[min_key_idx(pairs_view(old(rem)@))],
        pairs_view(final(rem)@) == pairs_view(old(rem)@).remove(
            min_key_idx(pairs_view(old(rem)@)),
        ),
{
    let ghost s = pairs_view(old(rem)@);
    let n: usize = rem.len();
    let mut best: usize = 0;
    let mut i: usize = 1;
    while i < n
        invariant
            1 <= i <= n == rem@.len(),
            rem@ == old(rem)@,
            s == pairs_view(rem@),
            0 <= best < i,
            best == min_key_idx(s.subrange(0, i as int)),
        decreases n - i,
    {
        proof {
            let w = s.subrange(0, i + 1);
            assert(w.drop_last() =~= s.subrange(0, i as int));
            assert(w.last() == s[i as int]);
            assert(s[best as int].0 == rem@[best as int].0@);
            assert(s[i as int].0 == rem@[i as int].0@);
        }
        if !str_lex_le(rem[best].0.as_str(), rem[i].0.as_str()) {
            best = i;
        }
        i = i + 1;
    }
    proof {
        assert(s.subrange(0, n as int) =~= s);
    }
    let p = rem.remove(best);
    proof {
        assert(pairs_view(rem@) =~= s.remove(best as int));
    }
    p
}

/// Merges an update mapping into the classified lines of a document.
///
/// Walks the existing lines in order: raw lines pass through verbatim; an
/// entry whose key has an update consumes it and is rewritten as
/// `prefix + new value`, recorded as an update only when the value text
/// actually changed; other entries re-serialize unchanged. Updates left over
/// are appended as `NAME=value` lines in lexicographic name order, each
/// recorded as an add. The text joins all lines with single newlines.
pub fn merge(lines: Vec<Line>, updates: &Vec<(String, String)>) -> (r: (String, Vec<Change>))
    ensures
        r.0@ == merge_text(lines@, pairs_view(updates@)),
        changes_view(r.1@) == merge_change_records(lines@, pairs_view(updates@)),
{
    let ghost u0 = pairs_view(updates@);

    // The working copy of the updates.
    let mut rem: Vec<(String, String)> = Vec::new();
    let mut i: usize = 0;
    while i < updates.len()
        invariant
            0 <= i <= updates.len(),
            pairs_view(rem@) =~= pairs_view(updates@).subrange(0, i as int),
        decreases updates.len() - i,
    {
        let ghost r0 = rem@;
        let a = updates[i].0.clone();
        let b = updates[i].1.clone();
        rem.push((a, b));
        proof {
            assert(a@ == updates@[i as int].0@);
            assert(b@ == updates@[i as int].1@);
            assert(pairs_view(rem@) =~= pairs_view(r0).push((a@, b@)));
            assert(pairs_view(updates@).subrange(0, i + 1) =~= pairs_view(updates@).subrange(
                0,
                i as int,
            ).push((updates@[i as int].0@, updates@[i as int].1@)));
            assert(pairs_view(rem@) =~= pairs_view(updates@).subrange(0, i + 1));
        }
        i = i + 1;
    }
    proof {
        assert(pairs_view(updates@).subrange(0, updates@.len() as int) =~= pairs_view(updates@));
        assert(pairs_view(rem@) =~= u0);
        assert(lines@.subrange(0, lines@.len() as int) =~= lines@);
    }

    let mut out: Vec<String> = Vec::new();
    let mut changes: Vec<Change> = Vec::new();

    let n = lines.len();
    let mut i: usize = 0;
    while i < n
        invariant
            0 <= i <= n == lines@.len(),
            merge_walk(lines@, u0).0 =~= texts_view(out@) + merge_walk(
                lines@.subrange(i as int, n as int),
                pairs_view(rem@),
            ).0,
            merge_walk(lines@, u0).1 =~= changes_view(changes@) + merge_walk(
                lines@.subrange(i as int, n as int),
                pairs_view(rem@),
            ).1,
            merge_walk(lines@, u0).2 =~= merge_walk(
                lines@.subrange(i as int, n as int),
                pairs_view(rem@),
            ).2,
        decreases n - i,
    {
        let ghost rest = lines@.subrange(i as int, n as int);
        let ghost uv = pairs_view(rem@);
        proof {
            assert(rest.len() > 0);
            assert(rest[0] == lines@[i as int]);
            assert(rest.drop_first() =~= lines@.subrange(i + 1, n as int));
        }
        match &lines[i] {
            Line::Raw(raw) => {
                out.push(raw.clone());
            },
            Line::Entry(e) => {
                // Look for the first remaining update naming this key.
                match find_pair(&rem, &e.key) {
                    Some(idx) => {
                        let (_, new_value) = rem.remove(idx);
                        proof {
                            assert(pairs_view(rem@) =~= uv.remove(idx as int));
                            lemma_alist_idx(uv, e.key@);
                        }
                        if new_value != e.value {
                            changes.push(Change { key: e.key.clone(), kind: ChangeKind::Update });
                        }
                        let mut text = e.prefix.clone();
                        text.append(new_value.as_str());
                        out.push(text);
                    },
                    None => {
                        let mut text = e.prefix.clone();
                        text.append(e.value.as_str());
                        out.push(text);
                    },
                }
            },
        }
        proof {
            assert(merge_walk(lines@, u0).0 =~= texts_view(out@) + merge_walk(
                lines@.subrange(i + 1, n as int),
                pairs_view(rem@),
            ).0);
            assert(merge_walk(lines@, u0).1 =~= changes_view(changes@) + merge_walk(
                lines@.subrange(i + 1, n as int),
                pairs_view(rem@),
            ).1);
            assert(merge_walk(lines@, u0).2 =~= merge_walk(
                lines@.subrange(i + 1, n as int),
                pairs_view(rem@),
            ).2);
        }
        i = i + 1;
    }
    proof {
        assert(lines@.subrange(n as int, n as int) =~= Seq::<Line>::empty());
        assert(merge_walk(lines@, u0).0 =~= texts_view(out@));
        assert(merge_walk(lines@, u0).1 =~= changes_view(changes@));
        assert(merge_walk(lines@, u0).2 =~= pairs_view(rem@));
    }
    let ghost leftover = merge_walk(lines@, u0).2;

    // Sort the unconsumed updates by name.
    let mut sorted: Vec<(String, String)> = Vec::new();
    while rem.len() > 0
        invariant
            sort_pairs(leftover) =~= pairs_view(sorted@) + sort_pairs(pairs_view(rem@)),
        decreases rem@.len(),
    {
        let ghost r = pairs_view(rem@);
        let ghost s0 = pairs_view(sorted@);
        proof {
            lemma_min_key_idx_bounds(r);
        }
        let p = pop_min(&mut rem);
        sorted.push(p);
        proof {
            assert(pairs_view(sorted@) =~= s0.push(r[min_key_idx(r)]));
            assert(sort_pairs(r) == seq![r[min_key_idx(r)]] + sort_pairs(r.remove(min_key_idx(r))));
            assert(sort_pairs(leftover) =~= pairs_view(sorted@) + sort_pairs(pairs_view(rem@)));
        }
    }
    proof {
        assert(pairs_view(rem@) =~= Seq::<(Seq<char>, Seq<char>)>::empty());
        assert(pairs_view(sorted@) =~= sort_pairs(leftover));
    }

    // Append the new lines, each recorded as an add.
    let ghost sp = sort_pairs(leftover);
    let m = sorted.len();
    let mut i: usize = 0;
    while i < m
        invariant
            0 <= i <= m == sorted@.len(),
            sp == pairs_view(sorted@),
            texts_view(out@) =~= merge_walk(lines@, u0).0 + sp.subrange(0, i as int).map_values(
                |p: (Seq<char>, Seq<char>)| p.0 + seq!['='] + p.1,
            ),
            changes_view(changes@) =~= merge_walk(lines@, u0).1 + sp.subrange(0, i as int).map_values(
                |p: (Seq<char>, Seq<char>)| (p.0, ChangeKind::Add),
            ),
        decreases m - i,
    {
        let ghost out0 = out@;
        let ghost ch0 = changes@;
        let key = sorted[i].0.clone();
        let mut text = sorted[i].0.clone();
        text.append("=");
        text.append(sorted[i].1.as_str());
        changes.push(Change { key, kind: ChangeKind::Add });
        proof {
            reveal_strlit("=");
            assert("="@ =~= seq!['=']);
            assert(text@ =~= sp[i as int].0 + seq!['='] + sp[i as int].1);
            assert(sp.subrange(0, i + 1) =~= sp.subrange(0, i as int).push(sp[i as int]));
        }
        out.push(text);
        proof {
            let f = |p: (Seq<char>, Seq<char>)| p.0 + seq!['='] + p.1;
            let g = |p: (Seq<char>, Seq<char>)| (p.0, ChangeKind::Add);
            assert(texts_view(out@) =~= texts_view(out0).push(text@));
            assert(changes_view(changes@) =~= changes_view(ch0).push((sp[i as int].0, ChangeKind::Add)));
            assert(sp.subrange(0, i + 1).map_values(f) =~= sp.subrange(0, i as int).map_values(
                f,
            ).push(f(sp[i as int])));
            assert(sp.subrange(0, i + 1).map_values(g) =~= sp.subrange(0, i as int).map_values(
                g,
            ).push(g(sp[i as int])));
            assert(texts_view(out@) =~= merge_walk(lines@, u0).0 + sp.subrange(0, i + 1).map_values(
                f,
            ));
            assert(changes_view(changes@) =~= merge_walk(lines@, u0).1 + sp.subrange(
                0,
                i + 1,
            ).map_values(g));
        }
        i = i + 1;
    }
    proof {
        assert(sp.subrange(0, sp.len() as int) =~= sp);
        assert(texts_view(out@) =~= merge_out_lines(lines@, u0));
        assert(changes_view(changes@) =~= merge_change_records(lines@, u0));
    }

    // Join all lines with single newlines.
    let ghost all = texts_view(out@);
    let mut text = String::new();
    let k = out.len();
    let mut i: usize = 0;
    while i < k
        invariant
            0 <= i <= k == out@.len(),
            all == texts_view(out@),
            text@ == join_nl(all.subrange(0, i as int)),
        decreases k - i,
    {
        if i > 0 {
            text.append("\n");
        }
        text.append(out[i].as_str());
        proof {
            reveal_strlit("\n");
            assert("\n"@ =~= seq!['\n']);
            assert(all.subrange(0, i + 1) =~= all.subrange(0, i as int).push(all[i as int]));
            lemma_join_push(all.subrange(0, i as int), all[i as int]);
        }
        i = i + 1;
    }
    proof {
        assert(all.subrange(0, all.len() as int) =~= all);
    }
    (text, changes)
}

/// Segments of `s` between `\n` characters: one more segment than there are
/// newlines.
pub open spec fn split_raw(s: Seq<char>) -> Seq<Seq<char>>
    decreases s.len(),
    via split_raw_decreases
{
    if find_char(s, '\n') < 0 {
        seq![s]
    } else {
        seq![s.subrange(0, find_char(s, '\n'))] + split_raw(
            s.subrange(find_char(s, '\n') + 1, s.len() as int),
        )
    }
}

#[via_fn]
proof fn split_raw_decreases(s: Seq<char>) {
    lemma_find_char(s, '\n');
}

/// The lines of a document text: split at `\n`, one optional final newline
/// ending the last line rather than opening an empty one.
pub open spec fn split_lines(s: Seq<char>) -> Seq<Seq<char>> {
    if s.len() == 0 {
        Seq::empty()
    } else if s.last() == '\n' {
        split_raw(s.drop_last())
    } else {
        split_raw(s)
    }
}

/// Classifies every line of a document text.
pub fn parse_document(content: &str) -> (r: Vec<Line>)
    ensures
        r@.len() == split_lines(content@).len(),
        forall|i: int| 0 <= i < r@.len() ==> is_classification_of(
            #[trigger] r@[i],
            split_lines(content@)[i],
        ),
{
    let ghost sl = split_lines(content@);
    let mut out: Vec<Line> = Vec::new();
    let n0: usize = content.unicode_len();
    if n0 == 0 {
        return out;
    }
    let m: usize = if content.get_char(n0 - 1) == '\n' {
        n0 - 1
    } else {
        n0
    };
    proof {
        if content@.last() == '\n' {
            assert(content@.drop_last() =~= content@.subrange(0, m as int));
        } else {
            assert(content@ =~= content@.subrange(0, m as int));
        }
        assert(sl == split_raw(content@.subrange(0, m as int)));
    }
    let ghost mut done: Seq<Seq<char>> = Seq::empty();
    let mut start: usize = 0;
    loop
        invariant
            0 <= start <= m <= n0 == content@.len(),
            sl == split_lines(content@),
            out@.len() == done.len(),
            forall|i: int| 0 <= i < done.len() ==> is_classification_of(
                #[trigger] out@[i],
                done[i],
            ),
            sl == done + split_raw(content@.subrange(start as int, m as int)),
        decreases m - start,
    {
        let ghost sub = content@.subrange(start as int, m as int);
        match find_char_from(content, '\n', start, m) {
            Some(p) => {
                let seg = content.substring_char(start, p);
                let l = parse_line(seg);
                out.push(l);
                proof {
                    lemma_find_char(sub, '\n');
                    assert(sub.subrange(0, p - start) =~= content@.subrange(
                        start as int,
                        p as int,
                    ));
                    assert(sub.subrange(p - start + 1, sub.len() as int) =~= content@.subrange(
                        p + 1,
                        m as int,
                    ));
                    done = done.push(seg@);
                    assert(sl =~= done + split_raw(content@.subrange(p + 1, m as int)));
                }
                start = p + 1;
            },
            None => {
                let seg = content.substring_char(start, m);
                let l = parse_line(seg);
                out.push(l);
                proof {
                    assert(seg@ == sub);
                    assert(find_char(sub, '\n') < 0);
                    assert(split_raw(sub) =~= seq![sub]);
                    done = done.push(sub);
                    assert(sl =~= done);
                    assert(out@.len() == done.len());
                    assert(is_classification_of(out@[out@.len() - 1], done[done.len() - 1]));
                    assert(forall|i: int| 0 <= i < out@.len() ==> is_classification_of(
                        #[trigger] out@[i],
                        done[i],
                    ));
                    assert(sl == done);
                }
                return out;
            },
        }
    }
}

/// There is no newline anywhere in `s`.
pub open spec fn nl_free(s: Seq<char>) -> bool {
    forall|i: int| 0 <= i < s.len() ==> s[i] != '\n'
}

/// A line is well-formed when it is its own text's classification: exactly
/// what `parse_line` produces.
pub open spec fn line_wf(l: Line) -> bool {
    is_classification_of(l, line_text(l))
}

/// A classified line both re-serializes to and is the classification of the
/// text it came from.
pub proof fn lemma_classification_text(l: Line, s: Seq<char>)
    requires
        is_classification_of(l, s),
    ensures
        line_text(l) == s,
        line_wf(l),
{
    match l {
        Line::Raw(_) => {},
        Line::Entry(e) => {
            lemma_find_char(s, '=');
            assert(e.prefix@ + e.value@ =~= s);
        },
    }
}

/// All pair names are pairwise distinct.
pub open spec fn distinct_keys(u: Seq<(Seq<char>, Seq<char>)>) -> bool {
    forall|i: int, j: int| 0 <= i < j < u.len() ==> u[i].0 != u[j].0
}

/// A valid variable name holds no `=`, no whitespace and no newline.
pub proof fn lemma_key_chars(k: Seq<char>)
    requires
        is_valid_key_seq(k),
    ensures
        forall|j: int| 0 <= j < k.len() ==> k[j] != '=' && !is_space_char(#[trigger] k[j]) && k[j]
            != '\n',
{
}

/// Trimming a sequence without whitespace leaves it unchanged.
pub proof fn lemma_trim_nospace(k: Seq<char>)
    requires
        forall|j: int| 0 <= j < k.len() ==> !is_space_char(#[trigger] k[j]),
    ensures
        trim_seq(k) == k,
{
    lemma_trailing_spaces_unique(k, 0);
    assert(trim_end_seq(k) =~= k);
    lemma_leading_spaces_unique(trim_end_seq(k), 0);
    assert(trim_seq(k) =~= k);
}

/// The structural facts `parse_line` guarantees of an assignment's parts.
pub proof fn lemma_entry_wf_parts(e: EntryLine)
    requires
        line_wf(Line::Entry(e)),
    ensures
        is_valid_key_seq(e.key@),
        e.prefix@.len() >= 1,
        e.prefix@.last() == '=',
        forall|j: int| 0 <= j < e.prefix@.len() - 1 ==> e.prefix@[j] != '=',
        trim_seq(e.prefix@.drop_last()) == e.key@,
{
    let s = e.prefix@ + e.value@;
    lemma_find_char(s, '=');
    let fe = find_eq(s);
    assert(e.prefix@ =~= s.subrange(0, fe + 1));
    assert(e.prefix@.last() == s[fe]);
    assert(e.prefix@.drop_last() =~= s.subrange(0, fe));
}

/// A prefix and a value re-classify as exactly that assignment: the heart of
/// round-trip stability.
pub proof fn lemma_entry_reparse(k: Seq<char>, p: Seq<char>, v: Seq<char>)
    requires
        is_valid_key_seq(k),
        p.len() >= 1,
        p.last() == '=',
        forall|j: int| 0 <= j < p.len() - 1 ==> p[j] != '=',
        trim_seq(p.drop_last()) == k,
    ensures
        classifies_as_entry(p + v),
        entry_key(p + v) == k,
        entry_prefix(p + v) == p,
        entry_value(p + v) == v,
{
    let s = p + v;
    let lhs = p.drop_last();
    assert(forall|j: int| 0 <= j < lhs.len() ==> #[trigger] lhs[j] == p[j]);
    assert(forall|j: int| 0 <= j < p.len() ==> #[trigger] s[j] == p[j]);
    lemma_find_char_unique(s, '=', p.len() - 1);
    assert(entry_prefix(s) =~= p);
    assert(entry_value(s) =~= v);
    assert(s.subrange(0, p.len() - 1) =~= lhs);
    // The first non-whitespace character of the line is the key's first
    // character, which cannot be `#`.
    let te = trim_end_seq(lhs);
    lemma_trailing_spaces(lhs);
    assert(forall|j: int| 0 <= j < te.len() ==> #[trigger] te[j] == lhs[j]);
    let a = leading_spaces(te);
    lemma_leading_spaces(te);
    assert(k.len() > 0);
    assert(trim_seq(lhs) == te.subrange(a, te.len() as int));
    assert(a < te.len());
    assert(k[0] == te[a]);
    assert(!is_space_char(te[a]));
    assert forall|i: int| 0 <= i < a implies is_space_char(#[trigger] s[i]) by {
        assert(lhs[i] == p[i]);
        assert(te[i] == lhs[i]);
        assert(is_space_char(te[i]));
    }
    assert(s[a] == te[a]);
    lemma_leading_spaces_unique(s, a);
    assert(s[a] == k[0]);
    lemma_key_chars(k);
}

/// Whether a line is an assignment whose key the updates do not name.
pub open spec fn untargeted(l: Line, u: Seq<(Seq<char>, Seq<char>)>) -> bool {
    match l {
        Line::Raw(_) => true,
        Line::Entry(e) => !alist_has(u, e.key@),
    }
}

/// Removing any pair cannot make a name present.
pub proof fn lemma_alist_remove_not_has(u: Seq<(Seq<char>, Seq<char>)>, j: int, k: Seq<char>)
    requires
        !alist_has(u, k),
        0 <= j < u.len(),
    ensures
        !alist_has(u.remove(j), k),
{
    lemma_alist_idx(u, k);
    lemma_alist_idx(u.remove(j), k);
    let v = u.remove(j);
    if alist_has(v, k) {
        let i = alist_idx(v, k);
        if i < j {
            assert(v[i] == u[i]);
        } else {
            assert(v[i] == u[i + 1]);
        }
    }
}

/// The merge rewrites existing lines one for one.
pub proof fn lemma_walk_len(ls: Seq<Line>, u: Seq<(Seq<char>, Seq<char>)>)
    ensures
        merge_walk(ls, u).0.len() == ls.len(),
    decreases ls.len(),
{
    if ls.len() > 0 {
        match ls[0] {
            Line::Raw(_) => lemma_walk_len(ls.drop_first(), u),
            Line::Entry(e) => {
                if alist_has(u, e.key@) {
                    lemma_walk_len(ls.drop_first(), u.remove(alist_idx(u, e.key@)));
                } else {
                    lemma_walk_len(ls.drop_first(), u);
                }
            },
        }
    }
}

/// Order preservation: a line the updates do not target keeps its exact
/// original text, at its original position, in the merged output.
pub proof fn lemma_merge_preserves_untargeted(
    ls: Seq<Line>,
    u: Seq<(Seq<char>, Seq<char>)>,
    i: int,
)
    requires
        0 <= i < ls.len(),
        untargeted(ls[i], u),
    ensures
        merge_out_lines(ls, u).len() >= ls.len(),
        merge_out_lines(ls, u)[i] == line_text(ls[i]),
    decreases ls.len(),
{
    lemma_walk_len(ls, u);
    let walk = merge_walk(ls, u);
    if i == 0 {
        match ls[0] {
            Line::Raw(_) => {},
            Line::Entry(e) => {
                lemma_alist_idx(u, e.key@);
            },
        }
    } else {
        let t = ls.drop_first();
        assert(forall|j: int| 0 <= j < t.len() ==> #[trigger] t[j] == ls[j + 1]);
        match ls[0] {
            Line::Raw(_) => {
                lemma_merge_preserves_untargeted(t, u, i - 1);
                lemma_walk_len(t, u);
            },
            Line::Entry(e) => {
                if alist_has(u, e.key@) {
                    let u2 = u.remove(alist_idx(u, e.key@));
                    lemma_alist_idx(u, e.key@);
                    match ls[i] {
                        Line::Raw(_) => {},
                        Line::Entry(e2) => lemma_alist_remove_not_has(
                            u,
                            alist_idx(u, e.key@),
                            e2.key@,
                        ),
                    }
                    lemma_merge_preserves_untargeted(t, u2, i - 1);
                    lemma_walk_len(t, u2);
                } else {
                    lemma_merge_preserves_untargeted(t, u, i - 1);
                    lemma_walk_len(t, u);
                }
            },
        }
    }
}

/// Splitting undoes joining, line for line, for newline-free lines.
pub proof fn lemma_split_raw_join(ls: Seq<Seq<char>>)
    requires
        ls.len() > 0,
        forall|i: int| 0 <= i < ls.len() ==> nl_free(#[trigger] ls[i]),
    ensures
        split_raw(join_nl(ls)) == ls,
    decreases ls.len(),
{
    let s = join_nl(ls);
    if ls.len() == 1 {
        lemma_find_char(s, '\n');
        if find_char(s, '\n') >= 0 {
            assert(false);
        }
        assert(split_raw(s) =~= ls);
    } else {
        let rest = ls.drop_first();
        assert(forall|i: int| 0 <= i < rest.len() ==> #[trigger] rest[i] == ls[i + 1]);
        let k = ls[0].len() as int;
        assert(forall|j: int| 0 <= j < k ==> #[trigger] s[j] == ls[0][j]);
        lemma_find_char_unique(s, '\n', k);
        assert(s.subrange(0, k) =~= ls[0]);
        assert(s.subrange(k + 1, s.len() as int) =~= join_nl(rest));
        lemma_split_raw_join(rest);
        assert(split_raw(s) =~= seq![ls[0]] + split_raw(join_nl(rest)));
        assert(seq![ls[0]] + rest =~= ls);
    }
}

/// Walking a concatenation walks the parts in turn, threading the remaining
/// updates through.
pub proof fn lemma_walk_concat(a: Seq<Line>, b: Seq<Line>, u: Seq<(Seq<char>, Seq<char>)>)
    ensures
        merge_walk(a + b, u).0 == merge_walk(a, u).0 + merge_walk(b, merge_walk(a, u).2).0,
        merge_walk(a + b, u).1 == merge_walk(a, u).1 + merge_walk(b, merge_walk(a, u).2).1,
        merge_walk(a + b, u).2 == merge_walk(b, merge_walk(a, u).2).2,
    decreases a.len(),
{
    if a.len() == 0 {
        assert(a + b =~= b);
        assert(merge_walk(a, u).0 =~= Seq::<Seq<char>>::empty());
        assert(merge_walk(a, u).0 + merge_walk(b, u).0 =~= merge_walk(b, u).0);
        assert(merge_walk(a, u).1 + merge_walk(b, u).1 =~= merge_walk(b, u).1);
    } else {
        let t = a.drop_first();
        assert((a + b)[0] == a[0]);
        assert((a + b).drop_first() =~= t + b);
        match a[0] {
            Line::Raw(_) => {
                lemma_walk_concat(t, b, u);
            },
            Line::Entry(e) => {
                if alist_has(u, e.key@) {
                    lemma_walk_concat(t, b, u.remove(alist_idx(u, e.key@)));
                } else {
                    lemma_walk_concat(t, b, u);
                }
            },
        }
        assert(merge_walk(a + b, u).0 =~= merge_walk(a, u).0 + merge_walk(
            b,
            merge_walk(a, u).2,
        ).0);
        assert(merge_walk(a + b, u).1 =~= merge_walk(a, u).1 + merge_walk(
            b,
            merge_walk(a, u).2,
        ).1);
    }
}

/// Per-pair facts of the updates survive the walk into the leftover, as does
/// key distinctness.
pub proof fn lemma_walk_leftover_props(ls: Seq<Line>, u: Seq<(Seq<char>, Seq<char>)>)
    requires
        distinct_keys(u),
        forall|i: int| 0 <= i < u.len() ==> is_valid_key_seq((#[trigger] u[i]).0) && nl_free(
            u[i].1,
        ),
    ensures
        distinct_keys(merge_walk(ls, u).2),
        forall|i: int| 0 <= i < merge_walk(ls, u).2.len() ==> is_valid_key_seq(
            (#[trigger] merge_walk(ls, u).2[i]).0,
        ) && nl_free(merge_walk(ls, u).2[i].1),
    decreases ls.len(),
{
    if ls.len() > 0 {
        let t = ls.drop_first();
        match ls[0] {
            Line::Raw(_) => {
                lemma_walk_leftover_props(t, u);
            },
            Line::Entry(e) => {
                if alist_has(u, e.key@) {
                    let j = alist_idx(u, e.key@);
                    lemma_alist_idx(u, e.key@);
                    let u2 = u.remove(j);
                    assert forall|i: int, k: int| 0 <= i < k < u2.len() implies u2[i].0 != u2[k].0
                        by {
                        if k < j {
                            assert(u2[i] == u[i] && u2[k] == u[k]);
                        } else if i < j {
                            assert(u2[i] == u[i] && u2[k] == u[k + 1]);
                        } else {
                            assert(u2[i] == u[i + 1] && u2[k] == u[k + 1]);
                        }
                    }
                    assert forall|i: int| 0 <= i < u2.len() implies is_valid_key_seq(
                        (#[trigger] u2[i]).0,
                    ) && nl_free(u2[i].1) by {
                        if i < j {
                            assert(u2[i] == u[i]);
                        } else {
                            assert(u2[i] == u[i + 1]);
                        }
                    }
                    lemma_walk_leftover_props(t, u2);
                } else {
                    lemma_walk_leftover_props(t, u);
                }
            },
        }
    }
}

/// Sorting keeps length, per-pair facts and key distinctness.
pub proof fn lemma_sort_props(u: Seq<(Seq<char>, Seq<char>)>)
    requires
        distinct_keys(u),
        forall|i: int| 0 <= i < u.len() ==> is_valid_key_seq((#[trigger] u[i]).0) && nl_free(
            u[i].1,
        ),
    ensures
        sort_pairs(u).len() == u.len(),
        distinct_keys(sort_pairs(u)),
        forall|i: int| 0 <= i < u.len() ==> is_valid_key_seq(
            (#[trigger] sort_pairs(u)[i]).0,
        ) && nl_free(sort_pairs(u)[i].1),
    decreases u.len(),
{
    if u.len() > 0 {
        lemma_min_key_idx_bounds(u);
        let m = min_key_idx(u);
        let u2 = u.remove(m);
        assert forall|i: int, k: int| 0 <= i < k < u2.len() implies u2[i].0 != u2[k].0 by {
            if k < m {
                assert(u2[i] == u[i] && u2[k] == u[k]);
            } else if i < m {
                assert(u2[i] == u[i] && u2[k] == u[k + 1]);
            } else {
                assert(u2[i] == u[i + 1] && u2[k] == u[k + 1]);
            }
        }
        assert forall|i: int| 0 <= i < u2.len() implies is_valid_key_seq((#[trigger] u2[i]).0)
            && nl_free(u2[i].1) by {
            if i < m {
                assert(u2[i] == u[i]);
            } else {
                assert(u2[i] == u[i + 1]);
            }
        }
        lemma_sort_props(u2);
        let sp = sort_pairs(u);
        assert(sp == seq![u[m]] + sort_pairs(u2));
        assert forall|i: int, k: int| 0 <= i < k < sp.len() implies sp[i].0 != sp[k].0 by {
            if i > 0 {
                assert(sp[i] == sort_pairs(u2)[i - 1] && sp[k] == sort_pairs(u2)[k - 1]);
            } else {
                assert(sp[k] == sort_pairs(u2)[k - 1]);
                let q = sort_pairs(u2)[k - 1];
                if sp[0].0 == q.0 {
                    lemma_sort_mem(u2, k - 1);
                    let w = choose|w: int| 0 <= w < u2.len() && u2[w] == sort_pairs(u2)[k - 1];
                    if w < m {
                        assert(u2[w] == u[w]);
                    } else {
                        assert(u2[w] == u[w + 1]);
                    }
                    assert(false);
                }
            }
        }
    }
}

/// Every sorted pair is one of the unsorted pairs.
pub proof fn lemma_sort_mem(u: Seq<(Seq<char>, Seq<char>)>, i: int)
    requires
        0 <= i < sort_pairs(u).len(),
    ensures
        exists|w: int| 0 <= w < u.len() && u[w] == sort_pairs(u)[i],
    decreases u.len(),
{
    lemma_sort_len(u);
    lemma_min_key_idx_bounds(u);
    let m = min_key_idx(u);
    let u2 = u.remove(m);
    if i == 0 {
        assert(sort_pairs(u)[0] == u[m]);
    } else {
        lemma_sort_len(u2);
        lemma_sort_mem(u2, i - 1);
        let w = choose|w: int| 0 <= w < u2.len() && u2[w] == sort_pairs(u2)[i - 1];
        assert(sort_pairs(u)[i] == sort_pairs(u2)[i - 1]);
        if w < m {
            assert(u[w] == sort_pairs(u)[i]);
        } else {
            assert(u[w + 1] == sort_pairs(u)[i]);
        }
    }
}

/// Sorting keeps the number of pairs.
pub proof fn lemma_sort_len(u: Seq<(Seq<char>, Seq<char>)>)
    ensures
        sort_pairs(u).len() == u.len(),
    decreases u.len(),
{
    if u.len() > 0 {
        lemma_min_key_idx_bounds(u);
        lemma_sort_len(u.remove(min_key_idx(u)));
    }
}

/// Re-walking the rewritten existing lines consumes the same updates, emits
/// the same texts, and records nothing.
pub proof fn lemma_rewalk(ls: Seq<Line>, u: Seq<(Seq<char>, Seq<char>)>, ls2: Seq<Line>)
    requires
        forall|i: int| 0 <= i < ls.len() ==> line_wf(#[trigger] ls[i]),
        ls2.len() == merge_walk(ls, u).0.len(),
        forall|i: int| 0 <= i < ls2.len() ==> is_classification_of(
            #[trigger] ls2[i],
            merge_walk(ls, u).0[i],
        ),
    ensures
        merge_walk(ls2, u).0 == merge_walk(ls, u).0,
        merge_walk(ls2, u).1 == Seq::<(Seq<char>, ChangeKind)>::empty(),
        merge_walk(ls2, u).2 == merge_walk(ls, u).2,
    decreases ls.len(),
{
    lemma_walk_len(ls, u);
    if ls.len() == 0 {
        assert(ls2 =~= Seq::<Line>::empty());
        assert(merge_walk(ls2, u).1 =~= Seq::<(Seq<char>, ChangeKind)>::empty());
    } else {
        let t = ls.drop_first();
        let t2 = ls2.drop_first();
        assert(forall|i: int| 0 <= i < t.len() ==> #[trigger] t[i] == ls[i + 1]);
        assert(forall|i: int| 0 <= i < t2.len() ==> #[trigger] t2[i] == ls2[i + 1]);
        match ls[0] {
            Line::Raw(raw) => {
                let w = merge_walk(t, u);
                assert(merge_walk(ls, u).0 == seq![raw@] + w.0);
                assert(merge_walk(ls, u).0[0] == raw@);
                assert(is_classification_of(ls2[0], raw@));
                assert(!classifies_as_entry(raw@));
                assert(ls2[0] is Raw);
                lemma_walk_len(t, u);
                assert forall|i: int| 0 <= i < t2.len() implies is_classification_of(
                    #[trigger] t2[i],
                    merge_walk(t, u).0[i],
                ) by {
                    assert(merge_walk(ls, u).0[i + 1] == w.0[i]);
                }
                lemma_rewalk(t, u, t2);
                match ls2[0] {
                    Line::Raw(r2) => {
                        assert(merge_walk(ls2, u).0 =~= merge_walk(ls, u).0);
                        assert(merge_walk(ls2, u).1 =~= Seq::<(Seq<char>, ChangeKind)>::empty());
                    },
                    Line::Entry(_) => {
                        assert(false);
                    },
                }
            },
            Line::Entry(e) => {
                lemma_entry_wf_parts(e);
                if alist_has(u, e.key@) {
                    let j = alist_idx(u, e.key@);
                    lemma_alist_idx(u, e.key@);
                    let nv = alist_get(u, e.key@);
                    let u2 = u.remove(j);
                    let w = merge_walk(t, u2);
                    assert(merge_walk(ls, u).0[0] == e.prefix@ + nv);
                    lemma_entry_reparse(e.key@, e.prefix@, nv);
                    assert(is_classification_of(ls2[0], e.prefix@ + nv));
                    match ls2[0] {
                        Line::Raw(_) => {
                            assert(false);
                        },
                        Line::Entry(e2) => {
                            assert(e2.key@ == e.key@);
                            assert(e2.prefix@ == e.prefix@);
                            assert(e2.value@ == nv);
                            lemma_walk_len(t, u2);
                            assert forall|i: int| 0 <= i < t2.len() implies is_classification_of(
                                #[trigger] t2[i],
                                merge_walk(t, u2).0[i],
                            ) by {
                                assert(merge_walk(ls, u).0[i + 1] == w.0[i]);
                            }
                            lemma_rewalk(t, u2, t2);
                            assert(merge_walk(ls2, u).0 =~= merge_walk(ls, u).0);
                            assert(merge_walk(ls2, u).1 =~= Seq::<
                                (Seq<char>, ChangeKind),
                            >::empty());
                        },
                    }
                } else {
                    let w = merge_walk(t, u);
                    assert(merge_walk(ls, u).0[0] == e.prefix@ + e.value@);
                    lemma_entry_reparse(e.key@, e.prefix@, e.value@);
                    assert(is_classification_of(ls2[0], e.prefix@ + e.value@));
                    match ls2[0] {
                        Line::Raw(_) => {
                            assert(false);
                        },
                        Line::Entry(e2) => {
                            assert(e2.key@ == e.key@ && e2.prefix@ == e.prefix@ && e2.value@
                                == e.value@);
                            lemma_walk_len(t, u);
                            assert forall|i: int| 0 <= i < t2.len() implies is_classification_of(
                                #[trigger] t2[i],
                                merge_walk(t, u).0[i],
                            ) by {
                                assert(merge_walk(ls, u).0[i + 1] == w.0[i]);
                            }
                            lemma_rewalk(t, u, t2);
                            assert(merge_walk(ls2, u).0 =~= merge_walk(ls, u).0);
                            assert(merge_walk(ls2, u).1 =~= Seq::<
                                (Seq<char>, ChangeKind),
                            >::empty());
                        },
                    }
                }
            },
        }
    }
}

/// With distinct keys, the first occurrence of the minimal key's name is the
/// minimal position itself.
pub proof fn lemma_alist_idx_distinct(u: Seq<(Seq<char>, Seq<char>)>, m: int)
    requires
        distinct_keys(u),
        0 <= m < u.len(),
    ensures
        alist_idx(u, u[m].0) == m,
{
    lemma_alist_idx(u, u[m].0);
    let j = alist_idx(u, u[m].0);
    if j < 0 {
        assert(false);
    }
    if j != m {
        assert(u[j].0 == u[m].0);
        assert(false);
    }
}

/// Re-walking the appended `NAME=value` lines consumes every leftover update
/// without recording anything, leaving none.
pub proof fn lemma_readds(r: Seq<(Seq<char>, Seq<char>)>, ls2: Seq<Line>)
    requires
        distinct_keys(r),
        forall|i: int| 0 <= i < r.len() ==> is_valid_key_seq((#[trigger] r[i]).0) && nl_free(
            r[i].1,
        ),
        ls2.len() == added_line_texts(r).len(),
        forall|i: int| 0 <= i < ls2.len() ==> is_classification_of(
            #[trigger] ls2[i],
            added_line_texts(r)[i],
        ),
    ensures
        merge_walk(ls2, r).0 == added_line_texts(r),
        merge_walk(ls2, r).1 == Seq::<(Seq<char>, ChangeKind)>::empty(),
        merge_walk(ls2, r).2 == Seq::<(Seq<char>, Seq<char>)>::empty(),
    decreases r.len(),
{
    lemma_sort_len(r);
    if r.len() == 0 {
        assert(ls2 =~= Seq::<Line>::empty());
        assert(merge_walk(ls2, r).0 =~= added_line_texts(r));
        assert(merge_walk(ls2, r).1 =~= Seq::<(Seq<char>, ChangeKind)>::empty());
        assert(r =~= Seq::<(Seq<char>, Seq<char>)>::empty());
    } else {
        lemma_min_key_idx_bounds(r);
        let m = min_key_idx(r);
        let k = r[m].0;
        let v = r[m].1;
        let r2 = r.remove(m);
        let sp = sort_pairs(r);
        assert(sp == seq![r[m]] + sort_pairs(r2));
        let p = k + seq!['='];
        assert(added_line_texts(r)[0] == sp[0].0 + seq!['='] + sp[0].1);
        lemma_key_chars(k);
        assert(forall|j: int| 0 <= j < k.len() ==> #[trigger] p[j] == k[j]);
        assert(p.drop_last() =~= k);
        lemma_trim_nospace(k);
        lemma_entry_reparse(k, p, v);
        assert(p + v =~= k + seq!['='] + v);
        assert(is_classification_of(ls2[0], added_line_texts(r)[0]));
        match ls2[0] {
            Line::Raw(_) => {
                assert(false);
            },
            Line::Entry(e2) => {
                assert(e2.key@ == k && e2.prefix@ == p && e2.value@ == v);
                lemma_alist_idx_distinct(r, m);
                assert(alist_has(r, k));
                assert(alist_get(r, k) == v);
                // Hypotheses carry to the remainder.
                assert forall|a: int, b: int| 0 <= a < b < r2.len() implies r2[a].0 != r2[b].0 by {
                    if b < m {
                        assert(r2[a] == r[a] && r2[b] == r[b]);
                    } else if a < m {
                        assert(r2[a] == r[a] && r2[b] == r[b + 1]);
                    } else {
                        assert(r2[a] == r[a + 1] && r2[b] == r[b + 1]);
                    }
                }
                assert forall|i: int| 0 <= i < r2.len() implies is_valid_key_seq(
                    (#[trigger] r2[i]).0,
                ) && nl_free(r2[i].1) by {
                    if i < m {
                        assert(r2[i] == r[i]);
                    } else {
                        assert(r2[i] == r[i + 1]);
                    }
                }
                let t2 = ls2.drop_first();
                assert(forall|i: int| 0 <= i < t2.len() ==> #[trigger] t2[i] == ls2[i + 1]);
                lemma_sort_len(r2);
                assert(added_line_texts(r2) =~= added_line_texts(r).drop_first());
                assert forall|i: int| 0 <= i < t2.len() implies is_classification_of(
                    #[trigger] t2[i],
                    added_line_texts(r2)[i],
                ) by {
                    assert(added_line_texts(r)[i + 1] == added_line_texts(r2)[i]);
                }
                lemma_readds(r2, t2);
                assert(merge_walk(ls2, r).0 =~= added_line_texts(r));
                assert(merge_walk(ls2, r).1 =~= Seq::<(Seq<char>, ChangeKind)>::empty());
            },
        }
    }
}

/// Idempotence: merging the same updates into the persisted result of a
/// merge changes nothing — the text comes back byte for byte and the second
/// merge records no change. `ls2` is any classification of the persisted
/// document, the merged text followed by the persister's single trailing
/// newline.
pub proof fn lemma_merge_idempotent(
    ls: Seq<Line>,
    u: Seq<(Seq<char>, Seq<char>)>,
    ls2: Seq<Line>,
)
    requires
        forall|i: int| 0 <= i < ls.len() ==> line_wf(#[trigger] ls[i]) && nl_free(
            line_text(ls[i]),
        ),
        distinct_keys(u),
        forall|i: int| 0 <= i < u.len() ==> is_valid_key_seq((#[trigger] u[i]).0) && nl_free(
            u[i].1,
        ),
        ls2.len() == split_lines(merge_text(ls, u) + seq!['\n']).len(),
        forall|i: int| 0 <= i < ls2.len() ==> is_classification_of(
            #[trigger] ls2[i],
            split_lines(merge_text(ls, u) + seq!['\n'])[i],
        ),
    ensures
        merge_text(ls2, u) == merge_text(ls, u),
        merge_change_records(ls2, u) == Seq::<(Seq<char>, ChangeKind)>::empty(),
{
    let out = merge_out_lines(ls, u);
    let w = merge_walk(ls, u);
    let r = w.2;
    lemma_walk_len(ls, u);
    lemma_walk_leftover_props(ls, u);
    lemma_sort_props(r);

    // Every output line is newline-free.
    assert forall|i: int| 0 <= i < w.0.len() implies nl_free(#[trigger] w.0[i]) by {
        lemma_walk_outputs_nl_free(ls, u, i);
    }
    assert forall|i: int| 0 <= i < added_line_texts(r).len() implies nl_free(
        #[trigger] added_line_texts(r)[i],
    ) by {
        let sp = sort_pairs(r);
        let q = sp[i];
        lemma_key_chars(q.0);
        assert(added_line_texts(r)[i] == q.0 + seq!['='] + q.1);
    }
    assert(forall|i: int| 0 <= i < out.len() ==> nl_free(#[trigger] out[i]));

    let text = merge_text(ls, u);
    if out.len() == 0 {
        // An empty output means no lines and no leftover updates at all.
        lemma_sort_len(r);
        assert(r =~= Seq::<(Seq<char>, Seq<char>)>::empty());
        assert(ls =~= Seq::<Line>::empty());
        assert(text == join_nl(out));
        assert(text + seq!['\n'] =~= seq!['\n']);
        assert((text + seq!['\n']).last() == '\n');
        assert((text + seq!['\n']).drop_last() =~= Seq::<char>::empty());
        lemma_find_char(Seq::<char>::empty(), '\n');
        assert(split_lines(text + seq!['\n']) =~= seq![Seq::<char>::empty()]);
        assert(ls2.len() == 1);
        assert(is_classification_of(ls2[0], Seq::<char>::empty()));
        match ls2[0] {
            Line::Raw(raw) => {
                assert(ls2.drop_first() =~= Seq::<Line>::empty());
                assert(merge_walk(ls2.drop_first(), u).0 =~= Seq::<Seq<char>>::empty());
                assert(merge_walk(ls2, u).0 =~= seq![raw@]);
                assert(merge_walk(ls2, u).1 =~= Seq::<(Seq<char>, ChangeKind)>::empty());
                assert(merge_walk(ls2, u).2 == u);
                assert(u =~= Seq::<(Seq<char>, Seq<char>)>::empty());
                assert(sort_pairs(u).len() == 0) by {
                    lemma_sort_len(u);
                }
                assert(merge_out_lines(ls2, u) =~= seq![Seq::<char>::empty()]);
                assert(merge_text(ls2, u) == join_nl(seq![Seq::<char>::empty()]));
                assert(join_nl(seq![Seq::<char>::empty()]) =~= Seq::<char>::empty());
                assert(text =~= Seq::<char>::empty());
                assert(merge_change_records(ls2, u) =~= Seq::<(Seq<char>, ChangeKind)>::empty());
            },
            Line::Entry(_) => {
                assert(false);
            },
        }
    } else {
        // The persisted text splits back into exactly the output lines.
        assert(text == join_nl(out));
        assert((text + seq!['\n']).last() == '\n');
        assert((text + seq!['\n']).drop_last() =~= text);
        lemma_split_raw_join(out);
        assert(split_lines(text + seq!['\n']) == out);

        // Split the reclassified lines at the walk/adds boundary.
        let nw = w.0.len() as int;
        let ls2w = ls2.take(nw);
        let ls2a = ls2.skip(nw);
        assert(ls2w + ls2a =~= ls2);
        assert(forall|i: int| 0 <= i < ls2w.len() ==> #[trigger] ls2w[i] == ls2[i]);
        assert(forall|i: int| 0 <= i < ls2a.len() ==> #[trigger] ls2a[i] == ls2[i + nw]);
        assert(ls2.len() == out.len());
        assert forall|i: int| 0 <= i < ls2w.len() implies is_classification_of(
            #[trigger] ls2w[i],
            w.0[i],
        ) by {
            assert(out[i] == w.0[i]);
        }
        lemma_rewalk(ls, u, ls2w);
        lemma_sort_len(r);
        assert(ls2a.len() == added_line_texts(r).len());
        assert forall|i: int| 0 <= i < ls2a.len() implies is_classification_of(
            #[trigger] ls2a[i],
            added_line_texts(r)[i],
        ) by {
            assert(out[i + nw] == added_line_texts(r)[i]);
        }
        lemma_readds(r, ls2a);
        lemma_walk_concat(ls2w, ls2a, u);
        assert(merge_walk(ls2, u).0 =~= out);
        assert(merge_walk(ls2, u).1 =~= Seq::<(Seq<char>, ChangeKind)>::empty());
        assert(merge_walk(ls2, u).2 =~= Seq::<(Seq<char>, Seq<char>)>::empty());
        assert(sort_pairs(merge_walk(ls2, u).2).len() == 0) by {
            lemma_sort_len(merge_walk(ls2, u).2);
        }
        assert(added_line_texts(merge_walk(ls2, u).2) =~= Seq::<Seq<char>>::empty());
        assert(merge_out_lines(ls2, u) =~= out);
        assert(merge_change_records(ls2, u) =~= Seq::<(Seq<char>, ChangeKind)>::empty());
    }
}

/// Each rewritten existing line is newline-free when the document's lines
/// and the update values are.
pub proof fn lemma_walk_outputs_nl_free(ls: Seq<Line>, u: Seq<(Seq<char>, Seq<char>)>, i: int)
    requires
        forall|j: int| 0 <= j < ls.len() ==> nl_free(line_text(#[trigger] ls[j])),
        forall|j: int| 0 <= j < u.len() ==> nl_free((#[trigger] u[j]).1),
        0 <= i < merge_walk(ls, u).0.len(),
    ensures
        nl_free(merge_walk(ls, u).0[i]),
    decreases ls.len(),
{
    if ls.len() > 0 {
        let t = ls.drop_first();
        assert(forall|j: int| 0 <= j < t.len() ==> #[trigger] t[j] == ls[j + 1]);
        match ls[0] {
            Line::Raw(raw) => {
                if i > 0 {
                    lemma_walk_outputs_nl_free(t, u, i - 1);
                }
            },
            Line::Entry(e) => {
                assert(nl_free(e.prefix@ + e.value@));
                assert(forall|j: int| 0 <= j < e.prefix@.len() ==> (e.prefix@ + e.value@)[j]
                    == #[trigger] e.prefix@[j]);
                assert(forall|j: int| 0 <= j < e.value@.len() ==> (e.prefix@ + e.value@)[j
                    + e.prefix@.len()] == #[trigger] e.value@[j]);
                if alist_has(u, e.key@) {
                    let j = alist_idx(u, e.key@);
                    lemma_alist_idx(u, e.key@);
                    if i == 0 {
                        assert(nl_free(u[j].1));
                        assert(merge_walk(ls, u).0[0] == e.prefix@ + u[j].1);
                    } else {
                        let u2 = u.remove(j);
                        assert forall|a: int| 0 <= a < u2.len() implies nl_free(
                            (#[trigger] u2[a]).1,
                        ) by {
                            if a < j {
                                assert(u2[a] == u[a]);
                            } else {
                                assert(u2[a] == u[a + 1]);
                            }
                        }
                        lemma_walk_outputs_nl_free(t, u2, i - 1);
                    }
                } else {
                    if i > 0 {
                        lemma_walk_outputs_nl_free(t, u, i - 1);
                    }
                }
            },
        }
    }
}

/// No deletion: an assignment whose key the updates do not name is still an
/// assignment for the same key with the same value in the merged output.
pub proof fn lemma_merge_no_deletion(ls: Seq<Line>, u: Seq<(Seq<char>, Seq<char>)>, i: int)
    requires
        0 <= i < ls.len(),
        ls[i] is Entry,
        !alist_has(u, ls[i]->Entry_0.key@),
        line_wf(ls[i]),
    ensures
        merge_out_lines(ls, u).len() >= ls.len(),
        classifies_as_entry(merge_out_lines(ls, u)[i]),
        entry_key(merge_out_lines(ls, u)[i]) == ls[i]->Entry_0.key@,
        entry_value(merge_out_lines(ls, u)[i]) == ls[i]->Entry_0.value@,
{
    lemma_merge_preserves_untargeted(ls, u, i);
}

/// Where a change record's name can come from: an assignment key of the
/// document, or an update's target name.
pub open spec fn is_doc_or_update_key(
    k: Seq<char>,
    ls: Seq<Line>,
    u: Seq<(Seq<char>, Seq<char>)>,
) -> bool {
    ||| exists|i: int|
        0 <= i < ls.len() && ((#[trigger] ls[i]) matches Line::Entry(e) && e.key@ == k)
    ||| exists|i: int| 0 <= i < u.len() && (#[trigger] u[i]).0 == k
}

/// Every update record's name is the key of some assignment in the document.
pub proof fn lemma_walk_records_keys(ls: Seq<Line>, u: Seq<(Seq<char>, Seq<char>)>, i: int)
    requires
        0 <= i < merge_walk(ls, u).1.len(),
    ensures
        exists|j: int|
            0 <= j < ls.len() && ((#[trigger] ls[j]) matches Line::Entry(e) && e.key@
                == merge_walk(ls, u).1[i].0),
    decreases ls.len(),
{
    let k = merge_walk(ls, u).1[i].0;
    let t = ls.drop_first();
    assert(forall|j: int| 0 <= j < t.len() ==> #[trigger] t[j] == ls[j + 1]);
    match ls[0] {
        Line::Raw(_) => {
            lemma_walk_records_keys(t, u, i);
            let j2 = choose|j2: int|
                0 <= j2 < t.len() && ((#[trigger] t[j2]) matches Line::Entry(e2) && e2.key@
                    == merge_walk(t, u).1[i].0);
            assert(ls[j2 + 1] == t[j2]);
        },
        Line::Entry(e) => {
            if alist_has(u, e.key@) {
                lemma_alist_idx(u, e.key@);
                let u2 = u.remove(alist_idx(u, e.key@));
                let nv = alist_get(u, e.key@);
                if nv != e.value@ && i == 0 {
                    assert(k == e.key@);
                } else {
                    let i2: int = if nv != e.value@ {
                        i - 1
                    } else {
                        i
                    };
                    lemma_walk_records_keys(t, u2, i2);
                    let j2 = choose|j2: int|
                        0 <= j2 < t.len() && ((#[trigger] t[j2]) matches Line::Entry(e2)
                            && e2.key@ == merge_walk(t, u2).1[i2].0);
                    assert(ls[j2 + 1] == t[j2]);
                    assert(merge_walk(t, u2).1[i2].0 == k);
                }
            } else {
                lemma_walk_records_keys(t, u, i);
                let j2 = choose|j2: int|
                    0 <= j2 < t.len() && ((#[trigger] t[j2]) matches Line::Entry(e2) && e2.key@
                        == merge_walk(t, u).1[i].0);
                assert(ls[j2 + 1] == t[j2]);
            }
        },
    }
}

/// Every leftover update is one of the given updates.
pub proof fn lemma_walk_leftover_mem(ls: Seq<Line>, u: Seq<(Seq<char>, Seq<char>)>, i: int)
    requires
        0 <= i < merge_walk(ls, u).2.len(),
    ensures
        exists|j: int| 0 <= j < u.len() && (#[trigger] u[j]) == merge_walk(ls, u).2[i],
    decreases ls.len(),
{
    if ls.len() == 0 {
        assert(u[i] == merge_walk(ls, u).2[i]);
    } else {
        let t = ls.drop_first();
        match ls[0] {
            Line::Raw(_) => {
                lemma_walk_leftover_mem(t, u, i);
            },
            Line::Entry(e) => {
                if alist_has(u, e.key@) {
                    lemma_alist_idx(u, e.key@);
                    let m = alist_idx(u, e.key@);
                    let u2 = u.remove(m);
                    lemma_walk_leftover_mem(t, u2, i);
                    let j2 = choose|j2: int|
                        0 <= j2 < u2.len() && (#[trigger] u2[j2]) == merge_walk(t, u2).2[i];
                    if j2 < m {
                        assert(u[j2] == u2[j2]);
                    } else {
                        assert(u[j2 + 1] == u2[j2]);
                    }
                } else {
                    lemma_walk_leftover_mem(t, u, i);
                }
            },
        }
    }
}

/// Change records carry no values: beyond holding only a name and a kind by
/// construction, every recorded name is a key the document or the updates
/// already named — no value text can reach a record, so a report rendered
/// from the records alone cannot leak a secret value.
pub proof fn lemma_records_carry_only_names(ls: Seq<Line>, u: Seq<(Seq<char>, Seq<char>)>, i: int)
    requires
        0 <= i < merge_change_records(ls, u).len(),
    ensures
        is_doc_or_update_key(merge_change_records(ls, u)[i].0, ls, u),
{
    let w = merge_walk(ls, u);
    let sp = sort_pairs(w.2);
    lemma_sort_len(w.2);
    if i < w.1.len() {
        lemma_walk_records_keys(ls, u, i);
    } else {
        let i2 = i - w.1.len();
        assert(merge_change_records(ls, u)[i].0 == sp[i2].0);
        lemma_sort_mem(w.2, i2);
        let wi = choose|wi: int| 0 <= wi < w.2.len() && w.2[wi] == sort_pairs(w.2)[i2];
        lemma_walk_leftover_mem(ls, u, wi);
        let j = choose|j: int| 0 <= j < u.len() && (#[trigger] u[j]) == merge_walk(ls, u).2[wi];
        assert(u[j].0 == merge_change_records(ls, u)[i].0);
    }
}

} // verus!
