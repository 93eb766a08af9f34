//! The secret source: the capability interface the pipeline fetches from,
//! with the fixture implementation driven by a declarative text. Getting a
//! secret yields `Ok(None)` for "not found"; every other failure is hard
//! and aborts the pull.

use vstd::prelude::*;

use crate::chars::{find_char, find_char_from, is_space, is_space_char, lemma_find_char,
    lemma_trim_all_space, lemma_trim_window, trim_seq, find_eq, lex_le, str_lex_le};
use crate::envfile::{alist_get, alist_has, alist_idx, lemma_alist_idx, pairs_view, find_pair,
    split_lines, split_raw};

verus! {

/// Identifying metadata of one remote secret, prior to any fetch.
#[derive(Debug, Clone)]
pub struct SecretMeta {
    pub name: String,
}

/// A listing or fetch failure that is not "not found": transport, auth or a
/// malformed response.
#[derive(Debug, Clone, PartialEq, Eq)]
pub enum ProviderError {
    Other(String),
}

impl ProviderError {
    /// The diagnostic text carried by the failure.
    pub fn message(&self) -> (r: String)
        ensures
            match self {
                ProviderError::Other(s) => r@ == s@,
            },
    {
        match self {
            ProviderError::Other(s) => s.clone(),
        }
    }
}

/// The secret source contract: list the visible secrets, and get one value
/// where `Ok(None)` signals "not found" and `Err` any hard failure.
pub trait SecretProvider {
    fn list_secrets(&self) -> Result<Vec<SecretMeta>, ProviderError>;

    fn get_secret(&self, name: &String) -> Result<Option<String>, ProviderError>;
}

/// The texts a list of strings stands for.
pub open spec fn strs_view(v: Seq<String>) -> Seq<Seq<char>> {
    v.map_values(|s: String| s@)
}

/// The names a secret listing stands for.
pub open spec fn metas_view(v: Seq<SecretMeta>) -> Seq<Seq<char>> {
    v.map_values(|m: SecretMeta| m.name@)
}

/// The tag opening a fixture line that makes its secret fail on fetch.
pub open spec fn err_tag() -> Seq<char> {
    seq!['!', 'e', 'r', 'r', 'o', 'r', ':']
}

/// The tag opening a fixture line that makes its secret come back missing.
pub open spec fn miss_tag() -> Seq<char> {
    seq!['!', 'm', 'i', 's', 's', 'i', 'n', 'g', ':']
}

/// A name joins the listing once, at its first occurrence.
pub open spec fn fx_listed_add(listed: Seq<Seq<char>>, n: Seq<char>) -> Seq<Seq<char>> {
    if listed.contains(n) {
        listed
    } else {
        listed.push(n)
    }
}

/// The fixture state: listed names, name-value pairs, names erroring on
/// fetch, and names missing on fetch.
pub open spec fn fx_step(
    acc: (Seq<Seq<char>>, Seq<(Seq<char>, Seq<char>)>, Seq<Seq<char>>, Seq<Seq<char>>),
    line: Seq<char>,
) -> Option<(Seq<Seq<char>>, Seq<(Seq<char>, Seq<char>)>, Seq<Seq<char>>, Seq<Seq<char>>)> {
    let t = trim_seq(line);
    if t.len() == 0 || t[0] == '#' {
        Some(acc)
    } else if t.len() >= 7 && t.subrange(0, 7) == err_tag() {
        let n = trim_seq(t.subrange(7, t.len() as int));
        Some((fx_listed_add(acc.0, n), acc.1, acc.2.push(n), acc.3))
    } else if t.len() >= 9 && t.subrange(0, 9) == miss_tag() {
        let n = trim_seq(t.subrange(9, t.len() as int));
        Some((fx_listed_add(acc.0, n), acc.1, acc.2, acc.3.push(n)))
    } else if find_eq(t) < 0 {
        None
    } else {
        let n = trim_seq(t.subrange(0, find_eq(t)));
        let v = t.subrange(find_eq(t) + 1, t.len() as int);
        if n.len() == 0 {
            None
        } else {
            let vs = if alist_has(acc.1, n) {
                acc.1.remove(alist_idx(acc.1, n)).push((n, v))
            } else {
                acc.1.push((n, v))
            };
            Some((fx_listed_add(acc.0, n), vs, acc.2, acc.3))
        }
    }
}

/// Folds the fixture text line by line; `None` when any line is invalid.
pub open spec fn fx_fold(lines: Seq<Seq<char>>) -> Option<
    (Seq<Seq<char>>, Seq<(Seq<char>, Seq<char>)>, Seq<Seq<char>>, Seq<Seq<char>>),
>
    decreases lines.len(),
{
    if lines.len() == 0 {
        Some((Seq::empty(), Seq::empty(), Seq::empty(), Seq::empty()))
    } else {
        match fx_fold(lines.drop_last()) {
            None => None,
            Some(acc) => fx_step(acc, lines.last()),
        }
    }
}

/// A line the fixture refuses: not blank, not a comment, not a directive,
/// and lacking an `=` or a name before it.
pub open spec fn fx_line_invalid(line: Seq<char>) -> bool {
    let t = trim_seq(line);
    &&& t.len() > 0
    &&& t[0] != '#'
    &&& !(t.len() >= 7 && t.subrange(0, 7) == err_tag())
    &&& !(t.len() >= 9 && t.subrange(0, 9) == miss_tag())
    &&& (find_eq(t) < 0 || trim_seq(t.subrange(0, find_eq(t))).len() == 0)
}

/// The diagnostic of an invalid fixture line, quoting its trimmed text.
pub open spec fn fx_line_error_text(line: Seq<char>) -> Seq<char> {
    let t = trim_seq(line);
    if find_eq(t) < 0 {
        "invalid fixture entry: "@ + t
    } else {
        "invalid fixture entry (empty name): "@ + t
    }
}

/// Position of the first invalid line, or the length when every line folds.
pub open spec fn first_invalid(ls: Seq<Seq<char>>) -> int
    decreases ls.len(),
{
    if ls.len() == 0 {
        0
    } else if fx_line_invalid(ls[0]) {
        0
    } else {
        1 + first_invalid(ls.drop_first())
    }
}

pub proof fn lemma_first_invalid_at(ls: Seq<Seq<char>>, j: int)
    requires
        0 <= j < ls.len(),
        fx_line_invalid(ls[j]),
        forall|i: int| 0 <= i < j ==> !fx_line_invalid(#[trigger] ls[i]),
    ensures
        first_invalid(ls) == j,
    decreases ls.len(),
{
    if j > 0 {
        let t = ls.drop_first();
        assert(forall|i: int| 0 <= i < t.len() ==> #[trigger] t[i] == ls[i + 1]);
        assert forall|i: int| 0 <= i < j - 1 implies !fx_line_invalid(#[trigger] t[i]) by {
            assert(t[i] == ls[i + 1]);
        }
        lemma_first_invalid_at(t, j - 1);
    }
}

/// Index of the smallest name, ties going to the earlier one.
pub open spec fn min_name_idx(s: Seq<Seq<char>>) -> int
    decreases s.len(),
{
    if s.len() <= 1 {
        0
    } else {
        let m = min_name_idx(s.drop_last());
        if lex_le(s[m], s.last()) {
            m
        } else {
            s.len() - 1
        }
    }
}

pub proof fn lemma_min_name_idx_bounds(s: Seq<Seq<char>>)
    requires
        s.len() > 0,
    ensures
        0 <= min_name_idx(s) < s.len(),
    decreases s.len(),
{
    if s.len() > 1 {
        lemma_min_name_idx_bounds(s.drop_last());
    }
}

/// Selection sort of names in lexicographic order.
pub open spec fn sort_names(s: Seq<Seq<char>>) -> Seq<Seq<char>>
    decreases s.len(),
    via sort_names_decreases
{
    if s.len() == 0 {
        s
    } else {
        seq![s[min_name_idx(s)]] + sort_names(s.remove(min_name_idx(s)))
    }
}

#[via_fn]
proof fn sort_names_decreases(s: Seq<Seq<char>>) {
    if s.len() > 0 {
        lemma_min_name_idx_bounds(s);
    }
}

/// Removes and returns the smallest name, ties going to the earliest.
fn pop_min_name(rem: &mut Vec<String>) -> (p: String)
    requires
        old(rem)@.len() > 0,
    ensures
        p@ == strs_view(old(rem)@)[min_name_idx(strs_view(old(rem)@))],
        strs_view(final(rem)@) == strs_view(old(rem)@).remove(min_name_idx(strs_view(old(rem)@))),
{
    let ghost s = strs_view(old(rem)@);
    let n: usize = rem.len();
    let mut best: usize = 0;
    let mut i: usize = 1;
    while i < n
        invariant
            1 <= i <= n == rem@.len(),
            rem@ == old(rem)@,
            s == strs_view(rem@),
            0 <= best < i,
            best == min_name_idx(s.subrange(0, i as int)),
        decreases n - i,
    {
        proof {
            let w = s.subrange(0, i + 1);
            assert(w.drop_last() =~= s.subrange(0, i as int));
            assert(w.last() == s[i as int]);
            assert(s[best as int] == rem@[best as int]@);
            assert(s[i as int] == rem@[i as int]@);
        }
        if !str_lex_le(rem[best].as_str(), rem[i].as_str()) {
            best = i;
        }
        i = i + 1;
    }
    proof {
        assert(s.subrange(0, n as int) =~= s);
    }
    let p = rem.remove(best);
    proof {
        assert(strs_view(rem@) =~= s.remove(best as int));
    }
    p
}

/// Sorts a list of names in place, the way `sort_names` says.
fn sort_names_vec(v: &mut Vec<String>)
    ensures
        strs_view(final(v)@) == sort_names(strs_view(old(v)@)),
{
    let ghost orig = strs_view(old(v)@);
    let mut sorted: Vec<String> = Vec::new();
    while v.len() > 0
        invariant
            sort_names(orig) =~= strs_view(sorted@) + sort_names(strs_view(v@)),
        decreases v@.len(),
    {
        let ghost r = strs_view(v@);
        let ghost s0 = strs_view(sorted@);
        proof {
            lemma_min_name_idx_bounds(r);
        }
        let p = pop_min_name(v);
        sorted.push(p);
        proof {
            assert(strs_view(sorted@) =~= s0.push(r[min_name_idx(r)]));
            assert(sort_names(r) == seq![r[min_name_idx(r)]] + sort_names(r.remove(min_name_idx(r))));
            assert(sort_names(orig) =~= strs_view(sorted@) + sort_names(strs_view(v@)));
        }
    }
    proof {
        assert(strs_view(v@) =~= Seq::<Seq<char>>::empty());
        assert(strs_view(sorted@) =~= sort_names(orig));
    }
    *v = sorted;
}

/// The fixture secret source, declared by a small text: one `name=value`
/// pair per line, `!error:name` and `!missing:name` directives, blank and
/// `#`-led lines ignored.
#[derive(Debug)]
pub struct FixtureProvider {
    pub listed: Vec<String>,
    pub values: Vec<(String, String)>,
    pub error_on_get: Vec<String>,
    pub missing_on_get: Vec<String>,
}

/// The trimmed copy of a string.
fn trim_str(s: &str) -> (r: String)
    ensures
        r@ == trim_seq(s@),
{
    let n: usize = s.unicode_len();
    let mut a: usize = 0;
    while a < n && is_space(s.get_char(a))
        invariant
            0 <= a <= n == s@.len(),
            forall|i: int| 0 <= i < a ==> is_space_char(#[trigger] s@[i]),
        decreases n - a,
    {
        a = a + 1;
    }
    if a == n {
        proof {
            lemma_trim_all_space(s@);
        }
        return String::new();
    }
    let mut b: usize = n;
    while b > a && is_space(s.get_char(b - 1))
        invariant
            a <= b <= n,
            n == s@.len(),
            forall|i: int| b <= i < n ==> is_space_char(#[trigger] s@[i]),
        decreases b,
    {
        b = b - 1;
    }
    proof {
        if b == a {
            assert(is_space_char(s@[a as int]));
            assert(false);
        }
        lemma_trim_window(s@, a as int, b as int);
    }
    s.substring_char(a, b).to_owned()
}

/// Whether `p` opens `s`.
fn has_prefix(s: &str, p: &str) -> (r: bool)
    ensures
        r == (s@.len() >= p@.len() && s@.subrange(0, p@.len() as int) == p@),
{
    let np: usize = p.unicode_len();
    let ns: usize = s.unicode_len();
    if ns < np {
        return false;
    }
    let mut i: usize = 0;
    while i < np
        invariant
            0 <= i <= np == p@.len(),
            np <= ns == s@.len(),
            forall|j: int| 0 <= j < i ==> s@[j] == p@[j],
        decreases np - i,
    {
        if s.get_char(i) != p.get_char(i) {
            proof {
                assert(s@.subrange(0, np as int)[i as int] != p@[i as int]);
            }
            return false;
        }
        i = i + 1;
    }
    proof {
        assert(s@.subrange(0, np as int) =~= p@);
    }
    true
}

/// Whether the list holds this exact string.
fn contains_string(v: &Vec<String>, s: &String) -> (r: bool)
    ensures
        r == strs_view(v@).contains(s@),
{
    let n = v.len();
    let mut i: usize = 0;
    while i < n
        invariant
            0 <= i <= n == v@.len(),
            forall|j: int| 0 <= j < i ==> strs_view(v@)[j] != s@,
        decreases n - i,
    {
        proof {
            assert(strs_view(v@)[i as int] == v@[i as int]@);
        }
        if v[i] == *s {
            proof {
                assert(strs_view(v@)[i as int] == s@);
            }
            return true;
        }
        i = i + 1;
    }
    proof {
        if strs_view(v@).contains(s@) {
            let j = choose|j: int| 0 <= j < strs_view(v@).len() && strs_view(v@)[j] == s@;
            assert(false);
        }
    }
    false
}

impl FixtureProvider {
    /// What this fixture's fields stand for.
    pub open spec fn model(&self) -> (
        Seq<Seq<char>>,
        Seq<(Seq<char>, Seq<char>)>,
        Seq<Seq<char>>,
        Seq<Seq<char>>,
    ) {
        (
            strs_view(self.listed@),
            pairs_view(self.values@),
            strs_view(self.error_on_get@),
            strs_view(self.missing_on_get@),
        )
    }

    /// Builds the fixture from its declarative text: exactly the line-by-line
    /// fold with the listing sorted, failing on the first line with no `=`
    /// or an empty name, and quoting that line in the error.
    pub fn from_content(content: &str) -> (r: Result<FixtureProvider, String>)
        ensures
            ({
                let sl = split_lines(content@);
                match r {
                    Ok(f) => fx_fold(sl) matches Some(acc) && strs_view(f.listed@) == sort_names(
                        acc.0,
                    ) && pairs_view(f.values@) == acc.1 && strs_view(f.error_on_get@) == acc.2
                        && strs_view(f.missing_on_get@) == acc.3,
                    Err(e) => {
                        &&& fx_fold(sl) is None
                        &&& 0 <= first_invalid(sl) < sl.len()
                        &&& e@ == fx_line_error_text(sl[first_invalid(sl)])
                    },
                }
            }),
    {
        let ghost sl = split_lines(content@);
        let mut fx = FixtureProvider {
            listed: Vec::new(),
            values: Vec::new(),
            error_on_get: Vec::new(),
            missing_on_get: Vec::new(),
        };
        let n0: usize = content.unicode_len();
        if n0 == 0 {
            proof {
                assert(sl =~= Seq::<Seq<char>>::empty());
                assert(strs_view(fx.listed@) =~= Seq::<Seq<char>>::empty());
                assert(pairs_view(fx.values@) =~= Seq::<(Seq<char>, Seq<char>)>::empty());
                assert(strs_view(fx.error_on_get@) =~= Seq::<Seq<char>>::empty());
                assert(strs_view(fx.missing_on_get@) =~= Seq::<Seq<char>>::empty());
            }
            return Ok(fx);
        }
        let m: usize = if content.get_char(n0 - 1) == '\n' {
            n0 - 1
        } else {
            n0
        };
        proof {
            if content@.last() == '\n' {
                assert(content@.drop_last() =~= content@.subrange(0, m as int));
            } else {
                assert(content@ =~= content@.subrange(0, m as int));
            }
            assert(sl == split_raw(content@.subrange(0, m as int)));
        }
        let ghost mut done: Seq<Seq<char>> = Seq::empty();
        let mut start: usize = 0;
        loop
            invariant
                0 <= start <= m <= n0 == content@.len(),
                sl == split_lines(content@),
                fx_fold(done) == Some(fx.model()),
                forall|i: int| 0 <= i < done.len() ==> !fx_line_invalid(#[trigger] done[i]),
                sl == done + split_raw(content@.subrange(start as int, m as int)),
            decreases m - start,
        {
            let ghost sub = content@.subrange(start as int, m as int);
            let (seg_end, more) = match find_char_from(content, '\n', start, m) {
                Some(p) => (p, true),
                None => (m, false),
            };
            let line = content.substring_char(start, seg_end);
            proof {
                if more {
                    lemma_find_char(sub, '\n');
                    assert(sub.subrange(0, seg_end - start) =~= content@.subrange(
                        start as int,
                        seg_end as int,
                    ));
                    assert(sub.subrange(seg_end - start + 1, sub.len() as int) =~= content@
                        .subrange(seg_end + 1, m as int));
                    assert(split_raw(sub) == seq![line@] + split_raw(
                        content@.subrange(seg_end + 1, m as int),
                    ));
                } else {
                    assert(split_raw(sub) == seq![sub]);
                }
                assert(done.push(line@).drop_last() =~= done);
                assert(done.push(line@).last() == line@);
            }
            match Self::apply_line(&mut fx, line) {
                Ok(_) => {},
                Err(e) => {
                    proof {
                        let j = done.len() as int;
                        done = done.push(line@);
                        assert(fx_fold(done) is None);
                        assert forall|i: int| 0 <= i < done.len() implies sl[i] == done[i] by {
                            if i == done.len() - 1 {
                                assert(sl[i] == split_raw(sub)[0]);
                            }
                        }
                        lemma_fold_none_sticks(done, sl);
                        assert(sl[j] == line@);
                        assert forall|i: int| 0 <= i < j implies !fx_line_invalid(
                            #[trigger] sl[i],
                        ) by {
                            assert(sl[i] == done[i]);
                        }
                        lemma_first_invalid_at(sl, j);
                    }
                    return Err(e);
                },
            }
            proof {
                done = done.push(line@);
            }
            if more {
                proof {
                    assert(sl =~= done + split_raw(content@.subrange(seg_end + 1, m as int)));
                }
                start = seg_end + 1;
            } else {
                proof {
                    assert(sl =~= done);
                }
                let ghost acc = fx.model();
                sort_names_vec(&mut fx.listed);
                proof {
                    assert(fx_fold(sl) == Some(acc));
                    assert(strs_view(fx.listed@) == sort_names(acc.0));
                }
                return Ok(fx);
            }
        }
    }

    /// Applies one fixture line to the accumulating state.
    fn apply_line(fx: &mut FixtureProvider, line: &str) -> (r: Result<(), String>)
        ensures
            match r {
                Ok(_) => !fx_line_invalid(line@) && fx_step(old(fx).model(), line@) == Some(
                    final(fx).model(),
                ),
                Err(e) => {
                    &&& fx_line_invalid(line@)
                    &&& fx_step(old(fx).model(), line@) is None
                    &&& e@ == fx_line_error_text(line@)
                    &&& *final(fx) == *old(fx)
                },
            },
    {
        let t = trim_str(line);
        let tn: usize = t.unicode_len();
        if tn == 0 {
            return Ok(());
        }
        if t.as_str().get_char(0) == '#' {
            return Ok(());
        }
        proof {
            reveal_strlit("!error:");
            reveal_strlit("!missing:");
            assert("!error:"@ =~= err_tag());
            assert("!missing:"@ =~= miss_tag());
        }
        if has_prefix(t.as_str(), "!error:") {
            let name = trim_str(t.as_str().substring_char(7, tn));
            Self::add_listed(fx, &name);
            fx.error_on_get.push(name);
            proof {
                assert(strs_view(fx.error_on_get@) =~= strs_view(old(fx).error_on_get@).push(
                    trim_seq(t@.subrange(7, t@.len() as int)),
                ));
            }
            return Ok(());
        }
        if has_prefix(t.as_str(), "!missing:") {
            let name = trim_str(t.as_str().substring_char(9, tn));
            Self::add_listed(fx, &name);
            fx.missing_on_get.push(name);
            proof {
                assert(strs_view(fx.missing_on_get@) =~= strs_view(old(fx).missing_on_get@).push(
                    trim_seq(t@.subrange(9, t@.len() as int)),
                ));
            }
            return Ok(());
        }
        let eq = match find_char_from(t.as_str(), '=', 0, tn) {
            Some(i) => {
                proof {
                    assert(t@.subrange(0, tn as int) =~= t@);
                }
                i
            },
            None => {
                proof {
                    assert(t@.subrange(0, tn as int) =~= t@);
                    reveal_strlit("invalid fixture entry: ");
                }
                let mut e = String::from_str("invalid fixture entry: ");
                e.append(t.as_str());
                return Err(e);
            },
        };
        let name = trim_str(t.as_str().substring_char(0, eq));
        let value = t.as_str().substring_char(eq + 1, tn).to_owned();
        if name.as_str().unicode_len() == 0 {
            proof {
                reveal_strlit("invalid fixture entry (empty name): ");
            }
            let mut e = String::from_str("invalid fixture entry (empty name): ");
            e.append(t.as_str());
            return Err(e);
        }
        let ghost vs0 = pairs_view(fx.values@);
        match find_pair(&fx.values, &name) {
            Some(i) => {
                fx.values.remove(i);
                proof {
                    assert(pairs_view(fx.values@) =~= vs0.remove(i as int));
                }
            },
            None => {},
        }
        fx.values.push((name.clone(), value));
        Self::add_listed(fx, &name);
        proof {
            let n = trim_seq(t@.subrange(0, find_eq(t@)));
            let v = t@.subrange(find_eq(t@) + 1, t@.len() as int);
            assert(name@ == n && value@ == v);
            if alist_has(vs0, n) {
                assert(pairs_view(fx.values@) =~= vs0.remove(alist_idx(vs0, n)).push((n, v)));
            } else {
                assert(pairs_view(fx.values@) =~= vs0.push((n, v)));
            }
        }
        Ok(())
    }

    /// Adds a name to the listing unless it is already there.
    fn add_listed(fx: &mut FixtureProvider, name: &String)
        ensures
            strs_view(final(fx).listed@) == fx_listed_add(strs_view(old(fx).listed@), name@),
            final(fx).values == old(fx).values,
            final(fx).error_on_get == old(fx).error_on_get,
            final(fx).missing_on_get == old(fx).missing_on_get,
    {
        if !contains_string(&fx.listed, name) {
            fx.listed.push(name.clone());
            proof {
                assert(strs_view(fx.listed@) =~= strs_view(old(fx).listed@).push(name@));
            }
        }
    }

    /// The listed secrets, one metadata record per name, in listing order.
    pub fn fixture_list(&self) -> (r: Vec<SecretMeta>)
        ensures
            metas_view(r@) == strs_view(self.listed@),
    {
        let mut out: Vec<SecretMeta> = Vec::new();
        let n = self.listed.len();
        let mut i: usize = 0;
        while i < n
            invariant
                0 <= i <= n == self.listed@.len(),
                out@.len() == i,
                metas_view(out@) =~= strs_view(self.listed@).subrange(0, i as int),
            decreases n - i,
        {
            let nm = self.listed[i].clone();
            out.push(SecretMeta { name: nm });
            proof {
                assert(out@[i as int].name@ == strs_view(self.listed@)[i as int]);
                assert(metas_view(out@) =~= strs_view(self.listed@).subrange(0, i + 1));
            }
            i = i + 1;
        }
        proof {
            assert(strs_view(self.listed@).subrange(0, n as int) =~= strs_view(self.listed@));
        }
        out
    }

    /// One fetch against the fixture: an error for names declared erroring,
    /// not-found for names declared missing or simply absent, the declared
    /// value otherwise.
    pub fn fixture_get(&self, name: &String) -> (r: Result<Option<String>, ProviderError>)
        ensures
            ({
                let (_, vals, errs, miss) = self.model();
                match r {
                    Err(e) => errs.contains(name@) && (e matches ProviderError::Other(m) && m@
                        == "fixture induced get error for secret: "@ + name@),
                    Ok(opt) => !errs.contains(name@) && match opt {
                        None => !(!miss.contains(name@) && alist_has(vals, name@)),
                        Some(v) => !miss.contains(name@) && alist_has(vals, name@) && v@
                            == alist_get(vals, name@),
                    },
                }
            }),
    {
        if contains_string(&self.error_on_get, name) {
            proof {
                reveal_strlit("fixture induced get error for secret: ");
            }
            let mut e = String::from_str("fixture induced get error for secret: ");
            e.append(name.as_str());
            return Err(ProviderError::Other(e));
        }
        if contains_string(&self.missing_on_get, name) {
            return Ok(None);
        }
        match find_pair(&self.values, name) {
            Some(i) => {
                proof {
                    assert(pairs_view(self.values@)[i as int].1 == self.values@[i as int].1@);
                }
                Ok(Some(self.values[i].1.clone()))
            },
            None => Ok(None),
        }
    }
}

/// A failed `fx_fold` stays failed however the text goes on.
pub proof fn lemma_fold_none_sticks(done: Seq<Seq<char>>, all: Seq<Seq<char>>)
    requires
        fx_fold(done) is None,
        done.len() <= all.len(),
        forall|i: int| 0 <= i < done.len() ==> all[i] == done[i],
    ensures
        fx_fold(all) is None,
    decreases all.len() - done.len(),
{
    if all.len() == done.len() {
        assert(all =~= done);
    } else {
        let p = all.take(all.len() - 1);
        assert(forall|i: int| 0 <= i < done.len() ==> p[i] == done[i]);
        lemma_fold_none_sticks(done, p);
        assert(all.drop_last() =~= p);
    }
}

impl SecretProvider for FixtureProvider {
    /// Never fails: one record per stored name, in the stored order.
    fn list_secrets(&self) -> (r: Result<Vec<SecretMeta>, ProviderError>)
        ensures
            r matches Ok(metas) && metas_view(metas@) == strs_view(self.listed@),
    {
        Ok(self.fixture_list())
    }

    /// Exactly `fixture_get`: error names first, then missing, then values.
    fn get_secret(&self, name: &String) -> (r: Result<Option<String>, ProviderError>)
        ensures
            ({
                let (_, vals, errs, miss) = self.model();
                match r {
                    Err(e) => errs.contains(name@) && (e matches ProviderError::Other(m) && m@
                        == "fixture induced get error for secret: "@ + name@),
                    Ok(opt) => !errs.contains(name@) && match opt {
                        None => !(!miss.contains(name@) && alist_has(vals, name@)),
                        Some(v) => !miss.contains(name@) && alist_has(vals, name@) && v@
                            == alist_get(vals, name@),
                    },
                }
            }),
    {
        self.fixture_get(name)
    }
}

/// A fetch that failed hard, naming the secret that triggered it.
#[derive(Debug, Clone, PartialEq, Eq)]
pub struct FetchError {
    pub secret: String,
    pub message: String,
}

/// The updates are drawn from the mapping in order: each update's key is a
/// later mapping entry's target name than the one before it.
pub open spec fn is_drawn_from(
    u: Seq<(Seq<char>, Seq<char>)>,
    m: Seq<(Seq<char>, Seq<char>)>,
) -> bool
    decreases u.len() + m.len(),
{
    if u.len() == 0 {
        true
    } else if m.len() == 0 {
        false
    } else {
        (u.last().0 == m.last().1 && is_drawn_from(u.drop_last(), m.drop_last()))
            || is_drawn_from(u, m.drop_last())
    }
}

/// Every drawn key is some mapping entry's target name.
pub proof fn lemma_drawn_key_source(
    u: Seq<(Seq<char>, Seq<char>)>,
    m: Seq<(Seq<char>, Seq<char>)>,
    j: int,
)
    requires
        is_drawn_from(u, m),
        0 <= j < u.len(),
    ensures
        exists|k: int| 0 <= k < m.len() && u[j].0 == (#[trigger] m[k]).1,
    decreases u.len() + m.len(),
{
    let ud = u.drop_last();
    let md = m.drop_last();
    assert(forall|i: int| 0 <= i < ud.len() ==> #[trigger] ud[i] == u[i]);
    assert(forall|i: int| 0 <= i < md.len() ==> #[trigger] md[i] == m[i]);
    if u.last().0 == m.last().1 && is_drawn_from(ud, md) {
        if j == u.len() - 1 {
            assert(u[j].0 == m[m.len() - 1].1);
        } else {
            lemma_drawn_key_source(ud, md, j);
            let k = choose|k: int| 0 <= k < md.len() && ud[j].0 == md[k].1;
            assert(u[j].0 == m[k].1);
        }
    } else {
        lemma_drawn_key_source(u, md, j);
        let k = choose|k: int| 0 <= k < md.len() && u[j].0 == md[k].1;
        assert(u[j].0 == m[k].1);
    }
}

/// Updates drawn from a mapping with pairwise distinct target names have
/// pairwise distinct keys — what `merge` then consumes is a mapping.
pub proof fn lemma_drawn_keys_distinct(
    u: Seq<(Seq<char>, Seq<char>)>,
    m: Seq<(Seq<char>, Seq<char>)>,
)
    requires
        is_drawn_from(u, m),
        forall|a: int, b: int| 0 <= a < b < m.len() ==> (#[trigger] m[a]).1 != (#[trigger] m[b]).1,
    ensures
        crate::envfile::distinct_keys(u),
    decreases u.len() + m.len(),
{
    if u.len() > 0 && m.len() > 0 {
        let ud = u.drop_last();
        let md = m.drop_last();
        assert(forall|i: int| 0 <= i < ud.len() ==> #[trigger] ud[i] == u[i]);
        assert(forall|i: int| 0 <= i < md.len() ==> #[trigger] md[i] == m[i]);
        if u.last().0 == m.last().1 && is_drawn_from(ud, md) {
            lemma_drawn_keys_distinct(ud, md);
            assert forall|a: int, b: int| 0 <= a < b < u.len() implies u[a].0 != u[b].0 by {
                if b < u.len() - 1 {
                    assert(ud[a].0 != ud[b].0);
                } else {
                    lemma_drawn_key_source(ud, md, a);
                    let k = choose|k: int| 0 <= k < md.len() && ud[a].0 == md[k].1;
                    assert(m[k].1 != m[m.len() - 1].1);
                }
            }
        } else {
            lemma_drawn_keys_distinct(u, md);
        }
    }
}

/// Fetches every mapped secret in mapping order, all or nothing: the first
/// hard failure aborts the whole fetch with nothing handed out, a missing
/// secret is simply omitted, and the updates are exactly the values that
/// came back, keyed by their mapping targets in mapping order.
pub fn fetch_all<P: SecretProvider>(provider: &P, mapping: &Vec<(String, String)>) -> (r: Result<
    Vec<(String, String)>,
    FetchError,
>)
    ensures
        match r {
            Ok(updates) => is_drawn_from(pairs_view(updates@), pairs_view(mapping@)),
            Err(e) => exists|i: int| 0 <= i < mapping@.len() && e.secret@ == (
            #[trigger] mapping@[i]).0@,
        },
{
    let mut updates: Vec<(String, String)> = Vec::new();
    let n = mapping.len();
    let mut i: usize = 0;
    while i < n
        invariant
            0 <= i <= n == mapping@.len(),
            is_drawn_from(pairs_view(updates@), pairs_view(mapping@).take(i as int)),
        decreases n - i,
    {
        let ghost u0 = pairs_view(updates@);
        let ghost mv = pairs_view(mapping@);
        proof {
            assert(mv.take(i + 1).drop_last() =~= mv.take(i as int));
            assert(mv.take(i + 1).last() == mv[i as int]);
        }
        let secret = mapping[i].0.clone();
        let env_key = mapping[i].1.clone();
        match provider.get_secret(&secret) {
            Err(e) => {
                return Err(FetchError { secret, message: e.message() });
            },
            Ok(None) => {
                proof {
                    assert(is_drawn_from(u0, mv.take(i + 1)));
                }
            },
            Ok(Some(value)) => {
                updates.push((env_key, value));
                proof {
                    assert(pairs_view(updates@).drop_last() =~= u0);
                    assert(pairs_view(updates@).last().0 == mv[i as int].1);
                    assert(is_drawn_from(pairs_view(updates@), mv.take(i + 1)));
                }
            },
        }
        i = i + 1;
    }
    proof {
        assert(pairs_view(mapping@).take(n as int) =~= pairs_view(mapping@));
    }
    Ok(updates)
}

} // verus!
