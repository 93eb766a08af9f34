//! Character classes and low-level text helpers shared by the line
//! classifier, the resolver and the fixture parser.

use vstd::prelude::*;

verus! {

/// Whitespace this library trims: the Unicode `White_Space` characters,
/// the set `char::is_whitespace` recognizes.
pub open spec fn is_space_char(c: char) -> bool {
    ||| ('\u{9}' <= c && c <= '\u{d}')
    ||| c == ' '
    ||| c == '\u{85}'
    ||| c == '\u{a0}'
    ||| c == '\u{1680}'
    ||| ('\u{2000}' <= c && c <= '\u{200a}')
    ||| c == '\u{2028}'
    ||| c == '\u{2029}'
    ||| c == '\u{202f}'
    ||| c == '\u{205f}'
    ||| c == '\u{3000}'
}

/// A character that may start a variable name: a letter or an underscore.
pub open spec fn is_key_start_char(c: char) -> bool {
    c == '_' || ('a' <= c && c <= 'z') || ('A' <= c && c <= 'Z')
}

/// A character that may continue a variable name: a letter, a digit or an
/// underscore.
pub open spec fn is_key_char(c: char) -> bool {
    is_key_start_char(c) || ('0' <= c && c <= '9')
}

/// A syntactically valid variable name: `[A-Za-z_][A-Za-z0-9_]*`.
pub open spec fn is_valid_key_seq(s: Seq<char>) -> bool {
    s.len() > 0 && is_key_start_char(s[0]) && forall|i: int|
        1 <= i < s.len() ==> is_key_char(#[trigger] s[i])
}

pub fn is_space(c: char) -> (r: bool)
    ensures
        r == is_space_char(c),
{
    let u = c as u32;
    (0x9 <= u && u <= 0xd) || u == 0x20 || u == 0x85 || u == 0xa0 || u == 0x1680 || (0x2000 <= u
        && u <= 0x200a) || u == 0x2028 || u == 0x2029 || u == 0x202f || u == 0x205f || u == 0x3000
}

/// Number of leading whitespace characters of `s`.
pub open spec fn leading_spaces(s: Seq<char>) -> int
    decreases s.len(),
{
    if s.len() == 0 {
        0
    } else if !is_space_char(s[0]) {
        0
    } else {
        1 + leading_spaces(s.drop_first())
    }
}

/// Number of trailing whitespace characters of `s`.
pub open spec fn trailing_spaces(s: Seq<char>) -> int
    decreases s.len(),
{
    if s.len() == 0 {
        0
    } else if !is_space_char(s.last()) {
        0
    } else {
        1 + trailing_spaces(s.drop_last())
    }
}

/// `s` with trailing whitespace removed.
pub open spec fn trim_end_seq(s: Seq<char>) -> Seq<char> {
    s.subrange(0, s.len() - trailing_spaces(s))
}

/// `s` with leading whitespace removed.
pub open spec fn trim_start_seq(s: Seq<char>) -> Seq<char> {
    s.subrange(leading_spaces(s), s.len() as int)
}

/// `s` with leading and trailing whitespace removed.
pub open spec fn trim_seq(s: Seq<char>) -> Seq<char> {
    trim_start_seq(trim_end_seq(s))
}

/// Index of the first occurrence of `c` in `s`, or -1 when `s` has none.
pub open spec fn find_char(s: Seq<char>, c: char) -> int
    decreases s.len(),
{
    if s.len() == 0 {
        -1
    } else if s[0] == c {
        0
    } else if find_char(s.drop_first(), c) < 0 {
        -1
    } else {
        1 + find_char(s.drop_first(), c)
    }
}

/// Index of the first `=` in `s`, or -1 when `s` has none.
pub open spec fn find_eq(s: Seq<char>) -> int {
    find_char(s, '=')
}

pub proof fn lemma_leading_spaces(s: Seq<char>)
    ensures
        0 <= leading_spaces(s) <= s.len(),
        forall|i: int| 0 <= i < leading_spaces(s) ==> is_space_char(#[trigger] s[i]),
        leading_spaces(s) < s.len() ==> !is_space_char(s[leading_spaces(s)]),
    decreases s.len(),
{
    if s.len() > 0 && is_space_char(s[0]) {
        let t = s.drop_first();
        lemma_leading_spaces(t);
        assert(forall|j: int| 0 <= j < t.len() ==> #[trigger] t[j] == s[j + 1]);
        assert forall|i: int| 0 <= i < leading_spaces(s) implies is_space_char(#[trigger] s[i]) by {
            if i > 0 {
                assert(s[i] == t[i - 1]);
            }
        }
    }
}

pub proof fn lemma_trailing_spaces(s: Seq<char>)
    ensures
        0 <= trailing_spaces(s) <= s.len(),
        forall|i: int| s.len() - trailing_spaces(s) <= i < s.len() ==> is_space_char(#[trigger] s[i]),
        trailing_spaces(s) < s.len() ==> !is_space_char(s[s.len() - trailing_spaces(s) - 1]),
    decreases s.len(),
{
    if s.len() > 0 && is_space_char(s.last()) {
        lemma_trailing_spaces(s.drop_last());
        assert forall|i: int| s.len() - trailing_spaces(s) <= i < s.len() implies is_space_char(
            #[trigger] s[i],
        ) by {
            if i < s.len() - 1 {
                assert(s.drop_last()[i] == s[i]);
            }
        }
    }
}

/// The count of leading spaces is pinned by what the characters are.
pub proof fn lemma_leading_spaces_unique(s: Seq<char>, a: int)
    requires
        0 <= a <= s.len(),
        forall|i: int| 0 <= i < a ==> is_space_char(#[trigger] s[i]),
        a < s.len() ==> !is_space_char(s[a]),
    ensures
        leading_spaces(s) == a,
    decreases s.len(),
{
    if a > 0 {
        let t = s.drop_first();
        assert(forall|j: int| 0 <= j < t.len() ==> #[trigger] t[j] == s[j + 1]);
        lemma_leading_spaces_unique(t, a - 1);
    }
}

/// The count of trailing spaces is pinned by what the characters are.
pub proof fn lemma_trailing_spaces_unique(s: Seq<char>, k: int)
    requires
        0 <= k <= s.len(),
        forall|i: int| s.len() - k <= i < s.len() ==> is_space_char(#[trigger] s[i]),
        k < s.len() ==> !is_space_char(s[s.len() - k - 1]),
    ensures
        trailing_spaces(s) == k,
    decreases s.len(),
{
    if k > 0 {
        let t = s.drop_last();
        assert(forall|j: int| 0 <= j < t.len() ==> #[trigger] t[j] == s[j]);
        lemma_trailing_spaces_unique(t, k - 1);
    }
}

/// Trimming a sequence of nothing but whitespace leaves nothing.
pub proof fn lemma_trim_all_space(s: Seq<char>)
    requires
        forall|i: int| 0 <= i < s.len() ==> is_space_char(#[trigger] s[i]),
    ensures
        trim_seq(s) == Seq::<char>::empty(),
{
    lemma_trailing_spaces_unique(s, s.len() as int);
    assert(trim_end_seq(s) =~= Seq::<char>::empty());
    lemma_leading_spaces_unique(trim_end_seq(s), 0);
    assert(trim_seq(s) =~= Seq::<char>::empty());
}

/// Trimming keeps exactly the window `[a, b)` when whitespace surrounds it.
pub proof fn lemma_trim_window(s: Seq<char>, a: int, b: int)
    requires
        0 <= a < b <= s.len(),
        forall|i: int| 0 <= i < a ==> is_space_char(#[trigger] s[i]),
        forall|i: int| b <= i < s.len() ==> is_space_char(#[trigger] s[i]),
        !is_space_char(s[a]),
        !is_space_char(s[b - 1]),
    ensures
        trim_seq(s) == s.subrange(a, b),
{
    lemma_trailing_spaces_unique(s, s.len() - b);
    let t = trim_end_seq(s);
    assert(t =~= s.subrange(0, b));
    assert(forall|j: int| 0 <= j < t.len() ==> #[trigger] t[j] == s[j]);
    lemma_leading_spaces_unique(t, a);
    assert(trim_seq(s) =~= s.subrange(a, b));
}

pub proof fn lemma_find_char(s: Seq<char>, c: char)
    ensures
        find_char(s, c) >= 0 ==> find_char(s, c) < s.len() && s[find_char(s, c)] == c
            && forall|j: int| 0 <= j < find_char(s, c) ==> s[j] != c,
        find_char(s, c) < 0 ==> forall|j: int| 0 <= j < s.len() ==> s[j] != c,
    decreases s.len(),
{
    if s.len() > 0 && s[0] != c {
        let t = s.drop_first();
        lemma_find_char(t, c);
        assert(forall|j: int| 0 <= j < t.len() ==> #[trigger] t[j] == s[j + 1]);
        if find_char(t, c) >= 0 {
            assert(s[find_char(s, c)] == t[find_char(t, c)]);
            assert forall|j: int| 0 <= j < find_char(s, c) implies s[j] != c by {
                if j > 0 {
                    assert(s[j] == t[j - 1]);
                }
            }
        } else {
            assert forall|j: int| 0 <= j < s.len() implies s[j] != c by {
                if j > 0 {
                    assert(s[j] == t[j - 1]);
                }
            }
        }
    }
}

/// The first occurrence of `c` is pinned by what the characters are.
pub proof fn lemma_find_char_unique(s: Seq<char>, c: char, i: int)
    requires
        0 <= i < s.len(),
        s[i] == c,
        forall|j: int| 0 <= j < i ==> s[j] != c,
    ensures
        find_char(s, c) == i,
{
    lemma_find_char(s, c);
}

/// First index of `c` in `s[from..n)`, scanning executable text.
pub fn find_char_from(s: &str, c: char, from: usize, n: usize) -> (r: Option<usize>)
    requires
        from <= n <= s@.len(),
    ensures
        match r {
            Some(i) => from <= i < n && find_char(s@.subrange(from as int, n as int), c) == i - from,
            None => find_char(s@.subrange(from as int, n as int), c) < 0,
        },
{
    let ghost sub = s@.subrange(from as int, n as int);
    let mut i: usize = from;
    while i < n
        invariant
            from <= i <= n <= s@.len(),
            sub == s@.subrange(from as int, n as int),
            forall|j: int| from <= j < i ==> s@[j] != c,
        decreases n - i,
    {
        if s.get_char(i) == c {
            proof {
                assert(forall|j: int| 0 <= j < sub.len() ==> #[trigger] sub[j] == s@[j + from]);
                lemma_find_char_unique(sub, c, i - from);
            }
            return Some(i);
        }
        i = i + 1;
    }
    proof {
        assert(forall|j: int| 0 <= j < sub.len() ==> #[trigger] sub[j] == s@[j + from]);
        lemma_find_char(sub, c);
    }
    None
}

/// Strict lexicographic order on character sequences by code point.
pub open spec fn lex_lt(a: Seq<char>, b: Seq<char>) -> bool
    decreases a.len(),
{
    if b.len() == 0 {
        false
    } else if a.len() == 0 {
        true
    } else if a[0] != b[0] {
        (a[0] as u32) < (b[0] as u32)
    } else {
        lex_lt(a.drop_first(), b.drop_first())
    }
}

pub open spec fn lex_le(a: Seq<char>, b: Seq<char>) -> bool {
    a == b || lex_lt(a, b)
}

/// Dropping an equal common prefix does not change the lexicographic order.
pub proof fn lemma_lex_skip(a: Seq<char>, b: Seq<char>, i: int)
    requires
        0 <= i <= a.len(),
        i <= b.len(),
        forall|j: int| 0 <= j < i ==> a[j] == b[j],
    ensures
        lex_lt(a, b) == lex_lt(a.skip(i), b.skip(i)),
        (a == b) == (a.len() == b.len() && a.skip(i) == b.skip(i)),
    decreases i,
{
    if i > 0 {
        assert(a.len() > 0 && b.len() > 0);
        assert(a[0] == b[0]);
        let ta = a.drop_first();
        let tb = b.drop_first();
        assert(forall|j: int| 0 <= j < ta.len() ==> #[trigger] ta[j] == a[j + 1]);
        assert(forall|j: int| 0 <= j < tb.len() ==> #[trigger] tb[j] == b[j + 1]);
        lemma_lex_skip(ta, tb, i - 1);
        assert(ta.skip(i - 1) =~= a.skip(i));
        assert(tb.skip(i - 1) =~= b.skip(i));
        if a.len() == b.len() && a.skip(i) == b.skip(i) {
            assert(ta == tb);
            assert forall|j: int| 0 <= j < a.len() implies a[j] == b[j] by {
                if j > 0 {
                    assert(ta[j - 1] == a[j]);
                    assert(tb[j - 1] == b[j]);
                }
            }
            assert(a =~= b);
        }
    } else {
        assert(a.skip(0) =~= a);
        assert(b.skip(0) =~= b);
    }
}

/// Decides character-for-character equality of executable strings.
pub fn str_eq(a: &str, b: &str) -> (r: bool)
    ensures
        r == (a@ == b@),
{
    let na: usize = a.unicode_len();
    let nb: usize = b.unicode_len();
    if na != nb {
        proof {
            if a@ == b@ {
                assert(false);
            }
        }
        return false;
    }
    let mut i: usize = 0;
    while i < na
        invariant
            0 <= i <= na == a@.len(),
            na == nb == b@.len(),
            forall|j: int| 0 <= j < i ==> a@[j] == b@[j],
        decreases na - i,
    {
        if a.get_char(i) != b.get_char(i) {
            proof {
                if a@ == b@ {
                    assert(a@[i as int] == b@[i as int]);
                }
            }
            return false;
        }
        i = i + 1;
    }
    proof {
        assert(a@ =~= b@);
    }
    true
}

/// Whether a string is nothing but whitespace.
pub fn is_blank(s: &str) -> (r: bool)
    ensures
        r == (trim_seq(s@).len() == 0),
{
    let n: usize = s.unicode_len();
    let mut i: usize = 0;
    while i < n
        invariant
            0 <= i <= n == s@.len(),
            forall|j: int| 0 <= j < i ==> is_space_char(#[trigger] s@[j]),
        decreases n - i,
    {
        if !is_space(s.get_char(i)) {
            proof {
                lemma_trailing_spaces(s@);
                lemma_leading_spaces(trim_end_seq(s@));
                assert(trim_end_seq(s@).len() > i) by {
                    if trailing_spaces(s@) > n - 1 - i {
                        assert(is_space_char(s@[i as int]));
                    }
                }
                assert(!is_space_char(trim_end_seq(s@)[i as int]));
                assert(leading_spaces(trim_end_seq(s@)) <= i) by {
                    if leading_spaces(trim_end_seq(s@)) > i {
                        assert(is_space_char(trim_end_seq(s@)[i as int]));
                    }
                }
            }
            return false;
        }
        i = i + 1;
    }
    proof {
        lemma_trim_all_space(s@);
    }
    true
}

/// Decides `lex_le` on executable strings.
pub fn str_lex_le(a: &str, b: &str) -> (r: bool)
    ensures
        r == lex_le(a@, b@),
{
    let na: usize = a.unicode_len();
    let nb: usize = b.unicode_len();
    let mut i: usize = 0;
    loop
        invariant
            0 <= i <= na <= a@.len(),
            na == a@.len(),
            nb == b@.len(),
            i <= nb,
            forall|j: int| 0 <= j < i ==> a@[j] == b@[j],
        decreases na - i,
    {
        proof {
            lemma_lex_skip(a@, b@, i as int);
        }
        if i >= na || i >= nb {
            proof {
                if na == nb {
                    assert(a@.skip(i as int) =~= b@.skip(i as int));
                }
            }
            return na <= nb;
        }
        let ca = a.get_char(i);
        let cb = b.get_char(i);
        if ca != cb {
            return (ca as u32) < (cb as u32);
        }
        i = i + 1;
    }
}

} // verus!
