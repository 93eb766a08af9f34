//! The secret resolver: maps each remote secret to a target variable name,
//! using the operator's override table first and a deterministic derived
//! name otherwise, and fails on any name conflict before anything is
//! fetched or written.

use vstd::prelude::*;

use crate::envfile::{alist_get, alist_has, alist_idx, lemma_alist_idx, pairs_view, find_pair,
    distinct_keys, Change, ChangeKind};
use crate::provider::SecretMeta;

verus! {

/// How one character of a secret name turns into a character of the derived
/// variable name: `-` becomes `_`, ASCII lowercase becomes uppercase, and
/// everything else is kept.
pub open spec fn env_key_char(c: char) -> char {
    if c == '-' {
        '_'
    } else if 'a' <= c && c <= 'z' {
        (((c as u32) - 32) as u32) as char
    } else {
        c
    }
}

/// The derived variable name of a secret name.
pub open spec fn env_key_of(s: Seq<char>) -> Seq<char> {
    s.map_values(|c: char| env_key_char(c))
}

/// Relies on `String::from_iter` over `char`: builds the string holding
/// exactly the given characters in order.
#[verifier::external_body]
fn chars_to_string(v: &Vec<char>) -> (r: String)
    ensures
        r@ == v@,
{
    v.iter().collect()
}

/// The derived variable name of a secret: every `-` replaced by `_` and
/// every ASCII lowercase letter uppercased; all other characters unchanged.
pub fn to_env_key(secret_name: &str) -> (r: String)
    ensures
        r@ == env_key_of(secret_name@),
{
    let n: usize = secret_name.unicode_len();
    let mut buf: Vec<char> = Vec::new();
    let mut i: usize = 0;
    while i < n
        invariant
            0 <= i <= n == secret_name@.len(),
            buf@ =~= env_key_of(secret_name@).subrange(0, i as int),
        decreases n - i,
    {
        let c = secret_name.get_char(i);
        let cu = c as u32;
        let t: char = if c == '-' {
            '_'
        } else if 97 <= cu && cu <= 122 {
            ((c as u8) - 32) as char
        } else {
            c
        };
        buf.push(t);
        proof {
            assert(t == env_key_char(secret_name@[i as int]));
            assert(buf@ =~= env_key_of(secret_name@).subrange(0, i + 1));
        }
        i = i + 1;
    }
    proof {
        assert(env_key_of(secret_name@).subrange(0, n as int) =~= env_key_of(secret_name@));
    }
    chars_to_string(&buf)
}

/// A fatal naming conflict, found before any fetch or write. It names the
/// colliding identifiers for diagnosis.
#[derive(Debug, Clone, PartialEq, Eq)]
pub enum ConflictError {
    /// Two override entries name the same secret.
    DuplicateSecret { secret: String, first_key: String, second_key: String },
    /// Two secrets resolve to the same target variable name.
    DuplicateEnvKey { env_key: String, first_secret: String, second_secret: String },
}

/// The diagnostic text of a conflict: both colliding identifiers appear.
pub open spec fn conflict_message_text(e: ConflictError) -> Seq<char> {
    match e {
        ConflictError::DuplicateSecret { secret, first_key, second_key } =>
            "duplicate manual mapping for secret "@ + secret@ + ": "@ + first_key@ + " and "@
                + second_key@,
        ConflictError::DuplicateEnvKey { env_key, first_secret, second_secret } =>
            "duplicate env key mapping detected: "@ + env_key@ + " mapped from both "@
                + first_secret@ + " and "@ + second_secret@,
    }
}

impl ConflictError {
    /// A diagnostic line naming the colliding identifiers.
    pub fn message(&self) -> (r: String)
        ensures
            r@ == conflict_message_text(*self),
    {
        let mut s = String::new();
        match self {
            ConflictError::DuplicateSecret { secret, first_key, second_key } => {
                s.append("duplicate manual mapping for secret ");
                s.append(secret.as_str());
                s.append(": ");
                s.append(first_key.as_str());
                s.append(" and ");
                s.append(second_key.as_str());
            },
            ConflictError::DuplicateEnvKey { env_key, first_secret, second_secret } => {
                s.append("duplicate env key mapping detected: ");
                s.append(env_key.as_str());
                s.append(" mapped from both ");
                s.append(first_secret.as_str());
                s.append(" and ");
                s.append(second_secret.as_str());
            },
        }
        s
    }
}

/// The pairs with their sides swapped.
pub open spec fn swapped(u: Seq<(Seq<char>, Seq<char>)>) -> Seq<(Seq<char>, Seq<char>)> {
    u.map_values(|p: (Seq<char>, Seq<char>)| (p.1, p.0))
}

/// The first position whose name already occurred, or the length when all
/// names are distinct.
pub open spec fn first_dup_idx(u: Seq<(Seq<char>, Seq<char>)>) -> int
    decreases u.len(),
{
    if u.len() == 0 {
        0
    } else {
        let p = u.drop_last();
        if !distinct_keys(p) {
            first_dup_idx(p)
        } else if alist_has(p, u.last().0) {
            u.len() - 1
        } else {
            u.len() as int
        }
    }
}

/// The first duplicate is pinned: `j` is it when everything before `j` is
/// distinct and `j`'s name already occurs.
pub proof fn lemma_first_dup_at(u: Seq<(Seq<char>, Seq<char>)>, j: int)
    requires
        0 <= j < u.len(),
        distinct_keys(u.take(j)),
        alist_has(u.take(j), u[j].0),
    ensures
        first_dup_idx(u) == j,
    decreases u.len(),
{
    let p = u.drop_last();
    assert(forall|i: int| 0 <= i < p.len() ==> #[trigger] p[i] == u[i]);
    if j == u.len() - 1 {
        assert(u.take(j) =~= p);
        lemma_alist_idx(p, u.last().0);
    } else {
        lemma_alist_idx(u.take(j), u[j].0);
        let i = alist_idx(u.take(j), u[j].0);
        assert(u.take(j)[i] == u[i]);
        assert(p[i].0 == p[j].0);
        assert(!distinct_keys(p));
        assert(u.take(j) =~= p.take(j));
        lemma_first_dup_at(p, j);
    }
}

/// Inverts the override table, which maps target variable names to secret
/// names, into a secret-to-target table. Fails when two override entries
/// name the same secret; the error names that secret and both targets, for
/// the first such pair in table order.
pub fn build_reverse_map(map: &Vec<(String, String)>) -> (r: Result<
    Vec<(String, String)>,
    ConflictError,
>)
    ensures
        ({
            let rv = swapped(pairs_view(map@));
            match r {
                Ok(rev) => distinct_keys(rv) && pairs_view(rev@) == rv,
                Err(e) => {
                    let j = first_dup_idx(rv);
                    let i = alist_idx(rv.take(j), rv[j].0);
                    &&& !distinct_keys(rv)
                    &&& 0 <= i < j < rv.len()
                    &&& e matches ConflictError::DuplicateSecret {
                        secret: s,
                        first_key: fk,
                        second_key: sk,
                    } && s@ == map[j].1@ && fk@ == map[i].0@ && sk@ == map[j].0@
                },
            }
        }),
{
    let ghost rv = swapped(pairs_view(map@));
    let mut rev: Vec<(String, String)> = Vec::new();
    let n = map.len();
    let mut j: usize = 0;
    while j < n
        invariant
            0 <= j <= n == map@.len(),
            rv == swapped(pairs_view(map@)),
            pairs_view(rev@) =~= rv.take(j as int),
            distinct_keys(rv.take(j as int)),
        decreases n - j,
    {
        let secret = map[j].1.clone();
        let key = map[j].0.clone();
        proof {
            assert(rv[j as int] == (map@[j as int].1@, map@[j as int].0@));
        }
        match find_pair(&rev, &secret) {
            Some(i) => {
                proof {
                    lemma_alist_idx(rv.take(j as int), secret@);
                    assert(rv.take(j as int)[i as int] == rv[i as int]);
                    assert(rv.take(j + 1)[i as int] == rv[i as int]);
                    assert(rv.take(j + 1)[j as int] == rv[j as int]);
                    assert(rv[i as int] == (map@[i as int].1@, map@[i as int].0@));
                    assert(rv.take(j as int)[i as int].0 == rv[j as int].0);
                    assert(!distinct_keys(rv.take(j + 1)));
                    assert(rv.take(j + 1).take(j as int) =~= rv.take(j as int));
                    lemma_first_dup_at(rv, j as int);
                    assert(rev@[i as int].1@ == rv.take(j as int)[i as int].1);
                }
                return Err(ConflictError::DuplicateSecret {
                    secret,
                    first_key: rev[i].1.clone(),
                    second_key: key,
                });
            },
            None => {
                rev.push((secret, key));
                proof {
                    lemma_alist_idx(rv.take(j as int), map@[j as int].1@);
                    assert(pairs_view(rev@) =~= rv.take(j + 1));
                    assert forall|a: int, b: int| 0 <= a < b < j + 1 implies (#[trigger] rv.take(
                        j + 1,
                    )[a]).0 != (#[trigger] rv.take(j + 1)[b]).0 by {
                        if b < j {
                            assert(rv.take(j as int)[a].0 != rv.take(j as int)[b].0);
                        } else {
                            assert(rv.take(j as int)[a] == rv.take(j + 1)[a]);
                        }
                    }
                }
            },
        }
        j = j + 1;
    }
    proof {
        assert(rv.take(n as int) =~= rv);
    }
    Ok(rev)
}

/// Checks that no two secrets resolved to the same target variable name.
/// The pairs are (secret name, target name); the error names the target and
/// both secrets, for the first duplicate in list order.
pub fn validate_no_duplicate_env_keys(pairs: &Vec<(String, String)>) -> (r: Result<
    (),
    ConflictError,
>)
    ensures
        ({
            let sv = swapped(pairs_view(pairs@));
            match r {
                Ok(_) => distinct_keys(sv),
                Err(e) => {
                    let j = first_dup_idx(sv);
                    let i = alist_idx(sv.take(j), sv[j].0);
                    &&& !distinct_keys(sv)
                    &&& 0 <= i < j < sv.len()
                    &&& e matches ConflictError::DuplicateEnvKey {
                        env_key: k,
                        first_secret: fs,
                        second_secret: ss,
                    } && k@ == pairs[j].1@ && fs@ == pairs[i].0@ && ss@ == pairs[j].0@
                },
            }
        }),
{
    let ghost sv = swapped(pairs_view(pairs@));
    let mut seen: Vec<(String, String)> = Vec::new();
    let n = pairs.len();
    let mut j: usize = 0;
    while j < n
        invariant
            0 <= j <= n == pairs@.len(),
            sv == swapped(pairs_view(pairs@)),
            pairs_view(seen@) =~= sv.take(j as int),
            distinct_keys(sv.take(j as int)),
        decreases n - j,
    {
        let env_key = pairs[j].1.clone();
        let secret = pairs[j].0.clone();
        proof {
            assert(sv[j as int] == (pairs@[j as int].1@, pairs@[j as int].0@));
        }
        match find_pair(&seen, &env_key) {
            Some(i) => {
                proof {
                    lemma_alist_idx(sv.take(j as int), env_key@);
                    assert(sv.take(j as int)[i as int] == sv[i as int]);
                    assert(sv.take(j + 1)[i as int] == sv[i as int]);
                    assert(sv.take(j + 1)[j as int] == sv[j as int]);
                    assert(sv[i as int] == (pairs@[i as int].1@, pairs@[i as int].0@));
                    assert(sv.take(j as int)[i as int].0 == sv[j as int].0);
                    assert(!distinct_keys(sv.take(j + 1)));
                    assert(sv.take(j + 1).take(j as int) =~= sv.take(j as int));
                    lemma_first_dup_at(sv, j as int);
                    assert(seen@[i as int].1@ == sv.take(j as int)[i as int].1);
                }
                return Err(ConflictError::DuplicateEnvKey {
                    env_key,
                    first_secret: seen[i].1.clone(),
                    second_secret: secret,
                });
            },
            None => {
                seen.push((env_key, secret));
                proof {
                    lemma_alist_idx(sv.take(j as int), pairs@[j as int].1@);
                    assert(pairs_view(seen@) =~= sv.take(j + 1));
                    assert forall|a: int, b: int| 0 <= a < b < j + 1 implies (#[trigger] sv.take(
                        j + 1,
                    )[a]).0 != (#[trigger] sv.take(j + 1)[b]).0 by {
                        if b < j {
                            assert(sv.take(j as int)[a].0 != sv.take(j as int)[b].0);
                        } else {
                            assert(sv.take(j as int)[a] == sv.take(j + 1)[a]);
                        }
                    }
                }
            },
        }
        j = j + 1;
    }
    proof {
        assert(sv.take(n as int) =~= sv);
    }
    Ok(())
}

/// The target name a secret resolves to: its override when the inverted
/// table names it, the derived name otherwise.
pub open spec fn assigned_key(rev: Seq<(Seq<char>, Seq<char>)>, name: Seq<char>) -> Seq<char> {
    if alist_has(rev, name) {
        alist_get(rev, name)
    } else {
        env_key_of(name)
    }
}

/// The full target mapping of a secret listing against an inverted override
/// table, one (secret, target) pair per listed secret, in listing order.
pub open spec fn target_mapping(
    descs: Seq<Seq<char>>,
    rev: Seq<(Seq<char>, Seq<char>)>,
) -> Seq<(Seq<char>, Seq<char>)> {
    descs.map_values(|n: Seq<char>| (n, assigned_key(rev, n)))
}

/// The names of the listed secrets.
pub open spec fn descs_view(metas: Seq<SecretMeta>) -> Seq<Seq<char>> {
    metas.map_values(|m: SecretMeta| m.name@)
}

/// Resolves every listed secret to a target variable name: the override
/// table is inverted (failing on a doubly-named secret), each secret takes
/// its override or its derived name, and the final list must have pairwise
/// distinct targets.
pub fn resolve(descriptors: &Vec<SecretMeta>, overrides: &Vec<(String, String)>) -> (r: Result<
    Vec<(String, String)>,
    ConflictError,
>)
    ensures
        ({
            let rv = swapped(pairs_view(overrides@));
            let tm = target_mapping(descs_view(descriptors@), rv);
            match r {
                Ok(mapping) => {
                    &&& distinct_keys(rv)
                    &&& pairs_view(mapping@) == tm
                    &&& distinct_keys(swapped(tm))
                },
                Err(e) => {
                    let sv = swapped(tm);
                    &&& !(distinct_keys(rv) && distinct_keys(sv))
                    &&& (e matches ConflictError::DuplicateSecret {
                        secret: s,
                        first_key: fk,
                        second_key: sk,
                    } ==> {
                        let j = first_dup_idx(rv);
                        let i = alist_idx(rv.take(j), rv[j].0);
                        &&& !distinct_keys(rv)
                        &&& 0 <= i < j < rv.len()
                        &&& s@ == overrides[j].1@
                        &&& fk@ == overrides[i].0@
                        &&& sk@ == overrides[j].0@
                    })
                    &&& (e matches ConflictError::DuplicateEnvKey {
                        env_key: k,
                        first_secret: fs,
                        second_secret: ss,
                    } ==> {
                        let j = first_dup_idx(sv);
                        let i = alist_idx(sv.take(j), sv[j].0);
                        &&& distinct_keys(rv)
                        &&& !distinct_keys(sv)
                        &&& 0 <= i < j < sv.len()
                        &&& k@ == tm[j].1
                        &&& fs@ == tm[i].0
                        &&& ss@ == tm[j].0
                    })
                },
            }
        }),
{
    let rev = match build_reverse_map(overrides) {
        Ok(rev) => rev,
        Err(e) => {
            return Err(e);
        },
    };
    let ghost rv = swapped(pairs_view(overrides@));
    let ghost ds = descs_view(descriptors@);

    let mut mapping: Vec<(String, String)> = Vec::new();
    let n = descriptors.len();
    let mut i: usize = 0;
    while i < n
        invariant
            0 <= i <= n == descriptors@.len(),
            ds == descs_view(descriptors@),
            pairs_view(rev@) == rv,
            mapping@.len() == i,
            pairs_view(mapping@) =~= target_mapping(ds, rv).take(i as int),
        decreases n - i,
    {
        let name = descriptors[i].name.clone();
        let env_key = match find_pair(&rev, &name) {
            Some(k) => rev[k].1.clone(),
            None => to_env_key(name.as_str()),
        };
        proof {
            assert(name@ == ds[i as int]);
            assert(env_key@ == assigned_key(rv, ds[i as int]));
        }
        mapping.push((name, env_key));
        proof {
            assert(pairs_view(mapping@)[i as int] == target_mapping(ds, rv)[i as int]);
            assert(pairs_view(mapping@) =~= target_mapping(ds, rv).take(i + 1));
        }
        i = i + 1;
    }
    proof {
        assert(target_mapping(ds, rv).take(n as int) =~= target_mapping(ds, rv));
    }
    match validate_no_duplicate_env_keys(&mapping) {
        Ok(_) => Ok(mapping),
        Err(e) => {
            proof {
                let tm = target_mapping(ds, rv);
                let sv = swapped(tm);
                let j = first_dup_idx(sv);
                let i = alist_idx(sv.take(j), sv[j].0);
                assert(tm == pairs_view(mapping@));
                assert(tm[j].1 == mapping@[j].1@);
                assert(tm[i].0 == mapping@[i].0@);
            }
            Err(e)
        },
    }
}

/// The mask shown in place of every secret value.
pub open spec fn mask_text() -> Seq<char> {
    seq!['=', '*', '*', '*', '*', '*', '*', '*', '*']
}

/// The redacted report line of one change record.
pub open spec fn dry_run_line_of(key: Seq<char>, kind: ChangeKind) -> Seq<char> {
    (if kind is Add {
        seq!['A', 'D', 'D', ' ']
    } else {
        seq!['U', 'P', 'D', 'A', 'T', 'E', ' ']
    }) + key + mask_text()
}

/// Renders change records for a dry run. Each line holds the change kind,
/// the target name and a fixed mask — and nothing else, so no secret value
/// can reach the report: the output is a function of the records alone, and
/// records never carry values.
pub fn dry_run_lines(changes: &Vec<Change>) -> (r: Vec<String>)
    ensures
        r@.len() == changes@.len(),
        forall|i: int| 0 <= i < changes@.len() ==> r@[i]@ == dry_run_line_of(
            changes@[i].key@,
            changes@[i].kind,
        ),
{
    let mut out: Vec<String> = Vec::new();
    let n = changes.len();
    let mut i: usize = 0;
    while i < n
        invariant
            0 <= i <= n == changes@.len(),
            out@.len() == i,
            forall|j: int| 0 <= j < i ==> out@[j]@ == dry_run_line_of(
                changes@[j].key@,
                changes@[j].kind,
            ),
        decreases n - i,
    {
        let mut line = match changes[i].kind {
            ChangeKind::Add => String::from_str("ADD "),
            ChangeKind::Update => String::from_str("UPDATE "),
        };
        line.append(changes[i].key.as_str());
        line.append("=********");
        proof {
            reveal_strlit("ADD ");
            reveal_strlit("UPDATE ");
            reveal_strlit("=********");
            assert("ADD "@ =~= seq!['A', 'D', 'D', ' ']);
            assert("UPDATE "@ =~= seq!['U', 'P', 'D', 'A', 'T', 'E', ' ']);
            assert("=********"@ =~= mask_text());
            assert(line@ =~= dry_run_line_of(changes@[i as int].key@, changes@[i as int].kind));
        }
        out.push(line);
        i = i + 1;
    }
    out
}

} // verus!
