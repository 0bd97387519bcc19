//! Sorted string sets and string-keyed maps held in vectors: the ordered
//! collections the persisted metadata is made of. Keys are kept strictly
//! increasing in code-point order, the iteration order of a `BTreeSet` or
//! `BTreeMap` keyed by `String`.

use vstd::prelude::*;
use crate::text::{
    chars_eq, chars_of, lemma_lex_irreflexive, lemma_lex_total, lemma_lex_transitive, lex_less,
    lex_lt, str_views,
};

verus! {

/// Strictly increasing in code-point order.
pub open spec fn strictly_sorted(s: Seq<Seq<char>>) -> bool {
    forall|i: int, j: int| 0 <= i < j < s.len() ==> lex_lt(#[trigger] s[i], #[trigger] s[j])
}

/// The keys of a string-keyed association list, as text.
pub open spec fn keys_of<V>(m: Seq<(String, V)>) -> Seq<Seq<char>> {
    m.map_values(|e: (String, V)| e.0@)
}

/// The first index, from `i` on, holding `k`.
pub open spec fn index_of_key(s: Seq<Seq<char>>, k: Seq<char>, i: int) -> Option<int>
    decreases s.len() - i,
{
    if i < 0 || i >= s.len() {
        None
    } else if s[i] == k {
        Some(i)
    } else {
        index_of_key(s, k, i + 1)
    }
}

/// Where `k` goes in a sorted sequence: the number of leading entries below it.
pub open spec fn insert_pos(s: Seq<Seq<char>>, k: Seq<char>) -> int
    decreases s.len(),
{
    if s.len() == 0 {
        0
    } else if lex_lt(s[0], k) {
        1 + insert_pos(s.drop_first(), k)
    } else {
        0
    }
}

/// The map with `k` bound to `v`: the entry replaced in place when present,
/// otherwise inserted where it keeps the keys sorted.
pub open spec fn with_entry<V>(m: Seq<(String, V)>, k: String, v: V) -> Seq<(String, V)> {
    match index_of_key(keys_of(m), k@, 0) {
        Some(i) => m.update(i, (k, v)),
        None => m.insert(insert_pos(keys_of(m), k@), (k, v)),
    }
}

/// The map without an entry for `k`.
pub open spec fn without_entry<V>(m: Seq<(String, V)>, k: Seq<char>) -> Seq<(String, V)> {
    match index_of_key(keys_of(m), k, 0) {
        Some(i) => m.remove(i),
        None => m,
    }
}

/// The value bound to `k`.
pub open spec fn lookup<V>(m: Seq<(String, V)>, k: Seq<char>) -> Option<V> {
    match index_of_key(keys_of(m), k, 0) {
        Some(i) => Some(m[i].1),
        None => None,
    }
}

/// The set with `x` added where it keeps the members sorted.
pub open spec fn with_member(s: Seq<String>, x: String) -> Seq<String> {
    match index_of_key(str_views(s), x@, 0) {
        Some(_) => s,
        None => s.insert(insert_pos(str_views(s), x@), x),
    }
}

/// The set without `x`.
pub open spec fn without_member(s: Seq<String>, x: Seq<char>) -> Seq<String> {
    match index_of_key(str_views(s), x, 0) {
        Some(i) => s.remove(i),
        None => s,
    }
}

// ---------------------------------------------------------------------------
// Lemmas
// ---------------------------------------------------------------------------

/// `index_of_key` finds the first index holding `k`, and nothing when none does.
pub proof fn lemma_index_of_key(s: Seq<Seq<char>>, k: Seq<char>, i: int)
    requires
        0 <= i,
    ensures
        index_of_key(s, k, i) matches Some(j) ==> i <= j < s.len() && s[j] == k && forall|m: int|
            i <= m < j ==> s[m] != k,
        index_of_key(s, k, i) is None ==> forall|m: int| i <= m < s.len() ==> s[m] != k,
    decreases s.len() - i,
{
    if i < s.len() && s[i] != k {
        lemma_index_of_key(s, k, i + 1);
    }
}

/// In a strictly sorted sequence, `k` is found exactly where it sits.
pub proof fn lemma_index_of_sorted(s: Seq<Seq<char>>, j: int)
    requires
        strictly_sorted(s),
        0 <= j < s.len(),
    ensures
        index_of_key(s, s[j], 0) == Some(j),
{
    lemma_index_of_key(s, s[j], 0);
    match index_of_key(s, s[j], 0) {
        Some(m) => {
            if m < j {
                lemma_lex_irreflexive(s[j]);
                assert(lex_lt(s[m], s[j]));
            }
        },
        None => {},
    }
}

/// `insert_pos` splits a sorted sequence into the part below `k` and the rest.
pub proof fn lemma_insert_pos(s: Seq<Seq<char>>, k: Seq<char>)
    requires
        strictly_sorted(s),
    ensures
        0 <= insert_pos(s, k) <= s.len(),
        forall|m: int| 0 <= m < insert_pos(s, k) ==> lex_lt(#[trigger] s[m], k),
        forall|m: int| insert_pos(s, k) <= m < s.len() ==> !lex_lt(#[trigger] s[m], k),
    decreases s.len(),
{
    if s.len() > 0 {
        let t = s.drop_first();
        assert(strictly_sorted(t)) by {
            assert forall|i: int, j: int| 0 <= i < j < t.len() implies lex_lt(
                #[trigger] t[i],
                #[trigger] t[j],
            ) by {
                assert(t[i] == s[i + 1] && t[j] == s[j + 1]);
            }
        }
        lemma_insert_pos(t, k);
        if lex_lt(s[0], k) {
            assert forall|m: int| 0 <= m < insert_pos(s, k) implies lex_lt(#[trigger] s[m], k) by {
                if m > 0 {
                    assert(s[m] == t[m - 1]);
                }
            }
            assert forall|m: int| insert_pos(s, k) <= m < s.len() implies !lex_lt(
                #[trigger] s[m],
                k,
            ) by {
                assert(s[m] == t[m - 1]);
            }
        } else {
            assert forall|m: int| 0 <= m < s.len() implies !lex_lt(#[trigger] s[m], k) by {
                if m > 0 {
                    assert(lex_lt(s[0], s[m]));
                    if lex_lt(s[m], k) {
                        lemma_lex_transitive(s[0], s[m], k);
                    }
                }
            }
        }
    }
}

/// Inserting a key absent from a sorted sequence where `insert_pos` puts it
/// keeps the sequence sorted.
pub proof fn lemma_insert_sorted(s: Seq<Seq<char>>, k: Seq<char>)
    requires
        strictly_sorted(s),
        index_of_key(s, k, 0) is None,
    ensures
        strictly_sorted(s.insert(insert_pos(s, k), k)),
{
    lemma_insert_pos(s, k);
    lemma_index_of_key(s, k, 0);
    let p = insert_pos(s, k);
    let t = s.insert(p, k);
    assert forall|i: int, j: int| 0 <= i < j < t.len() implies lex_lt(#[trigger] t[i], #[trigger] t[j]) by {
        if j < p {
            assert(t[i] == s[i] && t[j] == s[j]);
        } else if j == p {
            assert(t[i] == s[i]);
        } else if i == p {
            assert(t[j] == s[j - 1]);
            lemma_lex_total(s[j - 1], k);
        } else if i < p {
            assert(t[i] == s[i] && t[j] == s[j - 1]);
        } else {
            assert(t[i] == s[i - 1] && t[j] == s[j - 1]);
        }
    }
}

/// Removing an entry keeps a sequence sorted.
pub proof fn lemma_remove_sorted(s: Seq<Seq<char>>, i: int)
    requires
        strictly_sorted(s),
        0 <= i < s.len(),
    ensures
        strictly_sorted(s.remove(i)),
{
    let t = s.remove(i);
    assert forall|a: int, b: int| 0 <= a < b < t.len() implies lex_lt(#[trigger] t[a], #[trigger] t[b]) by {
        let a2 = if a < i {
            a
        } else {
            a + 1
        };
        let b2 = if b < i {
            b
        } else {
            b + 1
        };
        assert(t[a] == s[a2] && t[b] == s[b2]);
    }
}

/// The keys after binding `k`.
pub proof fn lemma_with_entry_keys<V>(m: Seq<(String, V)>, k: String, v: V)
    requires
        strictly_sorted(keys_of(m)),
    ensures
        keys_of(with_entry(m, k, v)) == (match index_of_key(keys_of(m), k@, 0) {
            Some(i) => keys_of(m),
            None => keys_of(m).insert(insert_pos(keys_of(m), k@), k@),
        }),
        strictly_sorted(keys_of(with_entry(m, k, v))),
{
    lemma_index_of_key(keys_of(m), k@, 0);
    match index_of_key(keys_of(m), k@, 0) {
        Some(i) => {
            assert(keys_of(m.update(i, (k, v))) =~= keys_of(m));
        },
        None => {
            lemma_insert_pos(keys_of(m), k@);
            assert(keys_of(m.insert(insert_pos(keys_of(m), k@), (k, v))) =~= keys_of(m).insert(
                insert_pos(keys_of(m), k@),
                k@,
            ));
            lemma_insert_sorted(keys_of(m), k@);
        },
    }
}

/// The keys after removing `k`.
pub proof fn lemma_without_entry_keys<V>(m: Seq<(String, V)>, k: Seq<char>)
    requires
        strictly_sorted(keys_of(m)),
    ensures
        strictly_sorted(keys_of(without_entry(m, k))),
        index_of_key(keys_of(without_entry(m, k)), k, 0) is None,
{
    lemma_index_of_key(keys_of(m), k, 0);
    match index_of_key(keys_of(m), k, 0) {
        Some(i) => {
            assert(keys_of(m.remove(i)) =~= keys_of(m).remove(i));
            lemma_remove_sorted(keys_of(m), i);
            lemma_index_of_key(keys_of(m.remove(i)), k, 0);
            if let Some(j) = index_of_key(keys_of(m.remove(i)), k, 0) {
                let j2 = if j < i {
                    j
                } else {
                    j + 1
                };
                assert(keys_of(m)[j2] == k);
                if j2 < i {
                } else {
                    lemma_lex_irreflexive(k);
                    assert(lex_lt(keys_of(m)[i], keys_of(m)[j2]));
                }
            }
        },
        None => {},
    }
}

/// The members after adding `x`.
pub proof fn lemma_with_member_sorted(s: Seq<String>, x: String)
    requires
        strictly_sorted(str_views(s)),
    ensures
        strictly_sorted(str_views(with_member(s, x))),
        str_views(with_member(s, x)).contains(x@),
        forall|y: Seq<char>| #[trigger] str_views(with_member(s, x)).contains(y) <==> (y == x@
            || str_views(s).contains(y)),
{
    lemma_index_of_key(str_views(s), x@, 0);
    match index_of_key(str_views(s), x@, 0) {
        Some(i) => {
            assert(str_views(s)[i] == x@);
        },
        None => {
            let p = insert_pos(str_views(s), x@);
            lemma_insert_pos(str_views(s), x@);
            assert(str_views(s.insert(p, x)) =~= str_views(s).insert(p, x@));
            lemma_insert_sorted(str_views(s), x@);
            let t = str_views(s).insert(p, x@);
            assert(t[p] == x@);
            assert forall|y: Seq<char>| #[trigger] t.contains(y) <==> (y == x@ || str_views(
                s,
            ).contains(y)) by {
                if t.contains(y) {
                    let j = choose|j: int| 0 <= j < t.len() && t[j] == y;
                    if j < p {
                        assert(str_views(s)[j] == y);
                    } else if j > p {
                        assert(str_views(s)[j - 1] == y);
                    }
                }
                if str_views(s).contains(y) {
                    let j = choose|j: int| 0 <= j < str_views(s).len() && str_views(s)[j] == y;
                    if j < p {
                        assert(t[j] == y);
                    } else {
                        assert(t[j + 1] == y);
                    }
                }
            }
        },
    }
}

/// The members after removing `x`.
pub proof fn lemma_without_member_sorted(s: Seq<String>, x: Seq<char>)
    requires
        strictly_sorted(str_views(s)),
    ensures
        strictly_sorted(str_views(without_member(s, x))),
        forall|y: Seq<char>| #[trigger] str_views(without_member(s, x)).contains(y) <==> (y != x
            && str_views(s).contains(y)),
{
    lemma_index_of_key(str_views(s), x, 0);
    match index_of_key(str_views(s), x, 0) {
        Some(i) => {
            let t = str_views(s.remove(i));
            assert(t =~= str_views(s).remove(i));
            lemma_remove_sorted(str_views(s), i);
            assert forall|y: Seq<char>| #[trigger] t.contains(y) <==> (y != x && str_views(
                s,
            ).contains(y)) by {
                if t.contains(y) {
                    let j = choose|j: int| 0 <= j < t.len() && t[j] == y;
                    let j2 = if j < i {
                        j
                    } else {
                        j + 1
                    };
                    assert(str_views(s)[j2] == y);
                    if y == x {
                        lemma_lex_irreflexive(x);
                        if j2 < i {
                            assert(lex_lt(str_views(s)[j2], str_views(s)[i]));
                        } else {
                            assert(lex_lt(str_views(s)[i], str_views(s)[j2]));
                        }
                    }
                }
                if y != x && str_views(s).contains(y) {
                    let j = choose|j: int| 0 <= j < str_views(s).len() && str_views(s)[j] == y;
                    assert(j != i);
                    if j < i {
                        assert(t[j] == y);
                    } else {
                        assert(t[j - 1] == y);
                    }
                }
            }
        },
        None => {},
    }
}

/// Membership in a sequence is the same as `index_of_key` finding it.
pub proof fn lemma_index_of_contains(s: Seq<Seq<char>>, k: Seq<char>)
    ensures
        index_of_key(s, k, 0) is Some <==> s.contains(k),
{
    lemma_index_of_key(s, k, 0);
    if s.contains(k) {
        let j = choose|j: int| 0 <= j < s.len() && s[j] == k;
        assert(s[j] == k);
    }
    if let Some(j) = index_of_key(s, k, 0) {
        assert(s[j] == k);
    }
}

/// Looking up after binding `k`: `k` gives the new value, every other key
/// what it gave before.
pub proof fn lemma_lookup_with_entry<V>(m: Seq<(String, V)>, k: String, v: V, q: Seq<char>)
    requires
        strictly_sorted(keys_of(m)),
    ensures
        lookup(with_entry(m, k, v), q) == (if q == k@ {
            Some(v)
        } else {
            lookup(m, q)
        }),
{
    let ks = keys_of(m);
    lemma_with_entry_keys(m, k, v);
    let m2 = with_entry(m, k, v);
    let ks2 = keys_of(m2);
    lemma_index_of_key(ks, k@, 0);
    lemma_index_of_key(ks, q, 0);
    lemma_index_of_key(ks2, q, 0);
    match index_of_key(ks, k@, 0) {
        Some(i) => {
            assert(ks2 == ks);
            if let Some(j) = index_of_key(ks, q, 0) {
                if j != i {
                    assert(m2[j] == m[j]);
                }
            }
        },
        None => {
            let p = insert_pos(ks, k@);
            lemma_insert_pos(ks, k@);
            assert(ks2 == ks.insert(p, k@));
            assert(ks2[p] == k@);
            if q == k@ {
                lemma_index_of_sorted(ks2, p);
            } else {
                match index_of_key(ks, q, 0) {
                    Some(j) => {
                        let j2 = if j < p {
                            j
                        } else {
                            j + 1
                        };
                        assert(ks2[j2] == ks[j]);
                        lemma_index_of_sorted(ks2, j2);
                        assert(m2[j2] == m[j]);
                    },
                    None => {
                        if let Some(j2) = index_of_key(ks2, q, 0) {
                            if j2 < p {
                                assert(ks[j2] == q);
                            } else if j2 > p {
                                assert(ks[j2 - 1] == q);
                            }
                        }
                    },
                }
            }
        },
    }
}

/// Looking up after removing `k`: `k` gives nothing, every other key what
/// it gave before.
pub proof fn lemma_lookup_without_entry<V>(m: Seq<(String, V)>, k: Seq<char>, q: Seq<char>)
    requires
        strictly_sorted(keys_of(m)),
    ensures
        lookup(without_entry(m, k), q) == (if q == k {
            None
        } else {
            lookup(m, q)
        }),
{
    let ks = keys_of(m);
    lemma_without_entry_keys(m, k);
    let m2 = without_entry(m, k);
    let ks2 = keys_of(m2);
    lemma_index_of_key(ks, k, 0);
    lemma_index_of_key(ks, q, 0);
    lemma_index_of_key(ks2, q, 0);
    match index_of_key(ks, k, 0) {
        Some(i) => {
            assert(ks2 =~= ks.remove(i));
            if q != k {
                match index_of_key(ks, q, 0) {
                    Some(j) => {
                        let j2 = if j < i {
                            j
                        } else {
                            j - 1
                        };
                        assert(ks2[j2] == ks[j]);
                        lemma_remove_sorted(ks, i);
                        lemma_index_of_sorted(ks2, j2);
                        assert(m2[j2] == m[j]);
                    },
                    None => {
                        if let Some(j2) = index_of_key(ks2, q, 0) {
                            if j2 < i {
                                assert(ks[j2] == q);
                            } else {
                                assert(ks[j2 + 1] == q);
                            }
                        }
                    },
                }
            }
        },
        None => {},
    }
}

/// Every entry after binding is the new one or an old one.
pub proof fn lemma_with_entry_entries<V>(m: Seq<(String, V)>, k: String, v: V, i: int)
    requires
        0 <= i < with_entry(m, k, v).len(),
    ensures
        with_entry(m, k, v)[i] == (k, v) || exists|j: int| 0 <= j < m.len() && with_entry(m, k, v)[i] == m[j],
{
    lemma_index_of_key(keys_of(m), k@, 0);
    match index_of_key(keys_of(m), k@, 0) {
        Some(p) => {
            if i != p {
                assert(with_entry(m, k, v)[i] == m[i]);
            }
        },
        None => {
            let p = insert_pos(keys_of(m), k@);
            lemma_insert_pos_bound(keys_of(m), k@);
            if i < p {
                assert(with_entry(m, k, v)[i] == m[i]);
            } else if i > p {
                assert(with_entry(m, k, v)[i] == m[i - 1]);
            }
        },
    }
}

/// Every entry after removal is an old one.
pub proof fn lemma_without_entry_entries<V>(m: Seq<(String, V)>, k: Seq<char>, i: int)
    requires
        0 <= i < without_entry(m, k).len(),
    ensures
        exists|j: int| 0 <= j < m.len() && without_entry(m, k)[i] == m[j],
{
    lemma_index_of_key(keys_of(m), k, 0);
    match index_of_key(keys_of(m), k, 0) {
        Some(p) => {
            if i < p {
                assert(without_entry(m, k)[i] == m[i]);
            } else {
                assert(without_entry(m, k)[i] == m[i + 1]);
            }
        },
        None => {
            assert(without_entry(m, k)[i] == m[i]);
        },
    }
}

// ---------------------------------------------------------------------------
// Executable functions
// ---------------------------------------------------------------------------

/// The index of the entry for `k`.
pub fn find_key<V>(m: &Vec<(String, V)>, k: &[char]) -> (r: Option<usize>)
    ensures
        r matches Some(i) ==> index_of_key(keys_of(m@), k@, 0) == Some(i as int) && i < m.len(),
        r is None ==> index_of_key(keys_of(m@), k@, 0) is None,
{
    proof {
        lemma_index_of_key(keys_of(m@), k@, 0);
    }
    let mut i: usize = 0;
    while i < m.len()
        invariant
            i <= m.len(),
            index_of_key(keys_of(m@), k@, 0) == index_of_key(keys_of(m@), k@, i as int),
        decreases m.len() - i,
    {
        if chars_eq(chars_of(m[i].0.as_str()).as_slice(), k) {
            return Some(i);
        }
        i += 1;
    }
    None
}

/// The index of `x` among the members.
pub fn find_member(s: &Vec<String>, x: &[char]) -> (r: Option<usize>)
    ensures
        r matches Some(i) ==> index_of_key(str_views(s@), x@, 0) == Some(i as int) && i < s.len(),
        r is None ==> index_of_key(str_views(s@), x@, 0) is None,
{
    let mut i: usize = 0;
    while i < s.len()
        invariant
            i <= s.len(),
            index_of_key(str_views(s@), x@, 0) == index_of_key(str_views(s@), x@, i as int),
        decreases s.len() - i,
    {
        if chars_eq(chars_of(s[i].as_str()).as_slice(), x) {
            return Some(i);
        }
        i += 1;
    }
    None
}

/// Whether `x` is a member.
pub fn has_member(s: &Vec<String>, x: &[char]) -> (r: bool)
    ensures
        r == str_views(s@).contains(x@),
{
    proof {
        lemma_index_of_key(str_views(s@), x@, 0);
    }
    match find_member(s, x) {
        Some(i) => {
            assert(str_views(s@)[i as int] == x@);
            true
        },
        None => false,
    }
}

/// Where `k` goes among the keys.
fn insert_position<V>(m: &Vec<(String, V)>, k: &[char]) -> (r: usize)
    ensures
        r == insert_pos(keys_of(m@), k@),
{
    let mut i: usize = 0;
    assert(keys_of(m@).skip(0) =~= keys_of(m@));
    while i < m.len()
        invariant
            i <= m.len(),
            insert_pos(keys_of(m@), k@) == i + insert_pos(keys_of(m@).skip(i as int), k@),
            forall|j: int| 0 <= j < i ==> lex_lt(keys_of(m@)[j], k@),
        decreases m.len() - i,
    {
        let ghost rest = keys_of(m@).skip(i as int);
        assert(rest[0] == keys_of(m@)[i as int]);
        if !lex_less(chars_of(m[i].0.as_str()).as_slice(), k) {
            return i;
        }
        assert(rest.drop_first() =~= keys_of(m@).skip(i + 1));
        i += 1;
    }
    assert(keys_of(m@).skip(i as int).len() == 0);
    i
}

/// Where `x` goes among the members.
fn member_position(s: &Vec<String>, x: &[char]) -> (r: usize)
    ensures
        r == insert_pos(str_views(s@), x@),
{
    let mut i: usize = 0;
    assert(str_views(s@).skip(0) =~= str_views(s@));
    while i < s.len()
        invariant
            i <= s.len(),
            insert_pos(str_views(s@), x@) == i + insert_pos(str_views(s@).skip(i as int), x@),
        decreases s.len() - i,
    {
        let ghost rest = str_views(s@).skip(i as int);
        assert(rest[0] == str_views(s@)[i as int]);
        if !lex_less(chars_of(s[i].as_str()).as_slice(), x) {
            return i;
        }
        assert(rest.drop_first() =~= str_views(s@).skip(i + 1));
        i += 1;
    }
    assert(str_views(s@).skip(i as int).len() == 0);
    i
}

/// Bind `k` to `v`.
pub fn put_entry<V>(m: &mut Vec<(String, V)>, k: String, v: V)
    ensures
        final(m)@ == with_entry(old(m)@, k, v),
{
    let kc = chars_of(k.as_str());
    match find_key(m, kc.as_slice()) {
        Some(i) => {
            m.set(i, (k, v));
        },
        None => {
            let p = insert_position(m, kc.as_slice());
            proof {
                lemma_insert_pos_bound(keys_of(old(m)@), k@);
            }
            m.insert(p, (k, v));
        },
    }
}

/// Remove the entry for `k`; returns whether there was one.
pub fn drop_entry<V>(m: &mut Vec<(String, V)>, k: &[char]) -> (r: bool)
    ensures
        final(m)@ == without_entry(old(m)@, k@),
        r == (index_of_key(keys_of(old(m)@), k@, 0) is Some),
{
    match find_key(m, k) {
        Some(i) => {
            m.remove(i);
            true
        },
        None => false,
    }
}

/// Add `x`; returns whether it was new.
pub fn add_member(s: &mut Vec<String>, x: String) -> (r: bool)
    ensures
        final(s)@ == with_member(old(s)@, x),
        r == (index_of_key(str_views(old(s)@), x@, 0) is None),
{
    let xc = chars_of(x.as_str());
    match find_member(s, xc.as_slice()) {
        Some(_) => false,
        None => {
            let p = member_position(s, xc.as_slice());
            proof {
                lemma_insert_pos_bound(str_views(old(s)@), x@);
            }
            s.insert(p, x);
            true
        },
    }
}

/// Remove `x`; returns whether it was a member.
pub fn drop_member(s: &mut Vec<String>, x: &[char]) -> (r: bool)
    ensures
        final(s)@ == without_member(old(s)@, x@),
        r == (index_of_key(str_views(old(s)@), x@, 0) is Some),
{
    match find_member(s, x) {
        Some(i) => {
            s.remove(i);
            true
        },
        None => false,
    }
}

/// `insert_pos` lies within the sequence.
pub proof fn lemma_insert_pos_bound(s: Seq<Seq<char>>, k: Seq<char>)
    ensures
        0 <= insert_pos(s, k) <= s.len(),
    decreases s.len(),
{
    if s.len() > 0 && lex_lt(s[0], k) {
        lemma_insert_pos_bound(s.drop_first(), k);
    }
}

/// Insert `x` into a sorted set; returns whether it was new.
pub fn insert_member(s: &mut Vec<String>, x: &str) -> (r: bool)
    requires
        strictly_sorted(str_views(old(s)@)),
    ensures
        strictly_sorted(str_views(final(s)@)),
        forall|y: Seq<char>| #[trigger] str_views(final(s)@).contains(y) <==> (y == x@ || str_views(old(s)@).contains(y)),
        r == !str_views(old(s)@).contains(x@),
{
    let xs = crate::text::string_from(chars_of(x).as_slice());
    proof {
        lemma_with_member_sorted(s@, xs);
        lemma_index_of_contains(str_views(s@), x@);
    }
    add_member(s, xs)
}

/// Remove `x` from a sorted set; returns whether it was a member.
pub fn remove_member(s: &mut Vec<String>, x: &str) -> (r: bool)
    requires
        strictly_sorted(str_views(old(s)@)),
    ensures
        strictly_sorted(str_views(final(s)@)),
        forall|y: Seq<char>| #[trigger] str_views(final(s)@).contains(y) <==> (y != x@ && str_views(old(s)@).contains(y)),
        r == str_views(old(s)@).contains(x@),
{
    let xc = chars_of(x);
    proof {
        lemma_without_member_sorted(s@, x@);
        lemma_index_of_contains(str_views(s@), x@);
    }
    drop_member(s, xc.as_slice())
}

/// Bind `k` to `v` in a sorted map.
pub fn bind<V>(m: &mut Vec<(String, V)>, k: &str, v: V)
    requires
        strictly_sorted(keys_of(old(m)@)),
    ensures
        strictly_sorted(keys_of(final(m)@)),
        lookup(final(m)@, k@) == Some(v),
        forall|q: Seq<char>| q != k@ ==> #[trigger] lookup(final(m)@, q) == lookup(old(m)@, q),
        forall|i: int|
            0 <= i < final(m)@.len() ==> (#[trigger] final(m)@[i]).1 == v || exists|j: int|
                0 <= j < old(m)@.len() && final(m)@[i] == old(m)@[j],
{
    let ks = crate::text::string_from(chars_of(k).as_slice());
    proof {
        lemma_with_entry_keys(m@, ks, v);
        lemma_lookup_with_entry(m@, ks, v, k@);
        assert forall|q: Seq<char>| q != k@ implies #[trigger] lookup(with_entry(m@, ks, v), q) == lookup(
            m@,
            q,
        ) by {
            lemma_lookup_with_entry(m@, ks, v, q);
        }
        assert forall|i: int| 0 <= i < with_entry(m@, ks, v).len() implies (#[trigger] with_entry(
            m@,
            ks,
            v,
        )[i]).1 == v || exists|j: int| 0 <= j < m@.len() && with_entry(m@, ks, v)[i] == m@[j] by {
            lemma_with_entry_entries(m@, ks, v, i);
        }
    }
    put_entry(m, ks, v);
}

/// Remove the binding of `k` from a sorted map; returns whether there was one.
pub fn unbind<V>(m: &mut Vec<(String, V)>, k: &str) -> (r: bool)
    requires
        strictly_sorted(keys_of(old(m)@)),
    ensures
        strictly_sorted(keys_of(final(m)@)),
        lookup(final(m)@, k@) is None,
        forall|q: Seq<char>| q != k@ ==> #[trigger] lookup(final(m)@, q) == lookup(old(m)@, q),
        r == (lookup(old(m)@, k@) is Some),
        forall|i: int|
            0 <= i < final(m)@.len() ==> exists|j: int|
                0 <= j < old(m)@.len() && #[trigger] final(m)@[i] == old(m)@[j],
{
    let kc = chars_of(k);
    proof {
        lemma_without_entry_keys(m@, k@);
        lemma_lookup_without_entry(m@, k@, k@);
        assert forall|q: Seq<char>| q != k@ implies #[trigger] lookup(without_entry(m@, k@), q) == lookup(
            m@,
            q,
        ) by {
            lemma_lookup_without_entry(m@, k@, q);
        }
        assert forall|i: int| 0 <= i < without_entry(m@, k@).len() implies exists|j: int|
            0 <= j < m@.len() && #[trigger] without_entry(m@, k@)[i] == m@[j] by {
            lemma_without_entry_entries(m@, k@, i);
        }
    }
    drop_entry(m, kc.as_slice())
}

/// The value bound to `k`.
pub fn get_entry<'a, V>(m: &'a Vec<(String, V)>, k: &str) -> (r: Option<&'a V>)
    ensures
        match lookup(m@, k@) {
            Some(v) => r == Some(&v),
            None => r is None,
        },
{
    match find_key(m, chars_of(k).as_slice()) {
        Some(i) => Some(&m[i].1),
        None => None,
    }
}

} // verus!
