//! Character-sequence utilities shared by the rest of the library: the
//! separator splitting and joining behind `FileRef` strings, prefix and
//! suffix tests, backslash normalisation, lexicographic order and decimal
//! rendering. Every executable function is tied to a spec function over
//! `Seq<char>`.

use vstd::prelude::*;
use vstd::string::*;

verus! {

// ---------------------------------------------------------------------------
// Specifications
// ---------------------------------------------------------------------------

/// A backslash becomes a forward slash; every other character is kept.
pub open spec fn slash_char(c: char) -> char {
    if c == '\\' {
        '/'
    } else {
        c
    }
}

/// The string with every backslash replaced by a forward slash.
pub open spec fn slashes(s: Seq<char>) -> Seq<char> {
    s.map_values(|c: char| slash_char(c))
}

/// `p` is a prefix of `s`.
pub open spec fn is_prefix(p: Seq<char>, s: Seq<char>) -> bool {
    p.len() <= s.len() && s.subrange(0, p.len() as int) == p
}

/// `p` is a suffix of `s`.
pub open spec fn is_suffix(p: Seq<char>, s: Seq<char>) -> bool {
    p.len() <= s.len() && s.subrange(s.len() - p.len(), s.len() as int) == p
}

/// `sep` occurs in `s` starting at index `i`.
pub open spec fn occurs_at(s: Seq<char>, sep: Seq<char>, i: int) -> bool {
    0 <= i && i + sep.len() <= s.len() && s.subrange(i, i + sep.len()) == sep
}

/// `sep` occurs somewhere in `s`.
pub open spec fn occurs_in(s: Seq<char>, sep: Seq<char>) -> bool {
    exists|i: int| occurs_at(s, sep, i)
}

/// The first index at or after `i` where `sep` occurs in `s`.
pub open spec fn find_from(s: Seq<char>, sep: Seq<char>, i: int) -> Option<int>
    decreases s.len() + 1 - i,
{
    if i < 0 || i + sep.len() > s.len() {
        None
    } else if occurs_at(s, sep, i) {
        Some(i)
    } else {
        find_from(s, sep, i + 1)
    }
}

/// The pieces of `s` from `start` on, cut at the leftmost non-overlapping
/// occurrences of `sep` (the behaviour of `str::split` with a string pattern).
pub open spec fn split_from(s: Seq<char>, sep: Seq<char>, start: int) -> Seq<Seq<char>>
    decreases s.len() - start,
{
    if sep.len() == 0 || start < 0 || start > s.len() {
        seq![s.subrange(start, s.len() as int)]
    } else {
        match find_from(s, sep, start) {
            None => seq![s.subrange(start, s.len() as int)],
            Some(i) => {
                proof {
                    lemma_find_from_bounds(s, sep, start);
                }
                seq![s.subrange(start, i)] + split_from(s, sep, i + sep.len())
            },
        }
    }
}

/// `str::split` of `s` on the non-empty separator `sep`.
pub open spec fn split(s: Seq<char>, sep: Seq<char>) -> Seq<Seq<char>> {
    split_from(s, sep, 0)
}

/// The pieces joined with `sep` between consecutive pieces (`[T]::join`).
pub open spec fn join(parts: Seq<Seq<char>>, sep: Seq<char>) -> Seq<char>
    decreases parts.len(),
{
    if parts.len() == 0 {
        Seq::empty()
    } else if parts.len() == 1 {
        parts[0]
    } else {
        parts[0] + sep + join(parts.drop_first(), sep)
    }
}

/// The views of a sequence of character vectors.
pub open spec fn views(v: Seq<Vec<char>>) -> Seq<Seq<char>> {
    v.map_values(|x: Vec<char>| x@)
}

/// The views of a sequence of strings.
pub open spec fn str_views(v: Seq<String>) -> Seq<Seq<char>> {
    v.map_values(|x: String| x@)
}

/// ASCII upper-case letters become lower case; everything else is kept
/// (`char::to_ascii_lowercase`).
pub open spec fn ascii_lower_char(c: char) -> char {
    if 'A' <= c && c <= 'Z' {
        ((c as u32) + 32) as char
    } else {
        c
    }
}

/// `str::to_ascii_lowercase`.
pub open spec fn ascii_lower(s: Seq<char>) -> Seq<char> {
    s.map_values(|c: char| ascii_lower_char(c))
}

/// Strict lexicographic order by code point, the order of `String`'s `Ord`.
pub open spec fn lex_lt(a: Seq<char>, b: Seq<char>) -> bool
    decreases a.len(),
{
    if b.len() == 0 {
        false
    } else if a.len() == 0 {
        true
    } else if a[0] != b[0] {
        a[0] < b[0]
    } else {
        lex_lt(a.drop_first(), b.drop_first())
    }
}

/// The decimal digit character for `d < 10`.
pub open spec fn digit_char(d: nat) -> char {
    ((d + 48) as u32) as char
}

/// Decimal rendering of a natural number, as `{}` formats it.
pub open spec fn decimal(n: nat) -> Seq<char>
    decreases n,
{
    if n < 10 {
        seq![digit_char(n)]
    } else {
        decimal(n / 10).push(digit_char(n % 10))
    }
}

/// Unicode `White_Space`, the set `char::is_whitespace` tests.
pub open spec fn is_white_space(c: char) -> bool {
    ||| ('\u{9}' <= c && c <= '\u{d}')
    ||| c == ' '
    ||| c == '\u{85}'
    ||| c == '\u{a0}'
    ||| c == '\u{1680}'
    ||| ('\u{2000}' <= c && c <= '\u{200a}')
    ||| c == '\u{2028}'
    ||| c == '\u{2029}'
    ||| c == '\u{202f}'
    ||| c == '\u{205f}'
    ||| c == '\u{3000}'
}

/// Every character of `s` is white space, i.e. `s.trim().is_empty()`.
pub open spec fn all_white_space(s: Seq<char>) -> bool {
    forall|i: int| 0 <= i < s.len() ==> is_white_space(#[trigger] s[i])
}

/// `s` without its leading white space.
pub open spec fn trim_front(s: Seq<char>) -> Seq<char>
    decreases s.len(),
{
    if s.len() > 0 && is_white_space(s[0]) {
        trim_front(s.drop_first())
    } else {
        s
    }
}

/// `s` without its trailing white space.
pub open spec fn trim_back(s: Seq<char>) -> Seq<char>
    decreases s.len(),
{
    if s.len() > 0 && is_white_space(s.last()) {
        trim_back(s.drop_last())
    } else {
        s
    }
}

/// `str::trim`: `s` without leading and trailing white space.
pub open spec fn trim(s: Seq<char>) -> Seq<char> {
    trim_back(trim_front(s))
}

// ---------------------------------------------------------------------------
// Lemmas
// ---------------------------------------------------------------------------

/// What `find_from` returns is an occurrence at or after the start, with
/// none in between.
pub proof fn lemma_find_from_bounds(s: Seq<char>, sep: Seq<char>, i: int)
    requires
        0 <= i,
    ensures
        find_from(s, sep, i) matches Some(j) ==> i <= j && occurs_at(s, sep, j) && forall|
            k: int,
        | i <= k < j ==> !occurs_at(s, sep, k),
        find_from(s, sep, i) is None ==> forall|k: int| i <= k ==> !occurs_at(s, sep, k),
    decreases s.len() + 1 - i,
{
    if i + sep.len() > s.len() {
    } else if occurs_at(s, sep, i) {
    } else {
        lemma_find_from_bounds(s, sep, i + 1);
    }
}

/// Joining the pieces of a split gives back the string split.
pub proof fn lemma_join_split_from(s: Seq<char>, sep: Seq<char>, start: int)
    requires
        sep.len() > 0,
        0 <= start <= s.len(),
    ensures
        split_from(s, sep, start).len() >= 1,
        join(split_from(s, sep, start), sep) == s.subrange(start, s.len() as int),
    decreases s.len() - start,
{
    lemma_find_from_bounds(s, sep, start);
    match find_from(s, sep, start) {
        None => {},
        Some(i) => {
            let rest = split_from(s, sep, i + sep.len());
            lemma_join_split_from(s, sep, i + sep.len());
            let parts = seq![s.subrange(start, i)] + rest;
            assert(parts.drop_first() =~= rest);
            assert(s.subrange(start, i) + sep + s.subrange(i + sep.len(), s.len() as int)
                =~= s.subrange(start, s.len() as int));
        },
    }
}

/// `join(split(s, sep), sep) == s`.
pub proof fn lemma_join_split(s: Seq<char>, sep: Seq<char>)
    requires
        sep.len() > 0,
    ensures
        split(s, sep).len() >= 1,
        join(split(s, sep), sep) == s,
{
    lemma_join_split_from(s, sep, 0);
    assert(s.subrange(0, s.len() as int) =~= s);
}

/// Appending one piece to a join.
pub proof fn lemma_join_push(parts: Seq<Seq<char>>, sep: Seq<char>, x: Seq<char>)
    ensures
        join(parts.push(x), sep) == (if parts.len() == 0 {
            x
        } else {
            join(parts, sep) + sep + x
        }),
    decreases parts.len(),
{
    let px = parts.push(x);
    if parts.len() == 0 {
        assert(px.len() == 1 && px[0] == x);
    } else if parts.len() == 1 {
        assert(px.drop_first() =~= seq![x]);
        assert(join(seq![x], sep) == x);
        assert(px[0] == parts[0]);
        assert(join(px, sep) == px[0] + sep + join(px.drop_first(), sep));
    } else {
        lemma_join_push(parts.drop_first(), sep, x);
        assert(px[0] == parts[0]);
        assert(join(px, sep) == px[0] + sep + join(px.drop_first(), sep));
        assert(parts.push(x).drop_first() =~= parts.drop_first().push(x));
        assert(parts[0] + sep + (join(parts.drop_first(), sep) + sep + x) =~= parts[0] + sep
            + join(parts.drop_first(), sep) + sep + x);
    }
}

/// `lex_lt` is irreflexive.
pub proof fn lemma_lex_irreflexive(a: Seq<char>)
    ensures
        !lex_lt(a, a),
    decreases a.len(),
{
    if a.len() > 0 {
        lemma_lex_irreflexive(a.drop_first());
    }
}

/// `lex_lt` is asymmetric.
pub proof fn lemma_lex_asymmetric(a: Seq<char>, b: Seq<char>)
    ensures
        lex_lt(a, b) ==> !lex_lt(b, a),
    decreases a.len(),
{
    if a.len() > 0 && b.len() > 0 && a[0] == b[0] {
        lemma_lex_asymmetric(a.drop_first(), b.drop_first());
    }
}

/// `lex_lt` is transitive.
pub proof fn lemma_lex_transitive(a: Seq<char>, b: Seq<char>, c: Seq<char>)
    requires
        lex_lt(a, b),
        lex_lt(b, c),
    ensures
        lex_lt(a, c),
    decreases a.len(),
{
    if a.len() > 0 && b.len() > 0 && c.len() > 0 && a[0] == b[0] && b[0] == c[0] {
        lemma_lex_transitive(a.drop_first(), b.drop_first(), c.drop_first());
    }
}

/// `lex_lt` is total on distinct sequences.
pub proof fn lemma_lex_total(a: Seq<char>, b: Seq<char>)
    ensures
        a != b ==> lex_lt(a, b) || lex_lt(b, a),
    decreases a.len(),
{
    if a.len() > 0 && b.len() > 0 && a[0] == b[0] {
        lemma_lex_total(a.drop_first(), b.drop_first());
        if a.drop_first() == b.drop_first() {
            assert(a =~= seq![a[0]] + a.drop_first());
            assert(b =~= seq![b[0]] + b.drop_first());
        }
    } else if a.len() == 0 && b.len() == 0 {
        assert(a =~= b);
    }
}

/// An occurrence at `j` with none in `i..j` is what `find_from` finds.
pub proof fn lemma_find_from_exact(s: Seq<char>, sep: Seq<char>, i: int, j: int)
    requires
        0 <= i <= j,
        occurs_at(s, sep, j),
        forall|k: int| i <= k < j ==> !occurs_at(s, sep, k),
    ensures
        find_from(s, sep, i) == Some(j),
    decreases j - i,
{
    if i < j {
        lemma_find_from_exact(s, sep, i + 1, j);
    }
}

/// With no occurrence at or after `i`, `find_from` finds nothing.
pub proof fn lemma_find_from_none(s: Seq<char>, sep: Seq<char>, i: int)
    requires
        0 <= i,
        forall|k: int| i <= k ==> !occurs_at(s, sep, k),
    ensures
        find_from(s, sep, i) is None,
    decreases s.len() + 1 - i,
{
    if i + sep.len() <= s.len() {
        lemma_find_from_none(s, sep, i + 1);
    }
}

/// Searching the tail `q` of `p + q` is searching `q`, shifted by `p.len()`.
pub proof fn lemma_find_from_shift(p: Seq<char>, q: Seq<char>, sep: Seq<char>, k: int)
    requires
        0 <= k,
    ensures
        find_from(p + q, sep, p.len() + k) == (match find_from(q, sep, k) {
            Some(j) => Some(j + p.len()),
            None => None,
        }),
    decreases q.len() + 1 - k,
{
    let x = p + q;
    if k + sep.len() <= q.len() {
        assert(x.subrange(p.len() + k, p.len() + k + sep.len()) =~= q.subrange(k, k + sep.len()));
        lemma_find_from_shift(p, q, sep, k + 1);
    }
}

/// Splitting the tail `q` of `p + q` is splitting `q`.
pub proof fn lemma_split_shift(p: Seq<char>, q: Seq<char>, sep: Seq<char>, k: int)
    requires
        sep.len() > 0,
        0 <= k <= q.len(),
    ensures
        split_from(p + q, sep, p.len() + k) == split_from(q, sep, k),
    decreases q.len() - k,
{
    let x = p + q;
    lemma_find_from_shift(p, q, sep, k);
    lemma_find_from_bounds(q, sep, k);
    match find_from(q, sep, k) {
        None => {
            assert(x.subrange(p.len() + k, x.len() as int) =~= q.subrange(k, q.len() as int));
        },
        Some(j) => {
            assert(x.subrange(p.len() + k, p.len() + j) =~= q.subrange(k, j));
            lemma_split_shift(p, q, sep, j + sep.len());
        },
    }
}

/// With no occurrence of `sep`, splitting yields the whole string.
pub proof fn lemma_split_none(s: Seq<char>, sep: Seq<char>)
    requires
        sep.len() > 0,
        !occurs_in(s, sep),
    ensures
        split(s, sep) == seq![s],
{
    lemma_find_from_none(s, sep, 0);
    assert(s.subrange(0, s.len() as int) =~= s);
}

/// Every character of `s` is kept by `slashes` when none is a backslash.
pub proof fn lemma_slashes_identity(s: Seq<char>)
    requires
        !s.contains('\\'),
    ensures
        slashes(s) == s,
{
    assert forall|k: int| 0 <= k < s.len() implies slashes(s)[k] == s[k] by {
        if s[k] == '\\' {
            assert(s.contains(s[k]));
        }
    }
    assert(slashes(s) =~= s);
}

// ---------------------------------------------------------------------------
// Executable functions
// ---------------------------------------------------------------------------

/// `String::push`: appends one character.
#[verifier::external_body]
fn push_char(s: &mut String, c: char)
    ensures
        final(s)@ == old(s)@.push(c),
{
    s.push(c);
}

/// The characters of a string slice.
pub fn chars_of(s: &str) -> (v: Vec<char>)
    ensures
        v@ == s@,
{
    let n = s.unicode_len();
    let mut v: Vec<char> = Vec::new();
    let mut i: usize = 0;
    while i < n
        invariant
            n == s@.len(),
            i <= n,
            v@ == s@.subrange(0, i as int),
        decreases n - i,
    {
        v.push(s.get_char(i));
        i += 1;
    }
    assert(v@ =~= s@);
    v
}

/// A string holding exactly the given characters.
pub fn string_from(v: &[char]) -> (s: String)
    ensures
        s@ == v@,
{
    let mut s = String::new();
    let mut i: usize = 0;
    while i < v.len()
        invariant
            i <= v.len(),
            s@ == v@.subrange(0, i as int),
        decreases v.len() - i,
    {
        push_char(&mut s, v[i]);
        i += 1;
        assert(s@ =~= v@.subrange(0, i as int));
    }
    assert(s@ =~= v@);
    s
}

/// The characters of `s` from index `from` up to `to`.
pub fn sub_chars(s: &[char], from: usize, to: usize) -> (r: Vec<char>)
    requires
        from <= to <= s.len(),
    ensures
        r@ == s@.subrange(from as int, to as int),
{
    let mut r: Vec<char> = Vec::new();
    let mut i = from;
    while i < to
        invariant
            from <= i <= to <= s.len(),
            r@ == s@.subrange(from as int, i as int),
        decreases to - i,
    {
        r.push(s[i]);
        i += 1;
        assert(r@ =~= s@.subrange(from as int, i as int));
    }
    r
}

/// `a` followed by `b`.
pub fn concat_chars(a: &[char], b: &[char]) -> (r: Vec<char>)
    ensures
        r@ == a@ + b@,
{
    let mut r = sub_chars(a, 0, a.len());
    let mut i: usize = 0;
    while i < b.len()
        invariant
            i <= b.len(),
            r@ == a@ + b@.subrange(0, i as int),
        decreases b.len() - i,
    {
        r.push(b[i]);
        i += 1;
        assert(r@ =~= a@ + b@.subrange(0, i as int));
    }
    assert(b@.subrange(0, b@.len() as int) =~= b@);
    r
}

/// Equality of two character sequences.
pub fn chars_eq(a: &[char], b: &[char]) -> (r: bool)
    ensures
        r == (a@ == b@),
{
    if a.len() != b.len() {
        return false;
    }
    let mut i: usize = 0;
    while i < a.len()
        invariant
            a.len() == b.len(),
            i <= a.len(),
            a@.subrange(0, i as int) == b@.subrange(0, i as int),
        decreases a.len() - i,
    {
        if a[i] != b[i] {
            assert(a@[i as int] != b@[i as int]);
            return false;
        }
        i += 1;
        assert(a@.subrange(0, i as int) =~= a@.subrange(0, i - 1 as int).push(a@[i - 1]));
        assert(b@.subrange(0, i as int) =~= b@.subrange(0, i - 1 as int).push(b@[i - 1]));
    }
    assert(a@ =~= a@.subrange(0, a.len() as int));
    assert(b@ =~= b@.subrange(0, b.len() as int));
    true
}

/// Whether `sep` occurs in `s` at index `i`.
pub fn occurs_at_exec(s: &[char], sep: &[char], i: usize) -> (r: bool)
    ensures
        r == occurs_at(s@, sep@, i as int),
{
    if sep.len() > s.len() || i > s.len() - sep.len() {
        return false;
    }
    let mut j: usize = 0;
    while j < sep.len()
        invariant
            i + sep.len() <= s.len(),
            j <= sep.len(),
            s@.subrange(i as int, i + j) == sep@.subrange(0, j as int),
        decreases sep.len() - j,
    {
        if s[i + j] != sep[j] {
            assert(s@.subrange(i as int, i + sep.len())[j as int] != sep@[j as int]);
            return false;
        }
        j += 1;
        assert(s@.subrange(i as int, i + j) =~= s@.subrange(i as int, i + j - 1).push(
            s@[i + j - 1],
        ));
        assert(sep@.subrange(0, j as int) =~= sep@.subrange(0, j - 1 as int).push(sep@[j - 1]));
    }
    assert(sep@.subrange(0, sep.len() as int) =~= sep@);
    true
}

/// `p` is a prefix of `s`.
pub fn starts_with(s: &[char], p: &[char]) -> (r: bool)
    ensures
        r == is_prefix(p@, s@),
{
    let r = occurs_at_exec(s, p, 0);
    assert(r == is_prefix(p@, s@));
    r
}

/// `p` is a suffix of `s`.
pub fn ends_with(s: &[char], p: &[char]) -> (r: bool)
    ensures
        r == is_suffix(p@, s@),
{
    if p.len() > s.len() {
        return false;
    }
    occurs_at_exec(s, p, s.len() - p.len())
}

/// The first occurrence of `sep` in `s` at or after `from`.
pub fn find_seq(s: &[char], sep: &[char], from: usize) -> (r: Option<usize>)
    ensures
        r matches Some(i) ==> find_from(s@, sep@, from as int) == Some(i as int),
        r is None ==> find_from(s@, sep@, from as int) is None,
{
    let mut i = from;
    while i <= s.len() && sep.len() <= s.len() - i
        invariant
            from <= i,
            find_from(s@, sep@, from as int) == find_from(s@, sep@, i as int),
        decreases s.len() + 1 - i,
    {
        proof {
            if sep.len() == 0 {
                assert(s@.subrange(i as int, i as int) =~= sep@);
            }
        }
        if occurs_at_exec(s, sep, i) {
            return Some(i);
        }
        i += 1;
    }
    None
}

/// `str::split` of `s` on the non-empty separator `sep`.
pub fn split_on(s: &[char], sep: &[char]) -> (r: Vec<Vec<char>>)
    requires
        sep.len() > 0,
    ensures
        views(r@) == split(s@, sep@),
{
    let mut out: Vec<Vec<char>> = Vec::new();
    let mut start: usize = 0;
    loop
        invariant
            sep.len() > 0,
            start <= s.len(),
            views(out@) + split_from(s@, sep@, start as int) == split(s@, sep@),
        decreases s.len() - start,
    {
        proof {
            lemma_find_from_bounds(s@, sep@, start as int);
        }
        match find_seq(s, sep, start) {
            None => {
                let piece = sub_chars(s, start, s.len());
                let ghost before = views(out@);
                out.push(piece);
                assert(views(out@) =~= before.push(piece@));
                assert(views(out@) =~= before + split_from(s@, sep@, start as int));
                return out;
            },
            Some(i) => {
                let piece = sub_chars(s, start, i);
                let ghost before = views(out@);
                out.push(piece);
                assert(views(out@) =~= before.push(piece@));
                assert(split_from(s@, sep@, start as int) == seq![piece@] + split_from(
                    s@,
                    sep@,
                    i + sep.len(),
                ));
                assert(before + split_from(s@, sep@, start as int) =~= views(out@) + split_from(
                    s@,
                    sep@,
                    i + sep.len(),
                ));
                start = i + sep.len();
            },
        }
    }
}

/// The pieces `parts[from..]` joined with `sep`.
pub fn join_from(parts: &Vec<Vec<char>>, from: usize, sep: &[char]) -> (r: Vec<char>)
    requires
        from <= parts.len(),
    ensures
        r@ == join(views(parts@).subrange(from as int, parts.len() as int), sep@),
{
    let mut r: Vec<char> = Vec::new();
    let mut i = from;
    while i < parts.len()
        invariant
            from <= i <= parts.len(),
            r@ == join(views(parts@).subrange(from as int, i as int), sep@),
        decreases parts.len() - i,
    {
        let ghost pre = views(parts@).subrange(from as int, i as int);
        proof {
            lemma_join_push(pre, sep@, parts@[i as int]@);
        }
        assert(views(parts@).subrange(from as int, i + 1) =~= pre.push(parts@[i as int]@));
        if i == from {
            r = sub_chars(parts[i].as_slice(), 0, parts[i].len());
            assert(r@ =~= parts@[i as int]@);
        } else {
            let with_sep = concat_chars(r.as_slice(), sep);
            r = concat_chars(with_sep.as_slice(), parts[i].as_slice());
        }
        i += 1;
    }
    r
}

/// Every backslash replaced by a forward slash.
pub fn replace_backslashes(s: &[char]) -> (r: Vec<char>)
    ensures
        r@ == slashes(s@),
{
    let mut r: Vec<char> = Vec::new();
    let mut i: usize = 0;
    while i < s.len()
        invariant
            i <= s.len(),
            r@ == slashes(s@.subrange(0, i as int)),
        decreases s.len() - i,
    {
        let c = s[i];
        r.push(if c == '\\' {
            '/'
        } else {
            c
        });
        i += 1;
        assert(slashes(s@.subrange(0, i as int)) =~= slashes(s@.subrange(0, i - 1 as int)).push(
            slash_char(s@[i - 1]),
        ));
    }
    assert(s@.subrange(0, s.len() as int) =~= s@);
    r
}

/// ASCII letters lowered (`str::to_ascii_lowercase`).
pub fn to_ascii_lower(s: &[char]) -> (r: Vec<char>)
    ensures
        r@ == ascii_lower(s@),
{
    let mut r: Vec<char> = Vec::new();
    let mut i: usize = 0;
    while i < s.len()
        invariant
            i <= s.len(),
            r@ == ascii_lower(s@.subrange(0, i as int)),
        decreases s.len() - i,
    {
        let c = s[i];
        let l = if 'A' <= c && c <= 'Z' {
            ((c as u8) + 32u8) as char
        } else {
            c
        };
        assert(l == ascii_lower_char(c));
        r.push(l);
        i += 1;
        assert(ascii_lower(s@.subrange(0, i as int)) =~= ascii_lower(s@.subrange(0, i - 1 as int)).push(
            ascii_lower_char(s@[i - 1]),
        ));
    }
    assert(s@.subrange(0, s.len() as int) =~= s@);
    r
}

/// Whether `a` sorts strictly before `b`.
pub fn lex_less(a: &[char], b: &[char]) -> (r: bool)
    ensures
        r == lex_lt(a@, b@),
{
    let mut i: usize = 0;
    assert(a@.skip(0) =~= a@ && b@.skip(0) =~= b@);
    while i < a.len() && i < b.len()
        invariant
            i <= a.len(),
            i <= b.len(),
            lex_lt(a@, b@) == lex_lt(a@.skip(i as int), b@.skip(i as int)),
        decreases a.len() - i,
    {
        if a[i] != b[i] {
            return a[i] < b[i];
        }
        assert(a@.skip(i as int).drop_first() =~= a@.skip(i + 1));
        assert(b@.skip(i as int).drop_first() =~= b@.skip(i + 1));
        i += 1;
    }
    a.len() < b.len()
}

/// The decimal digit character for `d < 10`.
pub fn digit(d: usize) -> (c: char)
    requires
        d < 10,
    ensures
        c == digit_char(d as nat),
{
    ((d as u8) + 48u8) as char
}

/// Decimal rendering of `n`.
pub fn decimal_chars(n: usize) -> (r: Vec<char>)
    ensures
        r@ == decimal(n as nat),
    decreases n,
{
    if n < 10 {
        let mut r: Vec<char> = Vec::new();
        r.push(digit(n));
        assert(r@ =~= seq![digit_char(n as nat)]);
        r
    } else {
        let mut r = decimal_chars(n / 10);
        r.push(digit(n % 10));
        r
    }
}

/// Whether `c` is white space (`char::is_whitespace`).
pub fn is_space(c: char) -> (r: bool)
    ensures
        r == is_white_space(c),
{
    ('\u{9}' <= c && c <= '\u{d}') || c == ' ' || c == '\u{85}' || c == '\u{a0}' || c == '\u{1680}'
        || ('\u{2000}' <= c && c <= '\u{200a}') || c == '\u{2028}' || c == '\u{2029}' || c
        == '\u{202f}' || c == '\u{205f}' || c == '\u{3000}'
}

/// `str::trim` over characters.
pub fn trim_chars(s: &[char]) -> (r: Vec<char>)
    ensures
        r@ == trim(s@),
{
    let mut a: usize = 0;
    assert(s@.skip(0) =~= s@);
    while a < s.len() && is_space(s[a])
        invariant
            a <= s.len(),
            trim_front(s@) == trim_front(s@.skip(a as int)),
        decreases s.len() - a,
    {
        assert(s@.skip(a as int).drop_first() =~= s@.skip(a + 1));
        a += 1;
    }
    let ghost front = s@.skip(a as int);
    assert(trim_front(s@) == front);
    let mut b: usize = s.len();
    assert(front.subrange(0, front.len() as int) =~= front);
    while b > a && is_space(s[b - 1])
        invariant
            a <= b <= s.len(),
            front == s@.skip(a as int),
            trim_back(front) == trim_back(front.subrange(0, b - a)),
        decreases b,
    {
        assert(front.subrange(0, b - a).drop_last() =~= front.subrange(0, b - 1 - a));
        assert(front.subrange(0, b - a).last() == s@[b - 1]);
        b -= 1;
    }
    let r = sub_chars(s, a, b);
    assert(r@ =~= front.subrange(0, b - a));
    r
}

/// Whether every character of `s` is white space (`s.trim().is_empty()`).
pub fn is_blank(s: &[char]) -> (r: bool)
    ensures
        r == all_white_space(s@),
{
    let mut i: usize = 0;
    while i < s.len()
        invariant
            i <= s.len(),
            forall|k: int| 0 <= k < i ==> is_white_space(#[trigger] s@[k]),
        decreases s.len() - i,
    {
        let c = s[i];
        let w = ('\u{9}' <= c && c <= '\u{d}') || c == ' ' || c == '\u{85}' || c == '\u{a0}'
            || c == '\u{1680}' || ('\u{2000}' <= c && c <= '\u{200a}') || c == '\u{2028}' || c
            == '\u{2029}' || c == '\u{202f}' || c == '\u{205f}' || c == '\u{3000}';
        if !w {
            assert(!is_white_space(s@[i as int]));
            return false;
        }
        i += 1;
    }
    true
}

} // verus!
