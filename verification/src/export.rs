//! Bundle export planning: the template variables of a file key, template
//! expansion, and the relative output path of every file with conflicts
//! detected before anything is written.
//!
//! Available placeholders:
//!   {zip}      — zip filename without extension
//!   {dir[N]}   — Nth directory segment of the inner (zip-entry) path (0-indexed)
//!   {dir[-N]}  — negative indexing from the end of directory segments
//!   {stem}     — filename without extension
//!   {ext}      — file extension (no dot)
//!   {name}     — full filename (stem.ext)

use vstd::prelude::*;
use crate::file_ref::{parse_ref, FileRef, FileRefView};
use crate::path::{
    extension, file_name, file_stem, parent_components, path_file_name, path_parent_components,
    stem_of_name, extension_of_name,
};
use crate::text::{
    all_white_space, chars_eq, chars_of, concat_chars, decimal, decimal_chars, digit_char, find_from,
    find_seq, is_blank, is_prefix, is_suffix, lemma_find_from_bounds, lemma_find_from_exact, lemma_find_from_shift, occurs_at,
    replace_backslashes, slashes, starts_with, ends_with, str_views, string_from, sub_chars,
    views,
};

verus! {

/// The values that template placeholders expand to for one file.
pub struct TemplateVars {
    pub zip: String,
    /// Directory segments of the inner path (excludes the filename).
    pub dirs: Vec<String>,
    pub stem: String,
    pub ext: String,
    pub name: String,
}

/// The mathematical value of `TemplateVars`.
pub ghost struct TemplateVarsView {
    pub zip: Seq<char>,
    pub dirs: Seq<Seq<char>>,
    pub stem: Seq<char>,
    pub ext: Seq<char>,
    pub name: Seq<char>,
}

impl View for TemplateVars {
    type V = TemplateVarsView;

    open spec fn view(&self) -> TemplateVarsView {
        TemplateVarsView {
            zip: self.zip@,
            dirs: str_views(self.dirs@),
            stem: self.stem@,
            ext: self.ext@,
            name: self.name@,
        }
    }
}

/// The text of an optional value, or the empty text.
pub open spec fn or_empty(o: Option<Seq<char>>) -> Seq<char> {
    match o {
        Some(s) => s,
        None => Seq::empty(),
    }
}

/// The archive whose stem `{zip}` names, and the path inside it, of a key:
/// the zip of a zip entry; the inner zip of a nested entry; none on disk.
pub open spec fn key_parts(f: FileRefView) -> (Option<Seq<char>>, Seq<char>) {
    match f {
        FileRefView::ZipEntry(z, e) => (Some(z), e),
        FileRefView::NestedZipEntry(_, i, e) => (Some(i), e),
        FileRefView::Disk(p) => (None, p),
    }
}

/// The template variables of a file key.
pub open spec fn vars_of_key(key: Seq<char>) -> TemplateVarsView {
    let (zip_path, inner) = key_parts(parse_ref(key));
    TemplateVarsView {
        zip: match zip_path {
            Some(z) => or_empty(file_stem(z)),
            None => Seq::empty(),
        },
        dirs: parent_components(inner),
        stem: or_empty(file_stem(inner)),
        ext: or_empty(extension(inner)),
        name: or_empty(file_name(inner)),
    }
}

// ---------------------------------------------------------------------------
// Messages
// ---------------------------------------------------------------------------

/// The error for a placeholder that is never closed.
pub open spec fn unclosed_msg(p: Seq<char>) -> Seq<char> {
    "Unclosed placeholder '{"@ + p + "'"@
}

/// The error for a `{dir[..]}` whose index is not an integer.
pub open spec fn invalid_index_msg(p: Seq<char>) -> Seq<char> {
    "Invalid index in {"@ + p + "}"@
}

/// The error for a `{dir[..]}` whose index is outside the segments.
pub open spec fn out_of_range_msg(p: Seq<char>, n: nat) -> Seq<char> {
    "{"@ + p + "} out of range (have "@ + decimal(n) + " dir segment"@ + (if n == 1 {
        ""@
    } else {
        "s"@
    }) + ")"@
}

/// The error for an unknown placeholder.
pub open spec fn unknown_msg(p: Seq<char>) -> Seq<char> {
    "Unknown placeholder {"@ + p + "}"@
}

/// The error for two files that map to the same output path.
pub open spec fn conflict_msg(rel: Seq<char>, prev: Seq<char>, key: Seq<char>) -> Seq<char> {
    "Conflict: two files map to \""@ + rel + "\":\n  "@ + prev + "\n  "@ + key
}

// ---------------------------------------------------------------------------
// Integer parsing (`str::parse::<isize>`)
// ---------------------------------------------------------------------------

/// An ASCII decimal digit.
pub open spec fn is_digit(c: char) -> bool {
    '0' <= c && c <= '9'
}

/// Every character is a decimal digit.
pub open spec fn all_digits(s: Seq<char>) -> bool {
    forall|i: int| 0 <= i < s.len() ==> is_digit(#[trigger] s[i])
}

/// The value of a string of decimal digits.
pub open spec fn digits_value(s: Seq<char>) -> int
    decreases s.len(),
{
    if s.len() == 0 {
        0
    } else {
        digits_value(s.drop_last()) * 10 + (s.last() as int - 48)
    }
}

/// `str::parse::<isize>`: an optional '+' or '-', then one or more decimal
/// digits, whose value fits `isize`.
pub open spec fn parse_isize(s: Seq<char>) -> Option<int> {
    let neg = s.len() > 0 && s[0] == '-';
    let body = if s.len() > 0 && (s[0] == '-' || s[0] == '+') {
        s.drop_first()
    } else {
        s
    };
    if body.len() == 0 || !all_digits(body) {
        None
    } else {
        let v = if neg {
            -digits_value(body)
        } else {
            digits_value(body)
        };
        if isize::MIN <= v && v <= isize::MAX {
            Some(v)
        } else {
            None
        }
    }
}

// ---------------------------------------------------------------------------
// Placeholder resolution and template expansion
// ---------------------------------------------------------------------------

/// The value of one placeholder (the text between the braces).
pub open spec fn resolve_spec(p: Seq<char>, v: TemplateVarsView) -> Result<Seq<char>, Seq<char>> {
    if p == seq!['z', 'i', 'p'] {
        Ok(v.zip)
    } else if p == seq!['s', 't', 'e', 'm'] {
        Ok(v.stem)
    } else if p == seq!['e', 'x', 't'] {
        Ok(v.ext)
    } else if p == seq!['n', 'a', 'm', 'e'] {
        Ok(v.name)
    } else if is_prefix(seq!['d', 'i', 'r', '['], p) && is_suffix(seq![']'], p) {
        match parse_isize(p.subrange(4, p.len() - 1)) {
            None => Err(invalid_index_msg(p)),
            Some(idx) => {
                let len = v.dirs.len() as int;
                let r = if idx >= 0 {
                    idx
                } else {
                    len + idx
                };
                if r < 0 || r >= len {
                    Err(out_of_range_msg(p, v.dirs.len()))
                } else {
                    Ok(v.dirs[r])
                }
            },
        }
    } else {
        Err(unknown_msg(p))
    }
}

/// `prefix` put in front of a successful expansion; errors pass through.
pub open spec fn prepend(prefix: Seq<char>, x: Result<Seq<char>, Seq<char>>) -> Result<
    Seq<char>,
    Seq<char>,
> {
    match x {
        Ok(y) => Ok(prefix + y),
        Err(e) => Err(e),
    }
}

/// Template expansion, left to right: text outside braces is copied, each
/// `{...}` is replaced by its value, and the first failure is the result.
pub open spec fn expand_spec(t: Seq<char>, v: TemplateVarsView) -> Result<Seq<char>, Seq<char>>
    decreases t.len(),
{
    if t.len() == 0 {
        Ok(Seq::empty())
    } else if t[0] != '{' {
        prepend(seq![t[0]], expand_spec(t.drop_first(), v))
    } else {
        let body = t.drop_first();
        match find_from(body, seq!['}'], 0) {
            None => Err(unclosed_msg(body)),
            Some(j) => {
                proof {
                    lemma_find_from_bounds(body, seq!['}'], 0);
                }
                match resolve_spec(body.subrange(0, j), v) {
                    Err(e) => Err(e),
                    Ok(val) => prepend(val, expand_spec(body.subrange(j + 1, body.len() as int), v)),
                }
            },
        }
    }
}

// ---------------------------------------------------------------------------
// Output path planning
// ---------------------------------------------------------------------------

/// A name for `str::to_lowercase`: the Unicode lower-case mapping of a string.
pub uninterp spec fn unicode_lowercase(s: Seq<char>) -> Seq<char>;

/// `str::to_lowercase`, whose result the library names `unicode_lowercase`.
#[verifier::external_body]
fn to_lowercase(s: &str) -> (r: String)
    ensures
        r@ == unicode_lowercase(s@),
{
    s.to_lowercase()
}

/// The form in which two output paths are compared: slashes unified, then
/// lower-cased.
pub open spec fn normalised(rel: Seq<char>) -> Seq<char> {
    unicode_lowercase(slashes(rel))
}

/// The first planned output, from index `j` on, whose normalised path is
/// `target`.
pub open spec fn first_clash(out: Seq<(Seq<char>, Seq<char>)>, target: Seq<char>, j: int) -> Option<
    int,
>
    decreases out.len() - j,
{
    if j < 0 || j >= out.len() {
        None
    } else if normalised(out[j].1) == target {
        Some(j)
    } else {
        first_clash(out, target, j + 1)
    }
}

/// The plan for the first `n` keys: each key with its expanded output path,
/// or the first failure (an expansion error, or a path that clashes with an
/// earlier one).
pub open spec fn plan_prefix(t: Seq<char>, keys: Seq<Seq<char>>, n: nat) -> Result<
    Seq<(Seq<char>, Seq<char>)>,
    Seq<char>,
>
    decreases n,
{
    if n == 0 || n > keys.len() {
        Ok(Seq::empty())
    } else {
        match plan_prefix(t, keys, (n - 1) as nat) {
            Err(e) => Err(e),
            Ok(out) => match expand_spec(t, vars_of_key(keys[n - 1])) {
                Err(e) => Err(e),
                Ok(rel) => match first_clash(out, normalised(rel), 0) {
                    Some(j) => Err(conflict_msg(rel, out[j].0, keys[n - 1])),
                    None => Ok(out.push((keys[n - 1], rel))),
                },
            },
        }
    }
}

/// The plan for all keys; a blank template is refused first.
pub open spec fn plan_spec(t: Seq<char>, keys: Seq<Seq<char>>) -> Result<
    Seq<(Seq<char>, Seq<char>)>,
    Seq<char>,
> {
    if all_white_space(t) {
        Err("Export template is empty."@)
    } else {
        plan_prefix(t, keys, keys.len())
    }
}

/// The views of planned (key, path) pairs.
pub open spec fn pair_views(v: Seq<(String, String)>) -> Seq<(Seq<char>, Seq<char>)> {
    v.map_values(|p: (String, String)| (p.0@, p.1@))
}

/// The views of a character-vector result.
pub open spec fn result_view(r: Result<Vec<char>, Vec<char>>) -> Result<Seq<char>, Seq<char>> {
    match r {
        Ok(v) => Ok(v@),
        Err(e) => Err(e@),
    }
}

/// The views of a string result.
pub open spec fn string_result_view(r: Result<String, String>) -> Result<Seq<char>, Seq<char>> {
    match r {
        Ok(v) => Ok(v@),
        Err(e) => Err(e@),
    }
}

/// `prepend` composes.
proof fn lemma_prepend_prepend(a: Seq<char>, b: Seq<char>, x: Result<Seq<char>, Seq<char>>)
    ensures
        prepend(a, prepend(b, x)) == prepend(a + b, x),
{
    match x {
        Ok(y) => {
            assert(a + (b + y) =~= (a + b) + y);
        },
        Err(_) => {},
    }
}

/// The value of the digits of `s` is never negative.
proof fn lemma_digits_value_nonneg(s: Seq<char>)
    requires
        all_digits(s),
    ensures
        digits_value(s) >= 0,
    decreases s.len(),
{
    if s.len() > 0 {
        assert(all_digits(s.drop_last())) by {
            assert forall|i: int| 0 <= i < s.drop_last().len() implies is_digit(
                #[trigger] s.drop_last()[i],
            ) by {
                assert(s.drop_last()[i] == s[i]);
            }
        }
        lemma_digits_value_nonneg(s.drop_last());
        assert(is_digit(s[s.len() - 1]));
    }
}

/// Text from a literal.
fn literal(s: &str) -> (r: Vec<char>)
    ensures
        r@ == s@,
{
    chars_of(s)
}

/// `str::parse::<isize>` over characters.
pub fn parse_isize_chars(s: &[char]) -> (r: Option<isize>)
    ensures
        r matches Some(v) ==> parse_isize(s@) == Some(v as int),
        r is None ==> parse_isize(s@) is None,
{
    let mut start: usize = 0;
    let mut neg = false;
    if s.len() > 0 && (s[0] == '-' || s[0] == '+') {
        neg = s[0] == '-';
        start = 1;
    }
    let ghost body = if s@.len() > 0 && (s@[0] == '-' || s@[0] == '+') {
        s@.drop_first()
    } else {
        s@
    };
    assert(body =~= s@.subrange(start as int, s@.len() as int));
    if start == s.len() {
        return None;
    }
    let ceiling: u128 = (isize::MAX as u128) + 2;
    let mut mag: u128 = 0;
    let mut i = start;
    assert(s@.subrange(start as int, start as int) =~= Seq::<char>::empty());
    while i < s.len()
        invariant
            start <= i <= s.len(),
            start <= 1,
            ceiling == (isize::MAX as u128) + 2,
            body == s@.subrange(start as int, s@.len() as int),
            body == (if s@.len() > 0 && (s@[0] == '-' || s@[0] == '+') {
                s@.drop_first()
            } else {
                s@
            }),
            neg == (s@.len() > 0 && s@[0] == '-'),
            all_digits(s@.subrange(start as int, i as int)),
            mag == (if digits_value(s@.subrange(start as int, i as int)) < ceiling {
                digits_value(s@.subrange(start as int, i as int))
            } else {
                ceiling as int
            }),
        decreases s.len() - i,
    {
        let c = s[i];
        if !('0' <= c && c <= '9') {
            assert(!is_digit(body[i - start]));
            assert(!all_digits(body));
            assert(body.len() > 0);
            assert(parse_isize(s@) is None);
            return None;
        }
        let d = ((c as u32) - 48u32) as u128;
        let ghost pre = s@.subrange(start as int, i as int);
        let ghost next = s@.subrange(start as int, i + 1);
        assert(next.drop_last() =~= pre);
        assert(all_digits(next)) by {
            assert forall|k: int| 0 <= k < next.len() implies is_digit(#[trigger] next[k]) by {
                if k < pre.len() {
                    assert(next[k] == pre[k]);
                }
            }
        }
        proof {
            lemma_digits_value_nonneg(pre);
        }
        assert(digits_value(next) == digits_value(pre) * 10 + d);
        if mag >= ceiling {
            mag = ceiling;
        } else {
            let m = mag * 10 + d;
            mag = if m >= ceiling {
                ceiling
            } else {
                m
            };
        }
        i += 1;
    }
    assert(s@.subrange(start as int, s.len() as int) == body);
    if neg {
        if mag > (isize::MAX as u128) + 1 {
            None
        } else if mag == (isize::MAX as u128) + 1 {
            Some(isize::MIN)
        } else {
            Some(-(mag as isize))
        }
    } else {
        if mag > isize::MAX as u128 {
            None
        } else {
            Some(mag as isize)
        }
    }
}

/// `text` with `p` between `before` and `after`.
fn wrap(before: &str, p: &[char], after: &str) -> (r: Vec<char>)
    ensures
        r@ == before@ + p@ + after@,
{
    let a = concat_chars(literal(before).as_slice(), p);
    concat_chars(a.as_slice(), literal(after).as_slice())
}

/// Whether `p` is exactly the characters `w`.
fn is_word(p: &[char], w: &[char]) -> (r: bool)
    ensures
        r == (p@ == w@),
{
    chars_eq(p, w)
}

/// The value of one placeholder, over characters.
fn resolve_chars(p: &[char], vars: &TemplateVars) -> (r: Result<Vec<char>, Vec<char>>)
    ensures
        result_view(r) == resolve_spec(p@, vars@),
{
    let zip_w: Vec<char> = vec!['z', 'i', 'p'];
    let stem_w: Vec<char> = vec!['s', 't', 'e', 'm'];
    let ext_w: Vec<char> = vec!['e', 'x', 't'];
    let name_w: Vec<char> = vec!['n', 'a', 'm', 'e'];
    let dir_w: Vec<char> = vec!['d', 'i', 'r', '['];
    let close_w: Vec<char> = vec![']'];
    assert(zip_w@ =~= seq!['z', 'i', 'p']);
    assert(stem_w@ =~= seq!['s', 't', 'e', 'm']);
    assert(ext_w@ =~= seq!['e', 'x', 't']);
    assert(name_w@ =~= seq!['n', 'a', 'm', 'e']);
    assert(dir_w@ =~= seq!['d', 'i', 'r', '[']);
    assert(close_w@ =~= seq![']']);
    if is_word(p, zip_w.as_slice()) {
        Ok(chars_of(vars.zip.as_str()))
    } else if is_word(p, stem_w.as_slice()) {
        Ok(chars_of(vars.stem.as_str()))
    } else if is_word(p, ext_w.as_slice()) {
        Ok(chars_of(vars.ext.as_str()))
    } else if is_word(p, name_w.as_slice()) {
        Ok(chars_of(vars.name.as_str()))
    } else if starts_with(p, dir_w.as_slice()) && ends_with(p, close_w.as_slice()) {
        assert(p@.len() >= 5) by {
            if p@.len() == 4 {
                assert(p@.subrange(0, 4)[3] == '[');
                assert(p@.subrange(3, 4)[0] == p@[3]);
            }
        }
        let idx_str = sub_chars(p, 4, p.len() - 1);
        match parse_isize_chars(idx_str.as_slice()) {
            None => Err(wrap("Invalid index in {", p, "}")),
            Some(idx) => {
                let len = vars.dirs.len() as i128;
                let resolved: i128 = if idx >= 0 {
                    idx as i128
                } else {
                    len + idx as i128
                };
                if resolved < 0 || resolved >= len {
                    let n = vars.dirs.len();
                    let a = wrap("{", p, "} out of range (have ");
                    let b = concat_chars(a.as_slice(), decimal_chars(n).as_slice());
                    let c = concat_chars(b.as_slice(), literal(" dir segment").as_slice());
                    let d = if n == 1 {
                        concat_chars(c.as_slice(), literal("").as_slice())
                    } else {
                        concat_chars(c.as_slice(), literal("s").as_slice())
                    };
                    Err(concat_chars(d.as_slice(), literal(")").as_slice()))
                } else {
                    let k = resolved as usize;
                    assert(str_views(vars.dirs@)[k as int] == vars.dirs@[k as int]@);
                    Ok(chars_of(vars.dirs[k].as_str()))
                }
            },
        }
    } else {
        Err(wrap("Unknown placeholder {", p, "}"))
    }
}

/// The value of one placeholder (the text between the braces).
pub fn resolve_placeholder(placeholder: &str, vars: &TemplateVars) -> (r: Result<String, String>)
    ensures
        string_result_view(r) == resolve_spec(placeholder@, vars@),
{
    match resolve_chars(chars_of(placeholder).as_slice(), vars) {
        Ok(v) => Ok(string_from(v.as_slice())),
        Err(e) => Err(string_from(e.as_slice())),
    }
}

/// Template expansion over characters.
fn expand_chars(t: &[char], vars: &TemplateVars) -> (r: Result<Vec<char>, Vec<char>>)
    ensures
        result_view(r) == expand_spec(t@, vars@),
{
    let close: Vec<char> = vec!['}'];
    assert(close@ =~= seq!['}']);
    let mut res: Vec<char> = Vec::new();
    let mut i: usize = 0;
    assert(t@.subrange(0, t@.len() as int) =~= t@);
    assert(prepend(res@, expand_spec(t@, vars@)) == expand_spec(t@, vars@)) by {
        match expand_spec(t@, vars@) {
            Ok(y) => {
                assert(res@ + y =~= y);
            },
            Err(_) => {},
        }
    }
    while i < t.len()
        invariant
            i <= t.len(),
            close@ == seq!['}'],
            expand_spec(t@, vars@) == prepend(
                res@,
                expand_spec(t@.subrange(i as int, t@.len() as int), vars@),
            ),
        decreases t.len() - i,
    {
        let ghost u = t@.subrange(i as int, t@.len() as int);
        if t[i] != '{' {
            assert(u[0] == t@[i as int]);
            assert(u.drop_first() =~= t@.subrange(i + 1, t@.len() as int));
            proof {
                lemma_prepend_prepend(res@, seq![t@[i as int]], expand_spec(u.drop_first(), vars@));
            }
            assert(expand_spec(u, vars@) == prepend(seq![u[0]], expand_spec(u.drop_first(), vars@)));
            let ghost old_res = res@;
            res.push(t[i]);
            assert(res@ =~= old_res + seq![t@[i as int]]);
            i += 1;
        } else {
            let ghost body = u.drop_first();
            let ghost head = t@.subrange(0, i + 1);
            assert(body =~= t@.subrange(i + 1, t@.len() as int));
            assert(t@ =~= head + body);
            proof {
                lemma_find_from_shift(head, body, seq!['}'], 0);
                lemma_find_from_bounds(body, seq!['}'], 0);
            }
            match find_seq(t, close.as_slice(), i + 1) {
                None => {
                    let rest = sub_chars(t, i + 1, t.len());
                    return Err(wrap("Unclosed placeholder '{", rest.as_slice(), "'"));
                },
                Some(j) => {
                    let ghost jr = j - (i + 1);
                    let ph = sub_chars(t, i + 1, j);
                    assert(ph@ =~= body.subrange(0, jr as int));
                    match resolve_chars(ph.as_slice(), vars) {
                        Err(e) => {
                            return Err(e);
                        },
                        Ok(val) => {
                            assert(find_from(body, seq!['}'], 0) == Some(jr as int));
                            assert(u[0] == '{');
                            assert(expand_spec(u, vars@) == prepend(
                                val@,
                                expand_spec(body.subrange(jr + 1, body.len() as int), vars@),
                            ));
                            assert(body.subrange(jr + 1, body.len() as int) =~= t@.subrange(
                                j + 1,
                                t@.len() as int,
                            ));
                            proof {
                                lemma_prepend_prepend(
                                    res@,
                                    val@,
                                    expand_spec(t@.subrange(j + 1, t@.len() as int), vars@),
                                );
                            }
                            res = concat_chars(res.as_slice(), val.as_slice());
                            i = j + 1;
                        },
                    }
                },
            }
        }
    }
    assert(t@.subrange(t@.len() as int, t@.len() as int) =~= Seq::<char>::empty());
    assert(res@ + Seq::<char>::empty() =~= res@);
    Ok(res)
}

/// Expand a template string using the given variables; an unclosed,
/// unknown or out-of-range placeholder is an error.
pub fn expand_template(template: &str, vars: &TemplateVars) -> (r: Result<String, String>)
    ensures
        string_result_view(r) == expand_spec(template@, vars@),
{
    match expand_chars(chars_of(template).as_slice(), vars) {
        Ok(v) => Ok(string_from(v.as_slice())),
        Err(e) => Err(string_from(e.as_slice())),
    }
}

/// Strings holding the given character vectors.
fn strings_of(v: &Vec<Vec<char>>) -> (r: Vec<String>)
    ensures
        str_views(r@) == views(v@),
{
    let mut r: Vec<String> = Vec::new();
    let mut i: usize = 0;
    while i < v.len()
        invariant
            i <= v.len(),
            str_views(r@) == views(v@).subrange(0, i as int),
        decreases v.len() - i,
    {
        let ghost before = str_views(r@);
        r.push(string_from(v[i].as_slice()));
        assert(str_views(r@) =~= before.push(v@[i as int]@));
        i += 1;
        assert(views(v@).subrange(0, i as int) =~= views(v@).subrange(0, i - 1 as int).push(
            v@[i - 1]@,
        ));
    }
    assert(views(v@).subrange(0, v.len() as int) =~= views(v@));
    r
}

/// The first index from `j` on where `normed` holds `target`, as
/// `first_clash` finds it.
fn find_clash(normed: &Vec<Vec<char>>, target: &[char], Ghost(out): Ghost<
    Seq<(Seq<char>, Seq<char>)>,
>) -> (r: Option<usize>)
    requires
        normed.len() == out.len(),
        forall|k: int| 0 <= k < out.len() ==> (#[trigger] normed@[k])@ == normalised(out[k].1),
    ensures
        r matches Some(j) ==> first_clash(out, target@, 0) == Some(j as int) && j < out.len(),
        r is None ==> first_clash(out, target@, 0) is None,
{
    let mut j: usize = 0;
    while j < normed.len()
        invariant
            j <= normed.len(),
            normed.len() == out.len(),
            forall|k: int| 0 <= k < out.len() ==> (#[trigger] normed@[k])@ == normalised(out[k].1),
            first_clash(out, target@, 0) == first_clash(out, target@, j as int),
        decreases normed.len() - j,
    {
        if chars_eq(normed[j].as_slice(), target) {
            return Some(j);
        }
        j += 1;
    }
    None
}

/// Once planning fails, planning more keys fails the same way.
proof fn lemma_plan_err_stable(t: Seq<char>, keys: Seq<Seq<char>>, m: nat, n: nat)
    requires
        m <= n <= keys.len(),
        plan_prefix(t, keys, m) is Err,
    ensures
        plan_prefix(t, keys, n) == plan_prefix(t, keys, m),
    decreases n - m,
{
    if m < n {
        lemma_plan_err_stable(t, keys, m, (n - 1) as nat);
    }
}

/// `first_clash` finds nothing exactly when no output from `j` on has the
/// normalised path `target`.
proof fn lemma_first_clash_none(out: Seq<(Seq<char>, Seq<char>)>, target: Seq<char>, j: int)
    requires
        0 <= j,
    ensures
        first_clash(out, target, j) is None <==> forall|k: int|
            j <= k < out.len() ==> normalised(#[trigger] out[k].1) != target,
    decreases out.len() - j,
{
    if j < out.len() {
        lemma_first_clash_none(out, target, j + 1);
    }
}

/// What a successful plan of the first `n` keys holds.
pub open spec fn plan_holds(t: Seq<char>, keys: Seq<Seq<char>>, n: nat, v: Seq<(Seq<char>, Seq<char>)>) -> bool {
    &&& v.len() == n
    &&& forall|i: int| 0 <= i < n ==> (#[trigger] v[i]).0 == keys[i]
    &&& forall|i: int| 0 <= i < n ==> expand_spec(t, vars_of_key(keys[i])) == Ok::<_, Seq<char>>((#[trigger] v[i]).1)
    &&& forall|i: int, j: int| 0 <= i < j < n ==> normalised(#[trigger] v[i].1) != normalised(#[trigger] v[j].1)
}

proof fn lemma_plan_prefix_sound(t: Seq<char>, keys: Seq<Seq<char>>, n: nat)
    requires
        n <= keys.len(),
    ensures
        plan_prefix(t, keys, n) matches Ok(v) ==> plan_holds(t, keys, n, v),
    decreases n,
{
    if n > 0 {
        lemma_plan_prefix_sound(t, keys, (n - 1) as nat);
        if let Ok(out) = plan_prefix(t, keys, (n - 1) as nat) {
            if let Ok(rel) = expand_spec(t, vars_of_key(keys[n - 1])) {
                lemma_first_clash_none(out, normalised(rel), 0);
                if let Ok(v) = plan_prefix(t, keys, n) {
                    assert(v == out.push((keys[n - 1], rel)));
                    assert forall|i: int, j: int| 0 <= i < j < n implies normalised(
                        #[trigger] v[i].1,
                    ) != normalised(#[trigger] v[j].1) by {
                        if j == n - 1 {
                            assert(v[i] == out[i]);
                        } else {
                            assert(v[i] == out[i] && v[j] == out[j]);
                        }
                    }
                    assert forall|i: int| 0 <= i < n implies (#[trigger] v[i]).0 == keys[i] by {
                        if i < n - 1 {
                            assert(v[i] == out[i]);
                        }
                    }
                    assert forall|i: int| 0 <= i < n implies expand_spec(
                        t,
                        vars_of_key(keys[i]),
                    ) == Ok::<_, Seq<char>>((#[trigger] v[i]).1) by {
                        if i < n - 1 {
                            assert(v[i] == out[i]);
                        }
                    }
                }
            }
        }
    }
}

proof fn lemma_plan_prefix_complete(
    t: Seq<char>,
    keys: Seq<Seq<char>>,
    rels: Seq<Seq<char>>,
    n: nat,
)
    requires
        n <= keys.len(),
        rels.len() == keys.len(),
        forall|i: int| 0 <= i < keys.len() ==> expand_spec(t, vars_of_key(keys[i])) == Ok::<_, Seq<char>>(#[trigger] rels[i]),
        forall|i: int, j: int| 0 <= i < j < keys.len() ==> normalised(#[trigger] rels[i]) != normalised(#[trigger] rels[j]),
    ensures
        plan_prefix(t, keys, n) == Ok::<_, Seq<char>>(Seq::new(n, |i: int| (keys[i], rels[i]))),
    decreases n,
{
    let want = Seq::new(n, |i: int| (keys[i], rels[i]));
    if n == 0 {
        assert(want =~= Seq::<(Seq<char>, Seq<char>)>::empty());
    } else {
        lemma_plan_prefix_complete(t, keys, rels, (n - 1) as nat);
        let out = Seq::new((n - 1) as nat, |i: int| (keys[i], rels[i]));
        assert(expand_spec(t, vars_of_key(keys[n - 1])) == Ok::<_, Seq<char>>(rels[n - 1]));
        lemma_first_clash_none(out, normalised(rels[n - 1]), 0);
        assert forall|k: int| 0 <= k < out.len() implies normalised(#[trigger] out[k].1)
            != normalised(rels[n - 1]) by {
            assert(out[k].1 == rels[k]);
        }
        assert(out.push((keys[n - 1], rels[n - 1])) =~= want);
    }
}

/// Law: a successful plan gives every key, in order, the path its template
/// expands to, and no two planned paths coincide once slashes are unified
/// and case is folded.
pub proof fn lemma_plan_sound(template: Seq<char>, keys: Seq<Seq<char>>)
    ensures
        plan_spec(template, keys) matches Ok(v) ==> plan_holds(template, keys, keys.len(), v),
{
    lemma_plan_prefix_sound(template, keys, keys.len());
}

/// Law: when the template is not blank, every key's template expands, and no
/// two expansions coincide once slashes are unified and case is folded, the
/// plan succeeds with those paths.
pub proof fn lemma_plan_complete(template: Seq<char>, keys: Seq<Seq<char>>, rels: Seq<Seq<char>>)
    requires
        !all_white_space(template),
        rels.len() == keys.len(),
        forall|i: int| 0 <= i < keys.len() ==> expand_spec(template, vars_of_key(keys[i])) == Ok::<_, Seq<char>>(#[trigger] rels[i]),
        forall|i: int, j: int| 0 <= i < j < keys.len() ==> normalised(#[trigger] rels[i]) != normalised(#[trigger] rels[j]),
    ensures
        plan_spec(template, keys) == Ok::<_, Seq<char>>(Seq::new(keys.len(), |i: int| (keys[i], rels[i]))),
{
    lemma_plan_prefix_complete(template, keys, rels, keys.len());
}

/// Law: expanding a template that starts with a part `a` which expands to
/// `x` gives `x` followed by the expansion of the rest (or the rest's
/// error).
pub proof fn lemma_expand_concat(a: Seq<char>, b: Seq<char>, v: TemplateVarsView)
    requires
        expand_spec(a, v) is Ok,
    ensures
        expand_spec(a + b, v) == prepend(expand_spec(a, v)->Ok_0, expand_spec(b, v)),
    decreases a.len(),
{
    let x = expand_spec(a, v)->Ok_0;
    if a.len() == 0 {
        assert(a + b =~= b);
        assert(x =~= Seq::<char>::empty());
        match expand_spec(b, v) {
            Ok(y) => assert(x + y =~= y),
            Err(_) => {},
        }
    } else if a[0] != '{' {
        let a1 = a.drop_first();
        assert((a + b)[0] == a[0]);
        assert((a + b).drop_first() =~= a1 + b);
        lemma_expand_concat(a1, b, v);
        let x1 = expand_spec(a1, v)->Ok_0;
        assert(x == seq![a[0]] + x1);
        match expand_spec(b, v) {
            Ok(y) => assert(seq![a[0]] + (x1 + y) =~= x + y),
            Err(_) => {},
        }
    } else {
        let body = a.drop_first();
        let sep = seq!['}'];
        lemma_find_from_bounds(body, sep, 0);
        let j = find_from(body, sep, 0)->Some_0;
        let whole = (a + b).drop_first();
        assert(whole =~= body + b);
        assert(whole.subrange(j, j + 1) =~= body.subrange(j, j + 1));
        assert forall|k: int| 0 <= k < j implies !occurs_at(whole, sep, k) by {
            assert(!occurs_at(body, sep, k));
            assert(whole.subrange(k, k + 1) =~= body.subrange(k, k + 1));
        }
        lemma_find_from_exact(whole, sep, 0, j);
        assert(whole.subrange(0, j) =~= body.subrange(0, j));
        let rest = body.subrange(j + 1, body.len() as int);
        assert(whole.subrange(j + 1, whole.len() as int) =~= rest + b);
        lemma_expand_concat(rest, b, v);
        let val = resolve_spec(body.subrange(0, j), v)->Ok_0;
        let x2 = expand_spec(rest, v)->Ok_0;
        assert(x == val + x2);
        match expand_spec(b, v) {
            Ok(y) => assert(val + (x2 + y) =~= x + y),
            Err(_) => {},
        }
    }
}

/// The digits of `decimal(n)` read back as `n`.
proof fn lemma_decimal_digits(n: nat)
    ensures
        decimal(n).len() > 0,
        all_digits(decimal(n)),
        digits_value(decimal(n)) == n,
    decreases n,
{
    if n < 10 {
        assert(digit_char(n) as int == n + 48);
        assert(digits_value(decimal(n)) == digits_value(decimal(n).drop_last()) * 10 + (
        decimal(n).last() as int - 48));
        assert(decimal(n).drop_last() =~= Seq::<char>::empty());
    } else {
        lemma_decimal_digits(n / 10);
        let d = decimal(n);
        let c = digit_char(n % 10);
        assert(c as int == n % 10 + 48);
        assert(d.drop_last() =~= decimal(n / 10));
        assert(d.last() == c);
        assert forall|i: int| 0 <= i < d.len() implies is_digit(#[trigger] d[i]) by {
            if i < d.len() - 1 {
                assert(d[i] == decimal(n / 10)[i]);
            }
        }
    }
}

/// Law: `{dir[N]}` is the `N`-th directory segment counted from 0, for
/// every `N` below the number of segments; `{dir[-N]}` is the `N`-th
/// counted from the end (index `len - N`), for `1 <= N <= len`.
pub proof fn lemma_dir_placeholder(v: TemplateVarsView, n: nat)
    requires
        v.dirs.len() <= isize::MAX,
    ensures
        n < v.dirs.len() ==> resolve_spec(seq!['d', 'i', 'r', '['] + decimal(n) + seq![']'], v)
            == Ok::<Seq<char>, Seq<char>>(v.dirs[n as int]),
        1 <= n <= v.dirs.len() ==> resolve_spec(
            seq!['d', 'i', 'r', '[', '-'] + decimal(n) + seq![']'],
            v,
        ) == Ok::<Seq<char>, Seq<char>>(v.dirs[v.dirs.len() - n]),
{
    lemma_decimal_digits(n);
    let dn = decimal(n);
    assert(is_digit(dn[0]));
    let p = seq!['d', 'i', 'r', '['] + dn + seq![']'];
    assert(p.subrange(0, 4) =~= seq!['d', 'i', 'r', '[']);
    assert(p.subrange(p.len() - 1, p.len() as int) =~= seq![']']);
    assert(p.subrange(4, p.len() - 1) =~= dn);
    assert(p.len() >= 6);
    assert(p != seq!['z', 'i', 'p'] && p != seq!['s', 't', 'e', 'm'] && p != seq!['e', 'x', 't']
        && p != seq!['n', 'a', 'm', 'e']);
    if n < v.dirs.len() {
        assert(parse_isize(dn) == Some(n as int));
    }
    let q = seq!['d', 'i', 'r', '[', '-'] + dn + seq![']'];
    assert(q.subrange(0, 4) =~= seq!['d', 'i', 'r', '[']);
    assert(q.subrange(q.len() - 1, q.len() as int) =~= seq![']']);
    let qi = q.subrange(4, q.len() - 1);
    assert(qi =~= seq!['-'] + dn);
    assert(qi.drop_first() =~= dn);
    assert(q.len() >= 7);
    assert(q != seq!['z', 'i', 'p'] && q != seq!['s', 't', 'e', 'm'] && q != seq!['e', 'x', 't']
        && q != seq!['n', 'a', 'm', 'e']);
    if 1 <= n <= v.dirs.len() {
        assert(parse_isize(qi) == Some(-(n as int)));
    }
}

/// Law: text without '{' expands to itself.
pub proof fn lemma_expand_plain(t: Seq<char>, vars: TemplateVarsView)
    requires
        !t.contains('{'),
    ensures
        expand_spec(t, vars) == Ok::<_, Seq<char>>(t),
    decreases t.len(),
{
    if t.len() > 0 {
        assert(t[0] != '{') by {
            if t[0] == '{' {
                assert(t.contains(t[0]));
            }
        }
        assert(!t.drop_first().contains('{')) by {
            if t.drop_first().contains('{') {
                let k = choose|k: int| 0 <= k < t.drop_first().len() && t.drop_first()[k] == '{';
                assert(t[k + 1] == '{');
                assert(t.contains(t[k + 1]));
            }
        }
        lemma_expand_plain(t.drop_first(), vars);
        assert(seq![t[0]] + t.drop_first() =~= t);
    } else {
        assert(t =~= Seq::<char>::empty());
    }
}

/// The views of a plan result.
pub open spec fn plan_view(r: Result<Vec<(String, String)>, String>) -> Result<
    Seq<(Seq<char>, Seq<char>)>,
    Seq<char>,
> {
    match r {
        Ok(v) => Ok(pair_views(v@)),
        Err(e) => Err(e@),
    }
}

/// For each input key, compute the relative output path. Returns an error
/// if the template is blank, if a template expansion fails, or if any two
/// keys resolve to the same path (compared with slashes unified and
/// lower-cased).
pub fn resolve_output_paths(template: &str, file_keys: &[String]) -> (r: Result<
    Vec<(String, String)>,
    String,
>)
    ensures
        plan_view(r) == plan_spec(template@, str_views(file_keys@)),
{
    let t = chars_of(template);
    if is_blank(t.as_slice()) {
        return Err(string_from(literal("Export template is empty.").as_slice()));
    }
    let ghost keys = str_views(file_keys@);
    let mut out: Vec<(String, String)> = Vec::new();
    let mut normed: Vec<Vec<char>> = Vec::new();
    let mut n: usize = 0;
    assert(pair_views(out@) =~= Seq::<(Seq<char>, Seq<char>)>::empty());
    while n < file_keys.len()
        invariant
            n <= file_keys.len(),
            keys == str_views(file_keys@),
            t@ == template@,
            !all_white_space(t@),
            plan_prefix(t@, keys, n as nat) == Ok::<_, Seq<char>>(pair_views(out@)),
            normed.len() == out.len(),
            forall|k: int|
                0 <= k < out.len() ==> (#[trigger] normed@[k])@ == normalised(
                    pair_views(out@)[k].1,
                ),
        decreases file_keys.len() - n,
    {
        let key = &file_keys[n];
        assert(keys[n as int] == key@);
        let vars = TemplateVars::from_key(key.as_str());
        let rel = match expand_chars(t.as_slice(), &vars) {
            Ok(x) => x,
            Err(e) => {
                assert(expand_spec(t@, vars_of_key(keys[n as int])) == Err::<Seq<char>, Seq<char>>(
                    e@,
                ));
                assert(plan_prefix(t@, keys, (n + 1) as nat) == Err::<
                    Seq<(Seq<char>, Seq<char>)>,
                    Seq<char>,
                >(e@));
                proof {
                    lemma_plan_err_stable(t@, keys, (n + 1) as nat, keys.len());
                }
                return Err(string_from(e.as_slice()));
            },
        };
        let unified = string_from(replace_backslashes(rel.as_slice()).as_slice());
        let lowered = to_lowercase(unified.as_str());
        let norm = chars_of(lowered.as_str());
        match find_clash(&normed, norm.as_slice(), Ghost(pair_views(out@))) {
            Some(j) => {
                let prev = chars_of(out[j].0.as_str());
                assert(pair_views(out@)[j as int].0 == out@[j as int].0@);
                let a = wrap("Conflict: two files map to \"", rel.as_slice(), "\":\n  ");
                let b = concat_chars(a.as_slice(), prev.as_slice());
                let c = concat_chars(b.as_slice(), literal("\n  ").as_slice());
                let d = concat_chars(c.as_slice(), chars_of(key.as_str()).as_slice());
                assert(plan_prefix(t@, keys, (n + 1) as nat) == Err::<
                    Seq<(Seq<char>, Seq<char>)>,
                    Seq<char>,
                >(d@));
                proof {
                    lemma_plan_err_stable(t@, keys, (n + 1) as nat, keys.len());
                }
                return Err(string_from(d.as_slice()));
            },
            None => {
                let ghost before = pair_views(out@);
                out.push((key.clone(), string_from(rel.as_slice())));
                normed.push(norm);
                assert(pair_views(out@) =~= before.push((key@, rel@)));
                n += 1;
                assert forall|k: int| 0 <= k < out.len() implies (#[trigger] normed@[k])@
                    == normalised(pair_views(out@)[k].1) by {
                    if k < out.len() - 1 {
                        assert(pair_views(out@)[k] == before[k]);
                    }
                }
            },
        }
    }
    Ok(out)
}

/// Resolve output paths for preview display: the planned paths in key
/// order, or the planning error.
pub fn preview_output_paths(template: &str, file_keys: &[String]) -> (r: Result<
    Vec<String>,
    String,
>)
    ensures
        match plan_spec(template@, str_views(file_keys@)) {
            Ok(plan) => r matches Ok(v) && str_views(v@) == plan.map_values(
                |p: (Seq<char>, Seq<char>)| p.1,
            ),
            Err(e) => r matches Err(m) && m@ == e,
        },
{
    let plan = match resolve_output_paths(template, file_keys) {
        Ok(p) => p,
        Err(e) => {
            return Err(e);
        },
    };
    let mut out: Vec<String> = Vec::new();
    let mut i: usize = 0;
    assert(str_views(out@) =~= pair_views(plan@).subrange(0, 0).map_values(
        |p: (Seq<char>, Seq<char>)| p.1,
    ));
    while i < plan.len()
        invariant
            i <= plan.len(),
            str_views(out@) == pair_views(plan@).subrange(0, i as int).map_values(
                |p: (Seq<char>, Seq<char>)| p.1,
            ),
        decreases plan.len() - i,
    {
        let ghost before = str_views(out@);
        out.push(plan[i].1.clone());
        assert(str_views(out@) =~= before.push(plan@[i as int].1@));
        i += 1;
        assert(pair_views(plan@).subrange(0, i as int).map_values(|p: (Seq<char>, Seq<char>)| p.1)
            =~= pair_views(plan@).subrange(0, i - 1 as int).map_values(
            |p: (Seq<char>, Seq<char>)| p.1,
        ).push(plan@[i - 1].1@));
    }
    assert(pair_views(plan@).subrange(0, plan.len() as int) =~= pair_views(plan@));
    Ok(out)
}

impl TemplateVars {
    /// Extract template variables from a `FileRef` key string.
    pub fn from_key(key: &str) -> (r: TemplateVars)
        ensures
            r@ == vars_of_key(key@),
    {
        let file_ref = FileRef::from_string(key);
        let (zip_path, inner): (Option<Vec<char>>, Vec<char>) = match &file_ref {
            FileRef::ZipEntry { zip_path, entry } => (
                Some(chars_of(zip_path.as_str())),
                chars_of(entry.as_str()),
            ),
            FileRef::NestedZipEntry { inner_entry, entry, .. } => (
                Some(chars_of(inner_entry.as_str())),
                chars_of(entry.as_str()),
            ),
            FileRef::Disk(p) => (None, chars_of(p.as_str())),
        };
        let zip: Vec<char> = match zip_path {
            Some(z) => match path_file_name(z.as_slice()) {
                Some(n) => stem_of_name(n.as_slice()),
                None => Vec::new(),
            },
            None => Vec::new(),
        };
        let (name, stem, ext): (Vec<char>, Vec<char>, Vec<char>) = match path_file_name(
            inner.as_slice(),
        ) {
            Some(n) => {
                let st = stem_of_name(n.as_slice());
                let ex = match extension_of_name(n.as_slice()) {
                    Some(e) => e,
                    None => Vec::new(),
                };
                (n, st, ex)
            },
            None => (Vec::new(), Vec::new(), Vec::new()),
        };
        let dirs = path_parent_components(inner.as_slice());
        let r = TemplateVars {
            zip: string_from(zip.as_slice()),
            dirs: strings_of(&dirs),
            stem: string_from(stem.as_slice()),
            ext: string_from(ext.as_slice()),
            name: string_from(name.as_slice()),
        };
        assert(r@.zip =~= vars_of_key(key@).zip);
        assert(r@.stem =~= vars_of_key(key@).stem);
        assert(r@.ext =~= vars_of_key(key@).ext);
        assert(r@.name =~= vars_of_key(key@).name);
        r
    }
}

// ---------------------------------------------------------------------------
// Export progress
// ---------------------------------------------------------------------------

/// Progress reported by a running export.
pub enum ExportProgress {
    /// (files written so far, total files)
    Progress(usize, usize),
    /// The export finished: the number of files written.
    Done(usize),
    /// The export stopped with an error message.
    Failed(String),
}

/// The bookkeeping of an export that copies the files of a plan one by one:
/// how many files the plan has and how many were written.
pub struct ExportRun {
    pub total: usize,
    pub written: usize,
}

impl ExportRun {
    /// A run over a plan of `total` files, none written yet.
    pub fn new(total: usize) -> (r: ExportRun)
        ensures
            r.total == total,
            r.written == 0,
    {
        ExportRun { total, written: 0 }
    }

    /// A file was written: the count goes up and the new count is reported.
    pub fn file_written(&mut self) -> (r: ExportProgress)
        requires
            old(self).written < usize::MAX,
        ensures
            final(self).total == old(self).total,
            final(self).written == old(self).written + 1,
            r matches ExportProgress::Progress(w, t) && w == final(self).written && t == final(self).total,
    {
        self.written = self.written + 1;
        ExportProgress::Progress(self.written, self.total)
    }

    /// The destination directory could not be created: the export stops.
    pub fn dir_failed(&self, dir: &str, error: &str) -> (r: ExportProgress)
        ensures
            r matches ExportProgress::Failed(m) && m@ == "Cannot create dir "@ + dir@ + ": "@ + error@,
    {
        let a = concat_chars(chars_of("Cannot create dir ").as_slice(), chars_of(dir).as_slice());
        let b = concat_chars(a.as_slice(), chars_of(": ").as_slice());
        let c = concat_chars(b.as_slice(), chars_of(error).as_slice());
        ExportProgress::Failed(string_from(c.as_slice()))
    }

    /// A file could not be written: the export stops.
    pub fn write_failed(&self, rel_path: &str, error: &str) -> (r: ExportProgress)
        ensures
            r matches ExportProgress::Failed(m) && m@ == "Write failed for "@ + rel_path@ + ": "@
                + error@,
    {
        let a = concat_chars(chars_of("Write failed for ").as_slice(), chars_of(rel_path).as_slice());
        let b = concat_chars(a.as_slice(), chars_of(": ").as_slice());
        let c = concat_chars(b.as_slice(), chars_of(error).as_slice());
        ExportProgress::Failed(string_from(c.as_slice()))
    }

    /// Every file of the plan was handled (unreadable ones skipped): the
    /// number written is reported.
    pub fn finish(&self) -> (r: ExportProgress)
        ensures
            r matches ExportProgress::Done(w) && w == self.written,
    {
        ExportProgress::Done(self.written)
    }
}

} // verus!
