//! '/'-separated path text: its components, final name, stem, extension and
//! parent components, following the documented behaviour of `std::path` for
//! paths whose separator is '/'.

use vstd::prelude::*;
use crate::text::{
    chars_eq, find_from, lemma_find_from_bounds, occurs_at, split, split_from, split_on, sub_chars,
    views,
};

verus! {

/// The one-character text "/".
pub open spec fn slash() -> Seq<char> {
    seq!['/']
}

/// The one-character text ".".
pub open spec fn dot() -> Seq<char> {
    seq!['.']
}

/// The two-character text "..".
pub open spec fn dot_dot() -> Seq<char> {
    seq!['.', '.']
}

/// A piece between separators that names something: not empty and not ".".
pub open spec fn kept_piece(p: Seq<char>) -> bool {
    p.len() > 0 && p != dot()
}

/// The pieces that survive as components, in order.
pub open spec fn kept_pieces(parts: Seq<Seq<char>>) -> Seq<Seq<char>>
    decreases parts.len(),
{
    if parts.len() == 0 {
        Seq::empty()
    } else if kept_piece(parts.last()) {
        kept_pieces(parts.drop_last()).push(parts.last())
    } else {
        kept_pieces(parts.drop_last())
    }
}

/// The path starts at the root.
pub open spec fn has_root(s: Seq<char>) -> bool {
    s.len() > 0 && s[0] == '/'
}

/// The path starts with a "." component that `components` keeps.
pub open spec fn has_cur_dir(s: Seq<char>) -> bool {
    !has_root(s) && s.len() > 0 && s[0] == '.' && (s.len() == 1 || s[1] == '/')
}

/// `Path::components`, each component as its text ("/" for the root).
pub open spec fn components(s: Seq<char>) -> Seq<Seq<char>> {
    (if has_root(s) {
        seq![slash()]
    } else {
        Seq::empty()
    }) + (if has_cur_dir(s) {
        seq![dot()]
    } else {
        Seq::empty()
    }) + kept_pieces(split(s, slash()))
}

/// Two paths are equal as `Path`s compare them: by their components, so
/// "a/b/", "a//b" and "a/./b" all name the same path as "a/b".
pub open spec fn same_path(p: Seq<char>, q: Seq<char>) -> bool {
    components(p) == components(q)
}

/// A component that is a normal name: not the root, "." or "..".
pub open spec fn is_normal(c: Seq<char>) -> bool {
    c != slash() && c != dot() && c != dot_dot()
}

/// `Path::file_name`: the last component when it is a normal name.
pub open spec fn file_name(s: Seq<char>) -> Option<Seq<char>> {
    let c = components(s);
    if c.len() > 0 && is_normal(c.last()) {
        Some(c.last())
    } else {
        None
    }
}

/// The components of `Path::parent`, or none when there is no parent.
pub open spec fn parent_components(s: Seq<char>) -> Seq<Seq<char>> {
    let c = components(s);
    if c.len() > 0 && c.last() != slash() {
        c.drop_last()
    } else {
        Seq::empty()
    }
}

/// The index of the last `c` in `s`, or -1.
pub open spec fn last_index_of(s: Seq<char>, c: char) -> int
    decreases s.len(),
{
    if s.len() == 0 {
        -1
    } else if s.last() == c {
        s.len() - 1
    } else {
        last_index_of(s.drop_last(), c)
    }
}

/// The stem of a file name: everything before the last '.', or the whole
/// name when it has no '.' after its first character.
pub open spec fn name_stem(name: Seq<char>) -> Seq<char> {
    let k = last_index_of(name, '.');
    if k <= 0 {
        name
    } else {
        name.subrange(0, k)
    }
}

/// The extension of a file name: everything after the last '.', when that
/// '.' is not its first character.
pub open spec fn name_extension(name: Seq<char>) -> Option<Seq<char>> {
    let k = last_index_of(name, '.');
    if k <= 0 {
        None
    } else {
        Some(name.subrange(k + 1, name.len() as int))
    }
}

/// `Path::file_stem`.
pub open spec fn file_stem(s: Seq<char>) -> Option<Seq<char>> {
    match file_name(s) {
        Some(n) => Some(name_stem(n)),
        None => None,
    }
}

/// `Path::extension`.
pub open spec fn extension(s: Seq<char>) -> Option<Seq<char>> {
    match file_name(s) {
        Some(n) => name_extension(n),
        None => None,
    }
}

// ---------------------------------------------------------------------------
// Executable functions
// ---------------------------------------------------------------------------

/// The components of a '/'-separated path.
pub fn path_components(s: &[char]) -> (r: Vec<Vec<char>>)
    ensures
        views(r@) == components(s@),
{
    let mut r: Vec<Vec<char>> = Vec::new();
    let root = s.len() > 0 && s[0] == '/';
    let cur = !root && s.len() > 0 && s[0] == '.' && (s.len() == 1 || s[1] == '/');
    if root {
        let mut c: Vec<char> = Vec::new();
        c.push('/');
        r.push(c);
    }
    if cur {
        let mut c: Vec<char> = Vec::new();
        c.push('.');
        r.push(c);
    }
    let ghost head = views(r@);
    assert(head =~= (if has_root(s@) {
        seq![slash()]
    } else {
        Seq::<Seq<char>>::empty()
    }) + (if has_cur_dir(s@) {
        seq![dot()]
    } else {
        Seq::<Seq<char>>::empty()
    }));
    let sep: Vec<char> = vec!['/'];
    assert(sep@ =~= slash());
    let parts = split_on(s, sep.as_slice());
    let mut i: usize = 0;
    while i < parts.len()
        invariant
            i <= parts.len(),
            views(r@) == head + kept_pieces(views(parts@).subrange(0, i as int)),
        decreases parts.len() - i,
    {
        let ghost pre = views(parts@).subrange(0, i as int);
        assert(views(parts@).subrange(0, i + 1).drop_last() =~= pre);
        let p = &parts[i];
        let keep = p.len() > 0 && !(p.len() == 1 && p[0] == '.');
        assert(keep == kept_piece(p@)) by {
            if p@.len() == 1 && p@[0] == '.' {
                assert(p@ =~= dot());
            }
        }
        if keep {
            let ghost before = views(r@);
            r.push(sub_chars(p.as_slice(), 0, p.len()));
            assert(p@.subrange(0, p@.len() as int) =~= p@);
            assert(views(r@) =~= before.push(p@));
        }
        i += 1;
    }
    assert(views(parts@).subrange(0, parts.len() as int) =~= views(parts@));
    r
}

/// Whether a component is a normal name.
fn is_normal_exec(c: &[char]) -> (r: bool)
    ensures
        r == is_normal(c@),
{
    let one_slash = c.len() == 1 && c[0] == '/';
    let one_dot = c.len() == 1 && c[0] == '.';
    let two_dots = c.len() == 2 && c[0] == '.' && c[1] == '.';
    proof {
        if c@.len() == 1 && c@[0] == '/' {
            assert(c@ =~= slash());
        }
        if c@.len() == 1 && c@[0] == '.' {
            assert(c@ =~= dot());
        }
        if c@.len() == 2 && c@[0] == '.' && c@[1] == '.' {
            assert(c@ =~= dot_dot());
        }
    }
    !(one_slash || one_dot || two_dots)
}

/// `Path::file_name` of a '/'-separated path.
pub fn path_file_name(s: &[char]) -> (r: Option<Vec<char>>)
    ensures
        r matches Some(n) ==> file_name(s@) == Some(n@),
        r is None ==> file_name(s@) is None,
{
    let mut comps = path_components(s);
    if comps.len() == 0 {
        return None;
    }
    let last = comps.pop().unwrap();
    assert(last@ == components(s@).last());
    if is_normal_exec(last.as_slice()) {
        Some(last)
    } else {
        None
    }
}

/// The components of `Path::parent` of a '/'-separated path.
pub fn path_parent_components(s: &[char]) -> (r: Vec<Vec<char>>)
    ensures
        views(r@) == parent_components(s@),
{
    let mut comps = path_components(s);
    if comps.len() == 0 {
        return comps;
    }
    let ghost all = views(comps@);
    let last = comps.pop().unwrap();
    let is_root = last.len() == 1 && last[0] == '/';
    proof {
        if last@.len() == 1 && last@[0] == '/' {
            assert(last@ =~= slash());
        }
        assert(views(comps@) =~= all.drop_last());
    }
    if is_root {
        Vec::new()
    } else {
        comps
    }
}

/// Whether two '/'-separated paths are equal component by component.
pub fn paths_equal(p: &[char], q: &[char]) -> (r: bool)
    ensures
        r == same_path(p@, q@),
{
    let a = path_components(p);
    let b = path_components(q);
    if a.len() != b.len() {
        return false;
    }
    let mut i: usize = 0;
    while i < a.len()
        invariant
            a.len() == b.len(),
            i <= a.len(),
            views(a@) == components(p@),
            views(b@) == components(q@),
            forall|k: int| 0 <= k < i ==> #[trigger] views(a@)[k] == views(b@)[k],
        decreases a.len() - i,
    {
        if !chars_eq(a[i].as_slice(), b[i].as_slice()) {
            assert(views(a@)[i as int] != views(b@)[i as int]);
            return false;
        }
        i += 1;
    }
    assert(views(a@) =~= views(b@));
    true
}

/// The index of the last `c` in `s`.
pub fn last_index_exec(s: &[char], c: char) -> (r: Option<usize>)
    ensures
        r matches Some(k) ==> last_index_of(s@, c) == k as int,
        r is None ==> last_index_of(s@, c) == -1,
{
    let mut i = s.len();
    assert(s@.subrange(0, s@.len() as int) =~= s@);
    while i > 0
        invariant
            i <= s.len(),
            last_index_of(s@, c) == last_index_of(s@.subrange(0, i as int), c),
        decreases i,
    {
        assert(s@.subrange(0, i as int).drop_last() =~= s@.subrange(0, i - 1 as int));
        if s[i - 1] == c {
            return Some(i - 1);
        }
        i -= 1;
    }
    None
}

/// The stem of a file name.
pub fn stem_of_name(name: &[char]) -> (r: Vec<char>)
    ensures
        r@ == name_stem(name@),
{
    assert(name@.subrange(0, name@.len() as int) =~= name@);
    proof {
        lemma_last_index_bounds(name@, '.');
    }
    match last_index_exec(name, '.') {
        Some(k) => {
            if k == 0 {
                sub_chars(name, 0, name.len())
            } else {
                sub_chars(name, 0, k)
            }
        },
        None => sub_chars(name, 0, name.len()),
    }
}

/// The extension of a file name.
pub fn extension_of_name(name: &[char]) -> (r: Option<Vec<char>>)
    ensures
        r matches Some(e) ==> name_extension(name@) == Some(e@),
        r is None ==> name_extension(name@) is None,
{
    proof {
        lemma_last_index_bounds(name@, '.');
    }
    match last_index_exec(name, '.') {
        Some(k) => {
            if k == 0 {
                None
            } else {
                assert(k < name.len());
                Some(sub_chars(name, k + 1, name.len()))
            }
        },
        None => None,
    }
}

/// `last_index_of` lies in `-1..len`.
pub proof fn lemma_last_index_bounds(s: Seq<char>, c: char)
    ensures
        -1 <= last_index_of(s, c) < s.len(),
        last_index_of(s, c) >= 0 ==> s[last_index_of(s, c)] == c,
    decreases s.len(),
{
    if s.len() > 0 && s.last() != c {
        lemma_last_index_bounds(s.drop_last(), c);
    }
}

/// No piece of a split on '/' holds a '/'.
proof fn lemma_split_pieces_slash_free(s: Seq<char>, start: int)
    requires
        0 <= start <= s.len(),
    ensures
        forall|j: int|
            0 <= j < split_from(s, slash(), start).len() ==> !(#[trigger] split_from(
                s,
                slash(),
                start,
            )[j]).contains('/'),
    decreases s.len() - start,
{
    let sep = slash();
    lemma_find_from_bounds(s, sep, start);
    let pieces = split_from(s, sep, start);
    match find_from(s, sep, start) {
        None => {
            let piece = s.subrange(start, s.len() as int);
            assert(pieces == seq![piece]);
            if piece.contains('/') {
                let k = choose|k: int| 0 <= k < piece.len() && piece[k] == '/';
                assert(s.subrange(start + k, start + k + 1) =~= sep);
                assert(occurs_at(s, sep, start + k));
            }
        },
        Some(i) => {
            let piece = s.subrange(start, i);
            lemma_split_pieces_slash_free(s, i + 1);
            assert(pieces == seq![piece] + split_from(s, sep, i + 1));
            if piece.contains('/') {
                let k = choose|k: int| 0 <= k < piece.len() && piece[k] == '/';
                assert(s.subrange(start + k, start + k + 1) =~= sep);
                assert(occurs_at(s, sep, start + k));
            }
            assert forall|j: int| 0 <= j < pieces.len() implies !(#[trigger] pieces[j]).contains('/') by {
                if j > 0 {
                    assert(pieces[j] == split_from(s, sep, i + 1)[j - 1]);
                }
            }
        },
    }
}

/// The kept pieces are pieces that name something.
proof fn lemma_kept_pieces_from(parts: Seq<Seq<char>>)
    ensures
        forall|j: int|
            0 <= j < kept_pieces(parts).len() ==> kept_piece(#[trigger] kept_pieces(parts)[j])
                && parts.contains(kept_pieces(parts)[j]),
    decreases parts.len(),
{
    if parts.len() > 0 {
        lemma_kept_pieces_from(parts.drop_last());
        let rest = kept_pieces(parts.drop_last());
        assert forall|j: int| 0 <= j < kept_pieces(parts).len() implies kept_piece(
            #[trigger] kept_pieces(parts)[j],
        ) && parts.contains(kept_pieces(parts)[j]) by {
            if j < rest.len() {
                assert(kept_pieces(parts)[j] == rest[j]);
                let k = choose|k: int| 0 <= k < parts.drop_last().len() && parts.drop_last()[k] == rest[j];
                assert(parts[k] == rest[j]);
            } else {
                assert(kept_pieces(parts)[j] == parts.last());
                assert(parts[parts.len() - 1] == parts.last());
            }
        }
    }
}

/// A file name is never empty and never holds a '/'.
pub proof fn lemma_file_name_shape(s: Seq<char>)
    ensures
        file_name(s) matches Some(n) ==> n.len() > 0 && !n.contains('/'),
{
    let c = components(s);
    let head = (if has_root(s) {
        seq![slash()]
    } else {
        Seq::<Seq<char>>::empty()
    }) + (if has_cur_dir(s) {
        seq![dot()]
    } else {
        Seq::<Seq<char>>::empty()
    });
    let kept = kept_pieces(split(s, slash()));
    assert(c == head + kept);
    if c.len() > 0 && is_normal(c.last()) {
        if kept.len() == 0 {
            assert(c.last() == head.last());
            assert(c.last() == slash() || c.last() == dot());
        } else {
            assert(c.last() == kept[kept.len() - 1]);
            lemma_kept_pieces_from(split(s, slash()));
            lemma_split_pieces_slash_free(s, 0);
            let parts = split(s, slash());
            let k = choose|k: int| 0 <= k < parts.len() && parts[k] == kept[kept.len() - 1];
            assert(!parts[k].contains('/'));
        }
    }
}

} // verus!
