//! File references: a file on disk, an entry of a zip archive on disk, or an
//! entry of a zip archive that is itself an entry of a zip archive on disk.
//!
//! A reference is persisted as one string whose zip-internal parts are joined
//! with `//`: `D:/foo/pack.zip//sprites/hero.png`.

use vstd::prelude::*;
use vstd::std_specs::cmp::PartialEqSpecImpl;
use crate::path::{file_name, path_file_name, paths_equal, same_path};
use crate::text::{
    chars_eq, chars_of, concat_chars, join, join_from, lemma_find_from_exact, lemma_join_split,
    lemma_slashes_identity, lemma_split_none, lemma_split_shift, occurs_at, occurs_in,
    replace_backslashes, slashes, split, split_on, string_from, views,
};

verus! {

/// A file on disk or inside a (possibly nested) zip archive. Disk paths are
/// held as their text, and compared as paths: by their components.
#[derive(Debug, Clone, Eq)]
pub enum FileRef {
    Disk(String),
    ZipEntry { zip_path: String, entry: String },
    NestedZipEntry { outer_zip: String, inner_entry: String, entry: String },
}

/// The mathematical value of a `FileRef`: its parts as character sequences.
pub ghost enum FileRefView {
    Disk(Seq<char>),
    ZipEntry(Seq<char>, Seq<char>),
    NestedZipEntry(Seq<char>, Seq<char>, Seq<char>),
}

impl View for FileRef {
    type V = FileRefView;

    open spec fn view(&self) -> FileRefView {
        match self {
            FileRef::Disk(p) => FileRefView::Disk(p@),
            FileRef::ZipEntry { zip_path, entry } => FileRefView::ZipEntry(zip_path@, entry@),
            FileRef::NestedZipEntry { outer_zip, inner_entry, entry } => FileRefView::NestedZipEntry(
                outer_zip@,
                inner_entry@,
                entry@,
            ),
        }
    }
}

/// Two references name the same file: the same kind, paths equal by their
/// components and entry names equal as text.
pub open spec fn same_file(a: FileRefView, b: FileRefView) -> bool {
    match (a, b) {
        (FileRefView::Disk(p), FileRefView::Disk(q)) => same_path(p, q),
        (FileRefView::ZipEntry(z1, e1), FileRefView::ZipEntry(z2, e2)) => same_path(z1, z2) && e1
            == e2,
        (FileRefView::NestedZipEntry(o1, i1, e1), FileRefView::NestedZipEntry(o2, i2, e2)) =>
            same_path(o1, o2) && i1 == i2 && e1 == e2,
        _ => false,
    }
}

/// Whether two references are the same.
pub fn same_ref(a: &FileRef, b: &FileRef) -> (r: bool)
    ensures
        r == same_file(a@, b@),
{
    match (a, b) {
        (FileRef::Disk(p), FileRef::Disk(q)) => paths_equal(
            chars_of(p.as_str()).as_slice(),
            chars_of(q.as_str()).as_slice(),
        ),
        (
            FileRef::ZipEntry { zip_path: z1, entry: e1 },
            FileRef::ZipEntry { zip_path: z2, entry: e2 },
        ) => paths_equal(chars_of(z1.as_str()).as_slice(), chars_of(z2.as_str()).as_slice())
            && chars_eq(chars_of(e1.as_str()).as_slice(), chars_of(e2.as_str()).as_slice()),
        (
            FileRef::NestedZipEntry { outer_zip: o1, inner_entry: i1, entry: e1 },
            FileRef::NestedZipEntry { outer_zip: o2, inner_entry: i2, entry: e2 },
        ) => paths_equal(chars_of(o1.as_str()).as_slice(), chars_of(o2.as_str()).as_slice())
            && chars_eq(chars_of(i1.as_str()).as_slice(), chars_of(i2.as_str()).as_slice())
            && chars_eq(chars_of(e1.as_str()).as_slice(), chars_of(e2.as_str()).as_slice()),
        _ => false,
    }
}


impl PartialEq for FileRef {
    fn eq(&self, other: &Self) -> (r: bool) {
        same_ref(self, other)
    }
}

impl PartialEqSpecImpl for FileRef {
    open spec fn obeys_eq_spec() -> bool {
        true
    }

    open spec fn eq_spec(&self, other: &FileRef) -> bool {
        same_file(self@, other@)
    }
}

/// The separator between an archive path and the entry inside it: "//".
pub open spec fn zip_sep() -> Seq<char> {
    seq!['/', '/']
}

/// The persisted string of a reference; backslashes in the disk path part are
/// written as forward slashes.
pub open spec fn repr_of(f: FileRefView) -> Seq<char> {
    match f {
        FileRefView::Disk(p) => slashes(p),
        FileRefView::ZipEntry(z, e) => slashes(z) + zip_sep() + e,
        FileRefView::NestedZipEntry(o, i, e) => slashes(o) + zip_sep() + i + zip_sep() + e,
    }
}

/// The reference a persisted string denotes: one "//"-separated piece is a
/// disk path, two are an archive and its entry, more are an outer archive,
/// an inner archive entry and the rest re-joined with "//".
pub open spec fn parse_ref(s: Seq<char>) -> FileRefView {
    let segs = split(s, zip_sep());
    if segs.len() <= 1 {
        FileRefView::Disk(segs[0])
    } else if segs.len() == 2 {
        FileRefView::ZipEntry(segs[0], segs[1])
    } else {
        FileRefView::NestedZipEntry(
            segs[0],
            segs[1],
            join(segs.subrange(2, segs.len() as int), zip_sep()),
        )
    }
}

/// The name shown for a reference: the final path component of the disk
/// path or of the entry, or "?" when there is none.
pub open spec fn display_name_of(f: FileRefView) -> Seq<char> {
    let p = match f {
        FileRefView::Disk(p) => p,
        FileRefView::ZipEntry(_, e) => e,
        FileRefView::NestedZipEntry(_, _, e) => e,
    };
    match file_name(p) {
        Some(n) => n,
        None => seq!['?'],
    }
}

/// A path part that can precede a "//" separator and be read back: it holds
/// no "//" and does not end with '/'.
pub open spec fn sep_free_head(s: Seq<char>) -> bool {
    !occurs_in(s, zip_sep()) && !(s.len() > 0 && s.last() == '/')
}

/// A reference whose persisted string parses back to it: disk parts hold no
/// backslash, and no part before the last holds "//" (nor, when followed by
/// a separator, ends with '/').
pub open spec fn round_trips(f: FileRefView) -> bool {
    match f {
        FileRefView::Disk(p) => !p.contains('\\') && !occurs_in(p, zip_sep()),
        FileRefView::ZipEntry(z, e) => !z.contains('\\') && sep_free_head(z) && !occurs_in(
            e,
            zip_sep(),
        ),
        FileRefView::NestedZipEntry(o, i, e) => !o.contains('\\') && sep_free_head(o)
            && sep_free_head(i),
    }
}

/// Splitting `a + "//" + b` on "//" cuts at the first separator when `a`
/// can precede one.
proof fn lemma_split_after_head(a: Seq<char>, b: Seq<char>)
    requires
        sep_free_head(a),
    ensures
        split(a + zip_sep() + b, zip_sep()) == seq![a] + split(b, zip_sep()),
{
    let sep = zip_sep();
    let x = a + sep + b;
    assert(x.subrange(a.len() as int, a.len() as int + 2) =~= sep);
    assert forall|k: int| 0 <= k < a.len() implies !occurs_at(x, sep, k) by {
        if k + 2 <= a.len() {
            assert(x.subrange(k, k + 2) =~= a.subrange(k, k + 2));
            if occurs_at(x, sep, k) {
                assert(occurs_at(a, sep, k));
            }
        } else {
            assert(x[k] == a.last());
            if occurs_at(x, sep, k) {
                assert(x.subrange(k, k + 2)[0] == x[k]);
            }
        }
    }
    lemma_find_from_exact(x, sep, 0, a.len() as int);
    assert(x.subrange(0, a.len() as int) =~= a);
    assert(x =~= (a + sep) + b);
    lemma_split_shift(a + sep, b, sep, 0);
}

/// Law: a reference whose parts satisfy `round_trips` is read back unchanged
/// from its persisted string.
pub proof fn lemma_parse_of_repr(f: FileRef)
    requires
        round_trips(f@),
    ensures
        parse_ref(repr_of(f@)) == f@,
{
    let sep = zip_sep();
    match f@ {
        FileRefView::Disk(p) => {
            lemma_slashes_identity(p);
            lemma_split_none(p, sep);
        },
        FileRefView::ZipEntry(z, e) => {
            lemma_slashes_identity(z);
            lemma_split_after_head(z, e);
            lemma_split_none(e, sep);
            let segs = split(z + sep + e, sep);
            assert(segs =~= seq![z, e]);
        },
        FileRefView::NestedZipEntry(o, i, e) => {
            lemma_slashes_identity(o);
            assert(o + sep + i + sep + e =~= o + sep + (i + sep + e));
            lemma_split_after_head(o, i + sep + e);
            lemma_split_after_head(i, e);
            lemma_join_split(e, sep);
            let segs = split(o + sep + i + sep + e, sep);
            assert(segs =~= seq![o, i] + split(e, sep));
            assert(segs.subrange(2, segs.len() as int) =~= split(e, sep));
        },
    }
}

/// Law: a string whose first "//"-separated piece (the disk path) holds no
/// backslash is written back unchanged after being read as a reference.
pub proof fn lemma_repr_of_parse(s: &str)
    requires
        !split(s@, zip_sep())[0].contains('\\'),
    ensures
        repr_of(parse_ref(s@)) == s@,
{
    let sep = zip_sep();
    let t = s@;
    lemma_join_split(t, sep);
    let segs = split(t, sep);
    let rest = join(segs.drop_first(), sep);
    if segs.len() == 1 {
        lemma_slashes_identity(segs[0]);
    } else {
        assert(t == segs[0] + sep + rest);
        lemma_slashes_identity(segs[0]);
        if segs.len() == 2 {
            assert(segs.drop_first() =~= seq![segs[1]]);
        } else {
            let tail = segs.drop_first();
            assert(tail.len() >= 2);
            assert(join(tail, sep) == tail[0] + sep + join(tail.drop_first(), sep));
            assert(tail.drop_first() =~= segs.subrange(2, segs.len() as int));
            assert(segs[0] + sep + (segs[1] + sep + join(tail.drop_first(), sep)) =~= segs[0] + sep
                + segs[1] + sep + join(tail.drop_first(), sep));
        }
    }
}

impl FileRef {
    /// The persisted string of this reference.
    pub fn to_string_repr(&self) -> (r: String)
        ensures
            r@ == repr_of(self@),
    {
        let sep: Vec<char> = vec!['/', '/'];
        assert(sep@ =~= zip_sep());
        match self {
            FileRef::Disk(p) => {
                let c = chars_of(p.as_str());
                string_from(replace_backslashes(c.as_slice()).as_slice())
            },
            FileRef::ZipEntry { zip_path, entry } => {
                let z = replace_backslashes(chars_of(zip_path.as_str()).as_slice());
                let a = concat_chars(z.as_slice(), sep.as_slice());
                let b = concat_chars(a.as_slice(), chars_of(entry.as_str()).as_slice());
                string_from(b.as_slice())
            },
            FileRef::NestedZipEntry { outer_zip, inner_entry, entry } => {
                let o = replace_backslashes(chars_of(outer_zip.as_str()).as_slice());
                let a = concat_chars(o.as_slice(), sep.as_slice());
                let b = concat_chars(a.as_slice(), chars_of(inner_entry.as_str()).as_slice());
                let c = concat_chars(b.as_slice(), sep.as_slice());
                let d = concat_chars(c.as_slice(), chars_of(entry.as_str()).as_slice());
                string_from(d.as_slice())
            },
        }
    }

    /// The reference a persisted string denotes.
    pub fn from_string(s: &str) -> (r: FileRef)
        ensures
            r@ == parse_ref(s@),
    {
        let sep: Vec<char> = vec!['/', '/'];
        assert(sep@ =~= zip_sep());
        let cs = chars_of(s);
        let segs = split_on(cs.as_slice(), sep.as_slice());
        proof {
            lemma_join_split(s@, zip_sep());
        }
        assert(views(segs@)[0] == segs@[0]@);
        if segs.len() == 1 {
            FileRef::Disk(string_from(segs[0].as_slice()))
        } else if segs.len() == 2 {
            assert(views(segs@)[1] == segs@[1]@);
            FileRef::ZipEntry {
                zip_path: string_from(segs[0].as_slice()),
                entry: string_from(segs[1].as_slice()),
            }
        } else {
            assert(views(segs@)[1] == segs@[1]@);
            let rest = join_from(&segs, 2, sep.as_slice());
            FileRef::NestedZipEntry {
                outer_zip: string_from(segs[0].as_slice()),
                inner_entry: string_from(segs[1].as_slice()),
                entry: string_from(rest.as_slice()),
            }
        }
    }

    /// The final component of the disk path or entry, or "?".
    pub fn display_name(&self) -> (r: String)
        ensures
            r@ == display_name_of(self@),
    {
        let p = match self {
            FileRef::Disk(p) => p,
            FileRef::ZipEntry { entry, .. } => entry,
            FileRef::NestedZipEntry { entry, .. } => entry,
        };
        match path_file_name(chars_of(p.as_str()).as_slice()) {
            Some(n) => string_from(n.as_slice()),
            None => {
                let q: Vec<char> = vec!['?'];
                assert(q@ =~= seq!['?']);
                string_from(q.as_slice())
            },
        }
    }
}

/// Law: the name shown for an archive entry is the name shown for a disk
/// file at the entry's path, whatever the archives; and every shown name is
/// non-empty and holds no '/'.
pub proof fn lemma_display_name_shape(f: FileRefView)
    ensures
        display_name_of(f).len() > 0,
        !display_name_of(f).contains('/'),
        f matches FileRefView::ZipEntry(_, e) ==> display_name_of(f) == display_name_of(
            FileRefView::Disk(e),
        ),
        f matches FileRefView::NestedZipEntry(_, _, e) ==> display_name_of(f) == display_name_of(
            FileRefView::Disk(e),
        ),
{
    let p = match f {
        FileRefView::Disk(p) => p,
        FileRefView::ZipEntry(_, e) => e,
        FileRefView::NestedZipEntry(_, _, e) => e,
    };
    crate::path::lemma_file_name_shape(p);
    if file_name(p) is None {
        assert(seq!['?'].len() > 0);
        if seq!['?'].contains('/') {
            let k = choose|k: int| 0 <= k < seq!['?'].len() && seq!['?'][k] == '/';
            assert(seq!['?'][0] == '?');
        }
    }
}

} // verus!
