//! The decisions of the file browser: which files count as images, the
//! names shown for paths, the tree nodes a path opens, the children of a
//! directory inside an archive, the siblings a selection steps through and
//! where the selection moves on a key press.

use vstd::prelude::*;
use vstd::relations::sorted_by;
use crate::archive::{insert_sorted, is_dir_name, lemma_sorted_is_sort, lex_order, strings_of};
use crate::file_ref::{parse_ref, repr_of, same_file, same_ref, zip_sep, FileRef, FileRefView};
use crate::path::{last_index_exec, last_index_of, lemma_last_index_bounds};
use crate::sorted::{has_member, insert_member, remove_member, strictly_sorted};
use crate::text::{
    ascii_lower, chars_eq, chars_of, concat_chars, ends_with, find_from, find_seq, is_prefix, is_suffix,
    replace_backslashes, slashes, split, split_on, starts_with, str_views, string_from,
    sub_chars, to_ascii_lower, views,
};

verus! {

broadcast use vstd::seq_lib::group_to_multiset_ensures;

// ---------------------------------------------------------------------------
// Image names
// ---------------------------------------------------------------------------

/// A name with a recognised image extension, in any ASCII case.
pub open spec fn image_name(name: Seq<char>) -> bool {
    let l = ascii_lower(name);
    ||| is_suffix(seq!['.', 'p', 'n', 'g'], l)
    ||| is_suffix(seq!['.', 'b', 'm', 'p'], l)
    ||| is_suffix(seq!['.', 'j', 'p', 'g'], l)
    ||| is_suffix(seq!['.', 'j', 'p', 'e', 'g'], l)
    ||| is_suffix(seq!['.', 'g', 'i', 'f'], l)
}

/// Recognized image extensions.
pub fn is_image_file(name: &str) -> (r: bool)
    ensures
        r == image_name(name@),
{
    let l = to_ascii_lower(chars_of(name).as_slice());
    let png: Vec<char> = vec!['.', 'p', 'n', 'g'];
    let bmp: Vec<char> = vec!['.', 'b', 'm', 'p'];
    let jpg: Vec<char> = vec!['.', 'j', 'p', 'g'];
    let jpeg: Vec<char> = vec!['.', 'j', 'p', 'e', 'g'];
    let gif: Vec<char> = vec!['.', 'g', 'i', 'f'];
    ends_with(l.as_slice(), png.as_slice()) || ends_with(l.as_slice(), bmp.as_slice())
        || ends_with(l.as_slice(), jpg.as_slice()) || ends_with(l.as_slice(), jpeg.as_slice())
        || ends_with(l.as_slice(), gif.as_slice())
}

// ---------------------------------------------------------------------------
// Short names
// ---------------------------------------------------------------------------

/// The text without its trailing slashes.
pub open spec fn trim_end_slashes(s: Seq<char>) -> Seq<char>
    decreases s.len(),
{
    if s.len() > 0 && s.last() == '/' {
        trim_end_slashes(s.drop_last())
    } else {
        s
    }
}

/// What follows the last '/', or the whole text when it has none.
pub open spec fn last_segment(s: Seq<char>) -> Seq<char> {
    s.subrange(last_index_of(s, '/') + 1, s.len() as int)
}

/// The name shown for a path: its last segment once trailing slashes are
/// dropped.
pub open spec fn short_name_of(path: Seq<char>) -> Seq<char> {
    last_segment(trim_end_slashes(path))
}

/// `trim_end_slashes` keeps a prefix of the text.
proof fn lemma_trim_end_prefix(s: Seq<char>)
    ensures
        trim_end_slashes(s) == s.subrange(0, trim_end_slashes(s).len() as int),
        trim_end_slashes(s).len() <= s.len(),
    decreases s.len(),
{
    if s.len() > 0 && s.last() == '/' {
        lemma_trim_end_prefix(s.drop_last());
        assert(s.drop_last().subrange(0, trim_end_slashes(s).len() as int) =~= s.subrange(
            0,
            trim_end_slashes(s).len() as int,
        ));
    } else {
        assert(s.subrange(0, s.len() as int) =~= s);
    }
}

/// The last segment of a path once trailing slashes are dropped.
pub fn short_name(path: &str) -> (r: String)
    ensures
        r@ == short_name_of(path@),
{
    let s = chars_of(path);
    let mut j = s.len();
    assert(s@.subrange(0, j as int) =~= s@);
    while j > 0 && s[j - 1] == '/'
        invariant
            j <= s.len(),
            trim_end_slashes(s@) == trim_end_slashes(s@.subrange(0, j as int)),
        decreases j,
    {
        assert(s@.subrange(0, j as int).drop_last() =~= s@.subrange(0, j - 1 as int));
        j -= 1;
    }
    let t = sub_chars(s.as_slice(), 0, j);
    assert(trim_end_slashes(s@) == t@);
    proof {
        lemma_last_index_bounds(t@, '/');
    }
    let start = match last_index_exec(t.as_slice(), '/') {
        Some(k) => k + 1,
        None => 0,
    };
    string_from(sub_chars(t.as_slice(), start, t.len()).as_slice())
}

/// What follows the last '/' of `s`, or all of `s`.
pub fn last_segment_chars(s: &[char]) -> (r: Vec<char>)
    ensures
        r@ == last_segment(s@),
{
    proof {
        lemma_last_index_bounds(s@, '/');
    }
    let start = match last_index_exec(s, '/') {
        Some(k) => {
            assert(k < s.len());
            k + 1
        },
        None => 0,
    };
    sub_chars(s, start, s.len())
}

// ---------------------------------------------------------------------------
// Tree nodes opened for a path
// ---------------------------------------------------------------------------

/// The ancestor keys contributed by the pieces from `i` on, where `acc` is
/// the key built so far: each non-empty piece extends it, and the extended
/// key is opened before a '/' is appended for the next piece.
pub open spec fn ancestors_from(parts: Seq<Seq<char>>, i: int, acc: Seq<char>) -> Seq<Seq<char>>
    decreases parts.len() - i,
{
    if i < 0 || i >= parts.len() {
        seq![]
    } else if parts[i].len() == 0 {
        ancestors_from(parts, i + 1, acc)
    } else {
        seq![acc + parts[i]] + ancestors_from(parts, i + 1, (acc + parts[i]).push('/'))
    }
}

/// The keys of the directories on the way to the disk path `n` (slashes
/// only): the first piece with a '/', then each deeper directory, ending
/// with `n` itself when its last piece is not empty.
pub open spec fn disk_ancestors(n: Seq<char>) -> Seq<Seq<char>> {
    let parts = split(n, seq!['/']);
    let first = parts[0].push('/');
    seq![first] + ancestors_from(parts, 1, first)
}

/// The tree keys of the folders of an archive entry `e`, from index `i` on:
/// for each '/' of the entry, the archive's key `base`, "//" and the entry
/// up to and including that '/' (the key the tree gives that folder).
pub open spec fn folder_keys_from(base: Seq<char>, e: Seq<char>, i: int) -> Seq<Seq<char>>
    decreases e.len() - i,
{
    if i < 0 || i >= e.len() {
        seq![]
    } else if e[i] == '/' {
        seq![base + zip_sep() + e.subrange(0, i + 1)] + folder_keys_from(base, e, i + 1)
    } else {
        folder_keys_from(base, e, i + 1)
    }
}

/// The tree-node keys to open so that the file (or folder) `path`, in its
/// persisted form, shows: the directories down to it on disk, and for an
/// archive entry the archive's folders holding it (for a nested archive,
/// the inner archive's node and its folders too), then `path` itself.
pub open spec fn ancestor_keys(path: Seq<char>) -> Seq<Seq<char>> {
    let f = parse_ref(path);
    let tail = seq![repr_of(f)];
    match f {
        FileRefView::Disk(p) => disk_ancestors(slashes(p)) + tail,
        FileRefView::ZipEntry(z, e) => disk_ancestors(slashes(z)) + folder_keys_from(slashes(z), e, 0)
            + tail,
        FileRefView::NestedZipEntry(o, i, e) => {
            let inner = slashes(o) + zip_sep() + i;
            disk_ancestors(slashes(o)) + folder_keys_from(slashes(o), i, 0) + seq![inner]
                + folder_keys_from(inner, e, 0) + tail
        },
    }
}

/// The directory keys down to the disk path `n`.
fn disk_ancestor_keys(n: &[char]) -> (r: Vec<String>)
    ensures
        str_views(r@) == disk_ancestors(n@),
{
    let sep: Vec<char> = vec!['/'];
    let parts = split_on(n, sep.as_slice());
    proof {
        crate::text::lemma_join_split(n@, seq!['/']);
        assert(sep@ =~= seq!['/']);
    }
    let ghost ps = views(parts@);
    assert(ps[0] == parts@[0]@);
    let mut first = sub_chars(parts[0].as_slice(), 0, parts[0].len());
    first.push('/');
    assert(parts@[0]@.subrange(0, parts@[0]@.len() as int) =~= parts@[0]@);
    let mut r: Vec<String> = Vec::new();
    r.push(string_from(first.as_slice()));
    let mut acc = first;
    let mut i: usize = 1;
    assert(str_views(r@) =~= seq![ps[0].push('/')]);
    while i < parts.len()
        invariant
            1 <= i <= parts.len(),
            ps == views(parts@),
            ps.len() == parts.len(),
            str_views(r@) + ancestors_from(ps, i as int, acc@) == seq![ps[0].push('/')]
                + ancestors_from(ps, 1, ps[0].push('/')),
        decreases parts.len() - i,
    {
        assert(ps[i as int] == parts@[i as int]@);
        if parts[i].len() > 0 {
            let next = concat_chars(acc.as_slice(), parts[i].as_slice());
            let ghost before = str_views(r@);
            r.push(string_from(next.as_slice()));
            assert(str_views(r@) =~= before.push(next@));
            assert(before + ancestors_from(ps, i as int, acc@) =~= str_views(r@) + ancestors_from(
                ps,
                i + 1,
                next@.push('/'),
            ));
            acc = next;
            acc.push('/');
        }
        i += 1;
    }
    assert(ancestors_from(ps, parts.len() as int, acc@) =~= Seq::<Seq<char>>::empty());
    assert(str_views(r@) =~= disk_ancestors(n@));
    r
}

/// Appends the tree keys of the folders of the entry `e` of the archive
/// keyed `base`.
fn push_folder_keys(r: &mut Vec<String>, base: &[char], e: &[char])
    ensures
        str_views(final(r)@) == str_views(old(r)@) + folder_keys_from(base@, e@, 0),
{
    let sep: Vec<char> = vec!['/', '/'];
    assert(sep@ =~= zip_sep());
    let head = concat_chars(base, sep.as_slice());
    let mut i: usize = 0;
    while i < e.len()
        invariant
            i <= e.len(),
            head@ == base@ + zip_sep(),
            str_views(r@) + folder_keys_from(base@, e@, i as int) == str_views(old(r)@)
                + folder_keys_from(base@, e@, 0),
        decreases e.len() - i,
    {
        if e[i] == '/' {
            let key = concat_chars(head.as_slice(), sub_chars(e, 0, i + 1).as_slice());
            let ghost before = str_views(r@);
            r.push(string_from(key.as_slice()));
            assert(str_views(r@) =~= before.push(key@));
            assert(key@ == base@ + zip_sep() + e@.subrange(0, i + 1));
            assert(before + folder_keys_from(base@, e@, i as int) =~= str_views(r@)
                + folder_keys_from(base@, e@, i + 1));
        }
        i += 1;
    }
    assert(folder_keys_from(base@, e@, e.len() as int) =~= Seq::<Seq<char>>::empty());
    assert(str_views(r@) =~= str_views(old(r)@) + folder_keys_from(base@, e@, 0));
}

/// Appends a string to a list of strings.
fn push_key(r: &mut Vec<String>, key: &[char])
    ensures
        str_views(final(r)@) == str_views(old(r)@).push(key@),
{
    let ghost before = str_views(r@);
    r.push(string_from(key));
    assert(str_views(r@) =~= before.push(key@));
}

/// The keys of the tree nodes that must be open (and are forced open) for
/// the file or folder `path` (in its persisted form) to show, in the order
/// they are opened.
pub fn expand_path_ancestors(path: &str) -> (r: Vec<String>)
    ensures
        str_views(r@) == ancestor_keys(path@),
{
    let f = FileRef::from_string(path);
    let whole = chars_of(f.to_string_repr().as_str());
    match &f {
        FileRef::Disk(p) => {
            let n = replace_backslashes(chars_of(p.as_str()).as_slice());
            let mut r = disk_ancestor_keys(n.as_slice());
            push_key(&mut r, whole.as_slice());
            r
        },
        FileRef::ZipEntry { zip_path, entry } => {
            let z = replace_backslashes(chars_of(zip_path.as_str()).as_slice());
            let mut r = disk_ancestor_keys(z.as_slice());
            push_folder_keys(&mut r, z.as_slice(), chars_of(entry.as_str()).as_slice());
            push_key(&mut r, whole.as_slice());
            r
        },
        FileRef::NestedZipEntry { outer_zip, inner_entry, entry } => {
            let o = replace_backslashes(chars_of(outer_zip.as_str()).as_slice());
            let ic = chars_of(inner_entry.as_str());
            let mut r = disk_ancestor_keys(o.as_slice());
            push_folder_keys(&mut r, o.as_slice(), ic.as_slice());
            let sep: Vec<char> = vec!['/', '/'];
            assert(sep@ =~= zip_sep());
            let inner = concat_chars(concat_chars(o.as_slice(), sep.as_slice()).as_slice(), ic.as_slice());
            push_key(&mut r, inner.as_slice());
            push_folder_keys(&mut r, inner.as_slice(), chars_of(entry.as_str()).as_slice());
            push_key(&mut r, whole.as_slice());
            r
        },
    }
}

// ---------------------------------------------------------------------------
// Directories inside an archive listing
// ---------------------------------------------------------------------------

/// What follows `prefix` in the entry `e`, when `e` starts with it and goes
/// on past it.
pub open spec fn entry_suffix(prefix: Seq<char>, e: Seq<char>) -> Option<Seq<char>> {
    if is_prefix(prefix, e) && e.len() > prefix.len() {
        Some(e.subrange(prefix.len() as int, e.len() as int))
    } else {
        None
    }
}

/// The subdirectory of `prefix` that holds the entry `e`: `prefix`, the
/// first segment after it and a '/', when more segments follow.
pub open spec fn subdir_of(prefix: Seq<char>, e: Seq<char>) -> Option<Seq<char>> {
    match entry_suffix(prefix, e) {
        Some(s) => match find_from(s, seq!['/'], 0) {
            Some(k) => Some(prefix + s.subrange(0, k).push('/')),
            None => None,
        },
        None => None,
    }
}

/// The entry lies directly in `prefix`: something follows the prefix and
/// holds no '/'.
pub open spec fn directly_in(prefix: Seq<char>, e: Seq<char>) -> bool {
    match entry_suffix(prefix, e) {
        Some(s) => find_from(s, seq!['/'], 0) is None,
        None => false,
    }
}

/// The subdirectories of `prefix` that hold some entry.
pub open spec fn subdir_set(prefix: Seq<char>, entries: Seq<Seq<char>>) -> Set<Seq<char>>
    decreases entries.len(),
{
    if entries.len() == 0 {
        Set::empty()
    } else {
        let rest = subdir_set(prefix, entries.drop_last());
        match subdir_of(prefix, entries.last()) {
            Some(d) => rest.insert(d),
            None => rest,
        }
    }
}

/// The entries lying directly in `prefix`, in listing order.
pub open spec fn files_in(prefix: Seq<char>, entries: Seq<Seq<char>>) -> Seq<Seq<char>>
    decreases entries.len(),
{
    if entries.len() == 0 {
        seq![]
    } else {
        let rest = files_in(prefix, entries.drop_last());
        if directly_in(prefix, entries.last()) {
            rest.push(entries.last())
        } else {
            rest
        }
    }
}

/// The children of a directory inside an archive: its subdirectories, each
/// ending in '/', and its files.
pub struct DirChildren {
    pub subdirs: Vec<String>,
    pub files: Vec<String>,
}

/// The subdirectories (sorted, each once) and the files (in listing order)
/// directly below `prefix` in an archive listing; `prefix` is empty for the
/// archive's top level and otherwise ends in '/'.
pub fn zip_dir_children(entries: &Vec<String>, prefix: &str) -> (r: DirChildren)
    ensures
        strictly_sorted(str_views(r.subdirs@)),
        forall|y: Seq<char>| #[trigger] str_views(r.subdirs@).contains(y) <==> subdir_set(
            prefix@,
            str_views(entries@),
        ).contains(y),
        str_views(r.files@) == files_in(prefix@, str_views(entries@)),
{
    let p = chars_of(prefix);
    let slash: Vec<char> = vec!['/'];
    assert(slash@ =~= seq!['/']);
    let ghost es = str_views(entries@);
    let mut subdirs: Vec<String> = Vec::new();
    let mut files: Vec<String> = Vec::new();
    let mut i: usize = 0;
    assert(str_views(files@) =~= files_in(prefix@, es.subrange(0, 0)));
    while i < entries.len()
        invariant
            i <= entries.len(),
            p@ == prefix@,
            slash@ == seq!['/'],
            es == str_views(entries@),
            strictly_sorted(str_views(subdirs@)),
            forall|y: Seq<char>| #[trigger] str_views(subdirs@).contains(y) <==> subdir_set(
                prefix@,
                es.subrange(0, i as int),
            ).contains(y),
            str_views(files@) == files_in(prefix@, es.subrange(0, i as int)),
        decreases entries.len() - i,
    {
        let ghost pre = es.subrange(0, i as int);
        assert(es.subrange(0, i + 1).drop_last() =~= pre);
        assert(es.subrange(0, i + 1).last() == es[i as int]);
        let e = chars_of(entries[i].as_str());
        assert(e@ == es[i as int]);
        if starts_with(e.as_slice(), p.as_slice()) && e.len() > p.len() {
            let suffix = sub_chars(e.as_slice(), p.len(), e.len());
            assert(entry_suffix(prefix@, e@) == Some(suffix@));
            match find_seq(suffix.as_slice(), slash.as_slice(), 0) {
                Some(k) => {
                    proof {
                        crate::text::lemma_find_from_bounds(suffix@, seq!['/'], 0);
                    }
                    let mut d = concat_chars(p.as_slice(), sub_chars(suffix.as_slice(), 0, k).as_slice());
                    d.push('/');
                    let ds = string_from(d.as_slice());
                    assert(subdir_of(prefix@, e@) == Some(ds@));
                    insert_member(&mut subdirs, ds.as_str());
                    assert(str_views(files@) == files_in(prefix@, es.subrange(0, i + 1)));
                },
                None => {
                    let ghost before = str_views(files@);
                    files.push(entries[i].clone());
                    assert(str_views(files@) =~= before.push(es[i as int]));
                },
            }
        } else {
            assert(entry_suffix(prefix@, e@) is None);
        }
        i += 1;
    }
    assert(es.subrange(0, entries.len() as int) =~= es);
    DirChildren { subdirs, files }
}

// ---------------------------------------------------------------------------
// A directory on disk in the tree
// ---------------------------------------------------------------------------

/// The deepest directory level the tree shows.
pub const MAX_TREE_DEPTH: usize = 15;

/// Whether the tree shows the contents of a directory at `depth`.
pub fn tree_depth_shown(depth: usize) -> (r: bool)
    ensures
        r == (depth <= MAX_TREE_DEPTH),
{
    depth <= MAX_TREE_DEPTH
}

/// The paths of the entries that are directories (`want_dirs`) or files,
/// in the order given.
pub open spec fn entries_of_kind(es: Seq<(String, bool)>, want_dirs: bool) -> Seq<Seq<char>>
    decreases es.len(),
{
    if es.len() == 0 {
        seq![]
    } else {
        let rest = entries_of_kind(es.drop_last(), want_dirs);
        if es.last().1 == want_dirs {
            rest.push(es.last().0@)
        } else {
            rest
        }
    }
}

/// The entries of a directory on disk as the tree shows them: its
/// subdirectories, sorted, then its files, sorted. Each entry is its path
/// and whether it is a directory.
pub fn dir_listing(entries: &Vec<(String, bool)>) -> (r: DirChildren)
    ensures
        str_views(r.subdirs@) == entries_of_kind(entries@, true).sort_by(lex_order()),
        str_views(r.files@) == entries_of_kind(entries@, false).sort_by(lex_order()),
{
    let mut dirs: Vec<Vec<char>> = Vec::new();
    let mut files: Vec<Vec<char>> = Vec::new();
    let mut i: usize = 0;
    assert(views(dirs@) =~= entries_of_kind(entries@.subrange(0, 0), true));
    assert(views(files@) =~= entries_of_kind(entries@.subrange(0, 0), false));
    while i < entries.len()
        invariant
            i <= entries.len(),
            sorted_by(views(dirs@), lex_order()),
            sorted_by(views(files@), lex_order()),
            views(dirs@).to_multiset() == entries_of_kind(entries@.subrange(0, i as int), true).to_multiset(),
            views(files@).to_multiset() == entries_of_kind(entries@.subrange(0, i as int), false).to_multiset(),
        decreases entries.len() - i,
    {
        assert(entries@.subrange(0, i + 1).drop_last() =~= entries@.subrange(0, i as int));
        let c = chars_of(entries[i].0.as_str());
        if entries[i].1 {
            insert_sorted(&mut dirs, c);
        } else {
            insert_sorted(&mut files, c);
        }
        i += 1;
    }
    proof {
        assert(entries@.subrange(0, entries.len() as int) =~= entries@);
        lemma_sorted_is_sort(views(dirs@), entries_of_kind(entries@, true));
        lemma_sorted_is_sort(views(files@), entries_of_kind(entries@, false));
    }
    DirChildren { subdirs: strings_of(&dirs), files: strings_of(&files) }
}

// ---------------------------------------------------------------------------
// Siblings of a selection
// ---------------------------------------------------------------------------

/// The directory part of an archive entry: everything up to and including
/// its last '/', or nothing.
pub open spec fn entry_dir(entry: Seq<char>) -> Seq<char> {
    entry.subrange(0, last_index_of(entry, '/') + 1)
}

/// A listed name that is a file of the directory `prefix`: not a directory
/// name, starting with `prefix`, with no '/' after it.
pub open spec fn sibling_name(prefix: Seq<char>, name: Seq<char>) -> bool {
    &&& !is_dir_name(name)
    &&& is_prefix(prefix, name)
    &&& find_from(name.subrange(prefix.len() as int, name.len() as int), seq!['/'], 0) is None
}

/// The names among `names` that are files of `prefix`, in order.
pub open spec fn sibling_names(prefix: Seq<char>, names: Seq<Seq<char>>) -> Seq<Seq<char>>
    decreases names.len(),
{
    if names.len() == 0 {
        seq![]
    } else {
        let rest = sibling_names(prefix, names.drop_last());
        if sibling_name(prefix, names.last()) {
            rest.push(names.last())
        } else {
            rest
        }
    }
}

/// The files that the selection `f` steps through, given `candidates`: for
/// a file on disk, the paths of the files in its directory; for an archive
/// entry, the names the archive holds.
pub open spec fn sibling_refs(f: FileRefView, candidates: Seq<Seq<char>>) -> Seq<FileRefView> {
    match f {
        FileRefView::Disk(_) => candidates.sort_by(lex_order()).map_values(
            |p: Seq<char>| FileRefView::Disk(p),
        ),
        FileRefView::ZipEntry(z, e) => sibling_names(entry_dir(e), candidates).sort_by(
            lex_order(),
        ).map_values(|n: Seq<char>| FileRefView::ZipEntry(z, n)),
        FileRefView::NestedZipEntry(o, i, e) => sibling_names(entry_dir(e), candidates).sort_by(
            lex_order(),
        ).map_values(|n: Seq<char>| FileRefView::NestedZipEntry(o, i, n)),
    }
}

/// The views of a sequence of references.
pub open spec fn ref_views(v: Seq<FileRef>) -> Seq<FileRefView> {
    v.map_values(|f: FileRef| f@)
}

/// A copy of a string, by its characters.
fn copy_string(s: &String) -> (r: String)
    ensures
        r@ == s@,
{
    string_from(chars_of(s.as_str()).as_slice())
}

/// The files `file_ref` steps through, sorted: for a file on disk the
/// `candidates` are the paths of the files in its directory; for an archive
/// entry they are the names the archive holds, of which the files in the
/// entry's directory are kept.
pub fn sibling_files(file_ref: &FileRef, candidates: &Vec<String>) -> (r: Vec<FileRef>)
    ensures
        ref_views(r@) == sibling_refs(file_ref@, str_views(candidates@)),
{
    let ghost cs = str_views(candidates@);
    let entry = match file_ref {
        FileRef::Disk(_) => None,
        FileRef::ZipEntry { entry, .. } => Some(entry),
        FileRef::NestedZipEntry { entry, .. } => Some(entry),
    };
    let mut acc: Vec<Vec<char>> = Vec::new();
    let ghost kept: Seq<Seq<char>>;
    match entry {
        None => {
            let mut i: usize = 0;
            assert(views(acc@) =~= cs.subrange(0, 0));
            while i < candidates.len()
                invariant
                    i <= candidates.len(),
                    cs == str_views(candidates@),
                    sorted_by(views(acc@), lex_order()),
                    views(acc@).to_multiset() == cs.subrange(0, i as int).to_multiset(),
                decreases candidates.len() - i,
            {
                assert(cs.subrange(0, i + 1) =~= cs.subrange(0, i as int).push(cs[i as int]));
                insert_sorted(&mut acc, chars_of(candidates[i].as_str()));
                i += 1;
            }
            assert(cs.subrange(0, candidates.len() as int) =~= cs);
            proof {
                kept = cs;
            }
        },
        Some(e) => {
            let ec = chars_of(e.as_str());
            proof {
                lemma_last_index_bounds(ec@, '/');
            }
            let cut = match last_index_exec(ec.as_slice(), '/') {
                Some(k) => {
                    assert(k < ec.len());
                    k + 1
                },
                None => 0,
            };
            let prefix = sub_chars(ec.as_slice(), 0, cut);
            assert(prefix@ == entry_dir(e@));
            let slash: Vec<char> = vec!['/'];
            assert(slash@ =~= seq!['/']);
            let mut i: usize = 0;
            assert(views(acc@) =~= sibling_names(prefix@, cs.subrange(0, 0)));
            while i < candidates.len()
                invariant
                    i <= candidates.len(),
                    cs == str_views(candidates@),
                    slash@ == seq!['/'],
                    sorted_by(views(acc@), lex_order()),
                    views(acc@).to_multiset() == sibling_names(prefix@, cs.subrange(0, i as int)).to_multiset(),
                decreases candidates.len() - i,
            {
                assert(cs.subrange(0, i + 1).drop_last() =~= cs.subrange(0, i as int));
                let n = chars_of(candidates[i].as_str());
                assert(n@ == cs[i as int]);
                let is_dir = n.len() > 0 && n[n.len() - 1] == '/';
                if !is_dir && starts_with(n.as_slice(), prefix.as_slice()) {
                    let rest = sub_chars(n.as_slice(), prefix.len(), n.len());
                    if find_seq(rest.as_slice(), slash.as_slice(), 0).is_none() {
                        assert(sibling_name(prefix@, n@));
                        insert_sorted(&mut acc, n);
                    }
                }
                i += 1;
            }
            assert(cs.subrange(0, candidates.len() as int) =~= cs);
            proof {
                kept = sibling_names(prefix@, cs);
            }
        },
    }
    proof {
        lemma_sorted_is_sort(views(acc@), kept);
    }
    let ghost sorted = kept.sort_by(lex_order());
    let mut r: Vec<FileRef> = Vec::new();
    let mut j: usize = 0;
    while j < acc.len()
        invariant
            j <= acc.len(),
            views(acc@) == sorted,
            r.len() == j,
            forall|k: int| 0 <= k < j ==> #[trigger] ref_views(r@)[k] == sibling_refs(
                file_ref@,
                cs,
            )[k],
            sorted == kept.sort_by(lex_order()),
            kept == (match file_ref@ {
                FileRefView::Disk(_) => cs,
                FileRefView::ZipEntry(_, e) => sibling_names(entry_dir(e), cs),
                FileRefView::NestedZipEntry(_, _, e) => sibling_names(entry_dir(e), cs),
            }),
        decreases acc.len() - j,
    {
        let name = string_from(acc[j].as_slice());
        assert(name@ == sorted[j as int]);
        let f = match file_ref {
            FileRef::Disk(_) => FileRef::Disk(name),
            FileRef::ZipEntry { zip_path, .. } => FileRef::ZipEntry {
                zip_path: copy_string(zip_path),
                entry: name,
            },
            FileRef::NestedZipEntry { outer_zip, inner_entry, .. } => FileRef::NestedZipEntry {
                outer_zip: copy_string(outer_zip),
                inner_entry: copy_string(inner_entry),
                entry: name,
            },
        };
        let ghost before = r@;
        r.push(f);
        assert forall|k: int| 0 <= k <= j implies #[trigger] ref_views(r@)[k] == sibling_refs(
            file_ref@,
            cs,
        )[k] by {
            if k < j {
                assert(ref_views(before)[k] == sibling_refs(file_ref@, cs)[k]);
                assert(r@[k] == before[k]);
            }
        }
        j += 1;
    }
    assert(ref_views(r@) =~= sibling_refs(file_ref@, cs));
    r
}

// ---------------------------------------------------------------------------
// Moving the selection
// ---------------------------------------------------------------------------

/// The first index, from `i` on, of an item that names the same file as `x`.
pub open spec fn position_from(list: Seq<FileRefView>, x: FileRefView, i: int) -> Option<int>
    decreases list.len() - i,
{
    if i < 0 || i >= list.len() {
        None
    } else if same_file(list[i], x) {
        Some(i)
    } else {
        position_from(list, x, i + 1)
    }
}

/// Where a key press moves the selection in `list`: one step back or
/// forward from the selected item when there is room, nowhere when there is
/// none, and to the first item when nothing in the list is selected.
pub open spec fn nav_target(
    list: Seq<FileRefView>,
    selected: Option<FileRefView>,
    back: bool,
    forward: bool,
) -> Option<int> {
    let current = match selected {
        Some(s) => position_from(list, s, 0),
        None => None,
    };
    if list.len() == 0 {
        None
    } else {
        match current {
            Some(idx) => if back && idx > 0 {
                Some(idx - 1)
            } else if forward && idx + 1 < list.len() {
                Some(idx + 1)
            } else {
                None
            },
            None => Some(0),
        }
    }
}

/// The index the selection moves to in `list` when the back (left, up) or
/// forward (right, down) key is pressed; `None` leaves it where it is.
pub fn navigate(list: &Vec<FileRef>, selected: &Option<FileRef>, back: bool, forward: bool) -> (r:
    Option<usize>)
    ensures
        match nav_target(ref_views(list@), (match selected {
            Some(s) => Some(s@),
            None => None,
        }), back, forward) {
            Some(t) => r == Some(t as usize),
            None => r is None,
        },
{
    let ghost lv = ref_views(list@);
    if list.len() == 0 {
        return None;
    }
    let mut current: Option<usize> = None;
    match selected {
        Some(s) => {
            let mut i: usize = 0;
            let mut found = false;
            while i < list.len() && !found
                invariant
                    i <= list.len(),
                    lv == ref_views(list@),
                    found ==> i < list.len() && position_from(lv, s@, 0) == Some(i as int),
                    !found ==> position_from(lv, s@, 0) == position_from(lv, s@, i as int),
                decreases list.len() - i, (if found {
                    0int
                } else {
                    1int
                }),
            {
                assert(lv[i as int] == list@[i as int]@);
                if same_ref(&list[i], s) {
                    found = true;
                } else {
                    i += 1;
                }
            }
            if found {
                current = Some(i);
            }
        },
        None => {},
    }
    match current {
        Some(idx) => {
            if back && idx > 0 {
                Some(idx - 1)
            } else if forward && idx + 1 < list.len() {
                Some(idx + 1)
            } else {
                None
            }
        },
        None => Some(0),
    }
}

// ---------------------------------------------------------------------------
// Which tree nodes are open
// ---------------------------------------------------------------------------

/// The open nodes of the file tree, each kept once in sorted order: those
/// the user opened, those forced open for one frame, and whether the state
/// changed since it was last saved.
pub struct TreeExpansion {
    pub expanded: Vec<String>,
    pub force_open: Vec<String>,
    pub save_requested: bool,
}

impl TreeExpansion {
    /// Both node sets are sorted without repetition.
    pub open spec fn wf(&self) -> bool {
        strictly_sorted(str_views(self.expanded@)) && strictly_sorted(str_views(self.force_open@))
    }

    /// The node `k` is open.
    pub open spec fn open_node(&self, k: Seq<char>) -> bool {
        str_views(self.expanded@).contains(k)
    }

    /// The node `k` is forced open.
    pub open spec fn forced_node(&self, k: Seq<char>) -> bool {
        str_views(self.force_open@).contains(k)
    }

    /// The state restored from the saved open nodes; nothing is forced open
    /// and nothing waits to be saved.
    pub fn from_nodes(nodes: &Vec<String>) -> (r: TreeExpansion)
        ensures
            r.wf(),
            forall|k: Seq<char>| #[trigger] r.open_node(k) <==> str_views(nodes@).contains(k),
            forall|k: Seq<char>| !#[trigger] r.forced_node(k),
            !r.save_requested,
    {
        let mut expanded: Vec<String> = Vec::new();
        let force_open: Vec<String> = Vec::new();
        let mut i: usize = 0;
        assert(str_views(expanded@) =~= Seq::<Seq<char>>::empty());
        assert(str_views(force_open@) =~= Seq::<Seq<char>>::empty());
        while i < nodes.len()
            invariant
                i <= nodes.len(),
                strictly_sorted(str_views(expanded@)),
                forall|k: Seq<char>| #[trigger] str_views(expanded@).contains(k) <==> str_views(nodes@).subrange(0, i as int).contains(k),
            decreases nodes.len() - i,
        {
            let ghost pre = str_views(nodes@).subrange(0, i as int);
            let ghost post = str_views(nodes@).subrange(0, i + 1);
            assert(post =~= pre.push(nodes@[i as int]@));
            insert_member(&mut expanded, nodes[i].as_str());
            assert forall|k: Seq<char>| #[trigger] str_views(expanded@).contains(k) <==> post.contains(k) by {
                if post.contains(k) && k != nodes@[i as int]@ {
                    let j = choose|j: int| 0 <= j < post.len() && post[j] == k;
                    assert(pre[j] == k);
                }
                if pre.contains(k) {
                    let j = choose|j: int| 0 <= j < pre.len() && pre[j] == k;
                    assert(post[j] == k);
                }
                if k == nodes@[i as int]@ {
                    assert(post[i as int] == k);
                }
            }
            i += 1;
        }
        assert(str_views(nodes@).subrange(0, nodes.len() as int) =~= str_views(nodes@));
        TreeExpansion { expanded, force_open, save_requested: false }
    }

    /// Whether the node `key` is open.
    pub fn is_open(&self, key: &str) -> (r: bool)
        ensures
            r == self.open_node(key@),
    {
        has_member(&self.expanded, chars_of(key).as_slice())
    }

    /// Whether the node `key` is forced open in this frame.
    pub fn is_forced(&self, key: &str) -> (r: bool)
        ensures
            r == self.forced_node(key@),
    {
        has_member(&self.force_open, chars_of(key).as_slice())
    }

    /// Record whether the node `key` is now shown open; a change is kept
    /// and marks the state for saving.
    pub fn track(&mut self, key: &str, is_open: bool)
        requires
            old(self).wf(),
        ensures
            final(self).wf(),
            forall|k: Seq<char>| #[trigger] final(self).open_node(k) <==> (if k == key@ {
                is_open
            } else {
                old(self).open_node(k)
            }),
            final(self).force_open == old(self).force_open,
            final(self).save_requested == (old(self).save_requested || is_open != old(self).open_node(key@)),
    {
        let was_open = self.is_open(key);
        if is_open != was_open {
            if is_open {
                insert_member(&mut self.expanded, key);
            } else {
                remove_member(&mut self.expanded, key);
            }
            self.save_requested = true;
        }
    }

    /// Open, and force open, every node on the way to `path` (see
    /// `ancestor_keys`), and mark the state for saving.
    pub fn expand_path(&mut self, path: &str)
        requires
            old(self).wf(),
        ensures
            final(self).wf(),
            forall|k: Seq<char>| #[trigger] final(self).open_node(k) <==> (old(self).open_node(k)
                || ancestor_keys(path@).contains(k)),
            forall|k: Seq<char>| #[trigger] final(self).forced_node(k) <==> (old(self).forced_node(k)
                || ancestor_keys(path@).contains(k)),
            final(self).save_requested,
    {
        let keys = expand_path_ancestors(path);
        let ghost ks = str_views(keys@);
        let ghost e0 = str_views(self.expanded@);
        let ghost f0 = str_views(self.force_open@);
        let mut i: usize = 0;
        while i < keys.len()
            invariant
                i <= keys.len(),
                ks == str_views(keys@),
                ks == ancestor_keys(path@),
                self.wf(),
                forall|k: Seq<char>| #[trigger] str_views(self.expanded@).contains(k) <==> (e0.contains(k) || ks.subrange(0, i as int).contains(k)),
                forall|k: Seq<char>| #[trigger] str_views(self.force_open@).contains(k) <==> (f0.contains(k) || ks.subrange(0, i as int).contains(k)),
                e0 == str_views(old(self).expanded@),
                f0 == str_views(old(self).force_open@),
            decreases keys.len() - i,
        {
            let ghost pre = ks.subrange(0, i as int);
            let ghost post = ks.subrange(0, i + 1);
            assert(post =~= pre.push(keys@[i as int]@));
            assert forall|k: Seq<char>| #[trigger] post.contains(k) <==> (pre.contains(k) || k == keys@[i as int]@) by {
                if post.contains(k) && k != keys@[i as int]@ {
                    let j = choose|j: int| 0 <= j < post.len() && post[j] == k;
                    assert(pre[j] == k);
                }
                if pre.contains(k) {
                    let j = choose|j: int| 0 <= j < pre.len() && pre[j] == k;
                    assert(post[j] == k);
                }
                if k == keys@[i as int]@ {
                    assert(post[i as int] == k);
                }
            }
            insert_member(&mut self.expanded, keys[i].as_str());
            insert_member(&mut self.force_open, keys[i].as_str());
            assert forall|k: Seq<char>| #[trigger] str_views(self.expanded@).contains(k) <==> (e0.contains(k) || post.contains(k)) by {
                assert(post.contains(k) <==> (pre.contains(k) || k == keys@[i as int]@));
            }
            assert forall|k: Seq<char>| #[trigger] str_views(self.force_open@).contains(k) <==> (f0.contains(k) || post.contains(k)) by {
                assert(post.contains(k) <==> (pre.contains(k) || k == keys@[i as int]@));
            }
            i += 1;
        }
        assert(ks.subrange(0, keys.len() as int) =~= ks);
        self.save_requested = true;
        assert forall|k: Seq<char>| #[trigger] self.open_node(k) <==> (e0.contains(k) || ks.contains(k)) by {
            assert(str_views(self.expanded@).contains(k) <==> (e0.contains(k) || ks.contains(k)));
        }
        assert forall|k: Seq<char>| #[trigger] self.forced_node(k) <==> (f0.contains(k) || ks.contains(k)) by {
            assert(str_views(self.force_open@).contains(k) <==> (f0.contains(k) || ks.contains(k)));
        }
    }

    /// Forget the nodes forced open for the last frame.
    pub fn clear_forced(&mut self)
        requires
            old(self).wf(),
        ensures
            final(self).wf(),
            final(self).expanded == old(self).expanded,
            forall|k: Seq<char>| !#[trigger] final(self).forced_node(k),
            final(self).save_requested == old(self).save_requested,
    {
        self.force_open = Vec::new();
        assert(str_views(self.force_open@) =~= Seq::<Seq<char>>::empty());
    }
}

// ---------------------------------------------------------------------------
// Laws
// ---------------------------------------------------------------------------

/// Law: in a list where no two items name the same file, stepping forward
/// from an item and then back returns to it, and stepping back then forward
/// likewise.
pub proof fn lemma_nav_round_trip(list: Seq<FileRefView>, i: int)
    requires
        0 <= i < list.len(),
        forall|a: int, b: int| 0 <= a < b < list.len() ==> !same_file(list[a], list[b]),
    ensures
        i + 1 < list.len() ==> nav_target(list, Some(list[i]), false, true) == Some(i + 1)
            && nav_target(list, Some(list[i + 1]), true, false) == Some(i),
        i > 0 ==> nav_target(list, Some(list[i]), true, false) == Some(i - 1) && nav_target(
            list,
            Some(list[i - 1]),
            false,
            true,
        ) == Some(i),
{
    lemma_position_of_distinct(list, i);
    if i + 1 < list.len() {
        lemma_position_of_distinct(list, i + 1);
    }
    if i > 0 {
        lemma_position_of_distinct(list, i - 1);
    }
}

/// In a list where no two items name the same file, an item is found at its
/// own index.
proof fn lemma_position_of_distinct(list: Seq<FileRefView>, i: int)
    requires
        0 <= i < list.len(),
        forall|a: int, b: int| 0 <= a < b < list.len() ==> !same_file(list[a], list[b]),
    ensures
        position_from(list, list[i], 0) == Some(i),
{
    assert forall|a: int| 0 <= a < i implies !same_file(list[a], list[i]) by {}
    lemma_position_scan(list, list[i], 0, i);
}

/// Scanning from `j <= i` finds the item at `i` when nothing before it names
/// the same file.
proof fn lemma_position_scan(list: Seq<FileRefView>, x: FileRefView, j: int, i: int)
    requires
        0 <= j <= i < list.len(),
        list[i] == x,
        forall|a: int| 0 <= a < i ==> !same_file(list[a], x),
    ensures
        position_from(list, x, j) == Some(i),
    decreases i - j,
{
    if j < i {
        lemma_position_scan(list, x, j + 1, i);
    }
}

/// Law: once a path is expanded, the node of the path itself is open.
pub proof fn lemma_expand_opens_path(path: Seq<char>)
    ensures
        ancestor_keys(path).contains(repr_of(parse_ref(path))),
{
    let k = ancestor_keys(path);
    assert(k[k.len() - 1] == repr_of(parse_ref(path)));
}

/// The folder key of the '/' at index `k` of `e` is among the folder keys
/// from any index at or before it.
proof fn lemma_folder_key_listed(base: Seq<char>, e: Seq<char>, i: int, k: int)
    requires
        0 <= i <= k < e.len(),
        e[k] == '/',
    ensures
        folder_keys_from(base, e, i).contains(base + zip_sep() + e.subrange(0, k + 1)),
    decreases k - i,
{
    let key = base + zip_sep() + e.subrange(0, k + 1);
    if i == k {
        assert(folder_keys_from(base, e, i)[0] == key);
    } else {
        lemma_folder_key_listed(base, e, i + 1, k);
        let rest = folder_keys_from(base, e, i + 1);
        let j = choose|j: int| 0 <= j < rest.len() && rest[j] == key;
        if e[i] == '/' {
            assert(folder_keys_from(base, e, i)[j + 1] == key);
        } else {
            assert(folder_keys_from(base, e, i)[j] == key);
        }
    }
}

/// Law: expanding an archive entry opens the archive's node and the tree
/// node of every folder holding the entry (`{archive}//{folder}/`), so the
/// entry shows.
pub proof fn lemma_expand_opens_zip_folders(path: Seq<char>, k: int)
    requires
        parse_ref(path) matches FileRefView::ZipEntry(_, e) && 0 <= k < e.len() && e[k] == '/',
    ensures
        match parse_ref(path) {
            FileRefView::ZipEntry(z, e) => ancestor_keys(path).contains(
                slashes(z) + zip_sep() + e.subrange(0, k + 1),
            ),
            _ => true,
        },
{
    match parse_ref(path) {
        FileRefView::ZipEntry(z, e) => {
            let zs = slashes(z);
            let d = disk_ancestors(zs);
            let fk = folder_keys_from(zs, e, 0);
            let key = zs + zip_sep() + e.subrange(0, k + 1);
            lemma_folder_key_listed(zs, e, 0, k);
            let j = choose|j: int| 0 <= j < fk.len() && fk[j] == key;
            assert(ancestor_keys(path)[d.len() + j] == key);
        },
        _ => {},
    }
}

} // verus!
