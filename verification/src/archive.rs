//! Archive listing and entry reading. Format detection, the choice of which
//! entries are listed and the order in which they come out are verified
//! here; parsing a zip archive is the `zip` crate's work, reached through the
//! trusted items at the end of this file. Archives that only a file on disk
//! can serve (rar) are read by the caller, which hands the headers it found
//! to the functions below.

use vstd::prelude::*;
use vstd::relations::{sorted_by, total_ordering};
use crate::text::{
    ascii_lower, chars_of, concat_chars, ends_with, is_suffix, lemma_lex_asymmetric,
    lemma_lex_irreflexive, lemma_lex_total, lemma_lex_transitive, lex_less, lex_lt,
    replace_backslashes, slashes, str_views, string_from, to_ascii_lower, views,
};

verus! {

broadcast use vstd::seq_lib::group_to_multiset_ensures;

// ---------------------------------------------------------------------------
// Format detection
// ---------------------------------------------------------------------------

/// The archive formats the library recognises.
#[derive(Debug, Clone, Copy, PartialEq, Eq, Structural)]
pub enum ArchiveFormat {
    Zip,
    Rar,
}

/// The format a file name announces: `.zip` or `.rar` at its end, in any
/// ASCII case.
pub open spec fn format_of(name: Seq<char>) -> Option<ArchiveFormat> {
    let lower = ascii_lower(name);
    if is_suffix(seq!['.', 'z', 'i', 'p'], lower) {
        Some(ArchiveFormat::Zip)
    } else if is_suffix(seq!['.', 'r', 'a', 'r'], lower) {
        Some(ArchiveFormat::Rar)
    } else {
        None
    }
}

/// The message for a name that announces no known format.
pub open spec fn unrecognised_message(name: Seq<char>) -> Seq<char> {
    "Unrecognised archive format: "@ + name
}

/// The format that `name` announces, if any.
pub fn detect_format(name: &str) -> (r: Option<ArchiveFormat>)
    ensures
        r == format_of(name@),
{
    let lower = to_ascii_lower(chars_of(name).as_slice());
    let zip_ext: Vec<char> = vec!['.', 'z', 'i', 'p'];
    let rar_ext: Vec<char> = vec!['.', 'r', 'a', 'r'];
    if ends_with(lower.as_slice(), zip_ext.as_slice()) {
        Some(ArchiveFormat::Zip)
    } else if ends_with(lower.as_slice(), rar_ext.as_slice()) {
        Some(ArchiveFormat::Rar)
    } else {
        None
    }
}

/// Returns `true` if the filename has a recognised archive extension.
pub fn is_archive(name: &str) -> (r: bool)
    ensures
        r == format_of(name@) is Some,
{
    detect_format(name).is_some()
}

/// The format of an archive named `name`, or the error that a listing or a
/// read of it reports when the name announces none.
pub fn archive_format(name: &str) -> (r: Result<ArchiveFormat, String>)
    ensures
        match format_of(name@) {
            Some(f) => r == Ok::<ArchiveFormat, String>(f),
            None => r matches Err(e) && e@ == unrecognised_message(name@),
        },
{
    match detect_format(name) {
        Some(f) => Ok(f),
        None => Err(prefixed("Unrecognised archive format: ", name)),
    }
}

/// `prefix` followed by `text`.
fn prefixed(prefix: &str, text: &str) -> (r: String)
    ensures
        r@ == prefix@ + text@,
{
    let joined = concat_chars(chars_of(prefix).as_slice(), chars_of(text).as_slice());
    string_from(joined.as_slice())
}

// ---------------------------------------------------------------------------
// Listing order
// ---------------------------------------------------------------------------

/// The order in which entries are listed: by code point, as `sort` orders
/// `String`s.
pub open spec fn lex_order() -> spec_fn(Seq<char>, Seq<char>) -> bool {
    |a: Seq<char>, b: Seq<char>| !lex_lt(b, a)
}

/// The listing order is a total order.
pub proof fn lemma_lex_order_total()
    ensures
        total_ordering(lex_order()),
{
    let r = lex_order();
    assert forall|x: Seq<char>| #[trigger] r(x, x) by {
        lemma_lex_irreflexive(x);
    }
    assert forall|x: Seq<char>, y: Seq<char>| #[trigger] r(x, y) && #[trigger] r(y, x) implies x
        == y by {
        lemma_lex_total(x, y);
    }
    assert forall|x: Seq<char>, y: Seq<char>, z: Seq<char>| #[trigger] r(x, y) && #[trigger] r(
        y,
        z,
    ) implies r(x, z) by {
        lemma_lex_total(x, y);
        lemma_lex_total(y, z);
        if lex_lt(z, x) && x != y && y != z {
            lemma_lex_transitive(x, y, z);
            lemma_lex_asymmetric(x, z);
        }
    }
    assert forall|x: Seq<char>, y: Seq<char>| #[trigger] r(x, y) || #[trigger] r(y, x) by {
        lemma_lex_asymmetric(x, y);
    }
}

/// A sorted sequence with the elements of `items` is `items` sorted.
pub(crate) proof fn lemma_sorted_is_sort(s: Seq<Seq<char>>, items: Seq<Seq<char>>)
    requires
        sorted_by(s, lex_order()),
        s.to_multiset() == items.to_multiset(),
    ensures
        s == items.sort_by(lex_order()),
{
    lemma_lex_order_total();
    items.lemma_sort_by_ensures(lex_order());
    vstd::seq_lib::lemma_sorted_unique(s, items.sort_by(lex_order()), lex_order());
}

/// Below one element and that element not above another: below the other.
proof fn lemma_lt_then_le(x: Seq<char>, a: Seq<char>, b: Seq<char>)
    requires
        lex_lt(x, a),
        !lex_lt(b, a),
    ensures
        lex_lt(x, b),
{
    lemma_lex_total(a, b);
    if a != b {
        lemma_lex_transitive(x, a, b);
    }
}

/// Inserts `x` into the sorted `v` after every element that does not sort
/// above it.
pub(crate) fn insert_sorted(v: &mut Vec<Vec<char>>, x: Vec<char>)
    requires
        sorted_by(views(old(v)@), lex_order()),
    ensures
        sorted_by(views(final(v)@), lex_order()),
        views(final(v)@).to_multiset() == views(old(v)@).to_multiset().insert(x@),
{
    let ghost s = views(v@);
    let mut lo: usize = 0;
    let mut hi: usize = v.len();
    while lo < hi
        invariant
            lo <= hi <= v.len(),
            v@ == old(v)@,
            s == views(v@),
            sorted_by(s, lex_order()),
            forall|k: int| 0 <= k < lo ==> !lex_lt(x@, #[trigger] s[k]),
            forall|k: int| hi <= k < s.len() ==> lex_lt(x@, #[trigger] s[k]),
        decreases hi - lo,
    {
        let mid = lo + (hi - lo) / 2;
        if lex_less(x.as_slice(), v[mid].as_slice()) {
            assert forall|k: int| mid <= k < s.len() implies lex_lt(x@, #[trigger] s[k]) by {
                if k > mid {
                    assert(lex_order()(s[mid as int], s[k]));
                    lemma_lt_then_le(x@, s[mid as int], s[k]);
                }
            }
            hi = mid;
        } else {
            assert forall|k: int| 0 <= k < mid + 1 implies !lex_lt(x@, #[trigger] s[k]) by {
                if k < mid {
                    assert(lex_order()(s[k], s[mid as int]));
                    if lex_lt(x@, s[k]) {
                        lemma_lt_then_le(x@, s[k], s[mid as int]);
                    }
                }
            }
            lo = mid + 1;
        }
    }
    let i = lo;
    proof {
        lemma_lex_order_total();
        let r = lex_order();
        assert forall|k: int| i <= k < s.len() implies r(x@, #[trigger] s[k]) by {
            lemma_lex_asymmetric(x@, s[k]);
        }
    }
    v.insert(i, x);
    proof {
        let t = s.insert(i as int, x@);
        assert(views(v@) =~= t);
        let r = lex_order();
        assert forall|a: int, b: int| 0 <= a < b < t.len() implies #[trigger] r(t[a], t[b]) by {
            if b < i {
            } else if a < i && b == i {
            } else if a < i {
                assert(t[b] == s[b - 1]);
                assert(r(s[a], s[b - 1]));
            } else if a == i {
                assert(t[b] == s[b - 1]);
            } else {
                assert(t[a] == s[a - 1] && t[b] == s[b - 1]);
            }
        }
    }
}

/// Strings holding the given character vectors, in order.
pub(crate) fn strings_of(v: &Vec<Vec<char>>) -> (r: Vec<String>)
    ensures
        str_views(r@) == views(v@),
{
    let mut r: Vec<String> = Vec::new();
    let mut i: usize = 0;
    while i < v.len()
        invariant
            i <= v.len(),
            r.len() == i,
            str_views(r@) == views(v@).subrange(0, i as int),
        decreases v.len() - i,
    {
        let s = string_from(v[i].as_slice());
        let ghost before = r@;
        r.push(s);
        assert forall|j: int| 0 <= j <= i implies #[trigger] str_views(r@)[j] == views(v@)[j] by {
            if j < i {
                assert(str_views(before)[j] == views(v@).subrange(0, i as int)[j]);
            }
        }
        i += 1;
        assert(str_views(r@) =~= views(v@).subrange(0, i as int));
    }
    assert(views(v@).subrange(0, v.len() as int) =~= views(v@));
    r
}

/// The names in listing order (`sort` on `String`s).
pub fn sort_names(names: &Vec<String>) -> (r: Vec<String>)
    ensures
        str_views(r@) == str_views(names@).sort_by(lex_order()),
{
    let mut acc: Vec<Vec<char>> = Vec::new();
    let mut i: usize = 0;
    assert(views(acc@) =~= str_views(names@).subrange(0, 0));
    while i < names.len()
        invariant
            i <= names.len(),
            sorted_by(views(acc@), lex_order()),
            views(acc@).to_multiset() == str_views(names@).subrange(0, i as int).to_multiset(),
        decreases names.len() - i,
    {
        assert(str_views(names@).subrange(0, i + 1) =~= str_views(names@).subrange(0, i as int).push(
            names@[i as int]@,
        ));
        insert_sorted(&mut acc, chars_of(names[i].as_str()));
        i += 1;
    }
    proof {
        assert(str_views(names@).subrange(0, names.len() as int) =~= str_views(names@));
        lemma_sorted_is_sort(views(acc@), str_views(names@));
    }
    strings_of(&acc)
}

// ---------------------------------------------------------------------------
// Which entries are listed
// ---------------------------------------------------------------------------

/// A zip entry name that names a directory: it ends in `/`.
pub open spec fn is_dir_name(n: Seq<char>) -> bool {
    n.len() > 0 && n.last() == '/'
}

/// The names a zip listing keeps, in archive order: every entry whose name
/// could be read and does not name a directory.
pub open spec fn zip_kept(names: Seq<Option<Seq<char>>>) -> Seq<Seq<char>>
    decreases names.len(),
{
    if names.len() == 0 {
        seq![]
    } else {
        let rest = zip_kept(names.drop_last());
        match names.last() {
            Some(n) => if is_dir_name(n) {
                rest
            } else {
                rest.push(n)
            },
            None => rest,
        }
    }
}

/// The listing of a zip archive whose entries, read in order, gave `names`.
pub open spec fn zip_listing(names: Seq<Option<Seq<char>>>) -> Seq<Seq<char>> {
    zip_kept(names).sort_by(lex_order())
}

/// The views of optional strings.
pub open spec fn option_views(v: Seq<Option<String>>) -> Seq<Option<Seq<char>>> {
    v.map_values(
        |o: Option<String>|
            match o {
                Some(s) => Some(s@),
                None => None,
            },
    )
}

/// Whether the last character of `c` is a slash.
fn names_directory(c: &Vec<char>) -> (r: bool)
    ensures
        r == is_dir_name(c@),
{
    c.len() > 0 && c[c.len() - 1] == '/'
}

/// The sorted listing of a zip archive whose entries, read in order, gave
/// `names` (`None` for an entry that could not be read).
pub fn listing_from_names(names: &Vec<Option<String>>) -> (r: Vec<String>)
    ensures
        str_views(r@) == zip_listing(option_views(names@)),
{
    let ghost all = option_views(names@);
    let mut acc: Vec<Vec<char>> = Vec::new();
    let mut i: usize = 0;
    assert(views(acc@) =~= zip_kept(all.subrange(0, 0)));
    while i < names.len()
        invariant
            i <= names.len(),
            all == option_views(names@),
            sorted_by(views(acc@), lex_order()),
            views(acc@).to_multiset() == zip_kept(all.subrange(0, i as int)).to_multiset(),
        decreases names.len() - i,
    {
        assert(all.subrange(0, i + 1).drop_last() =~= all.subrange(0, i as int));
        match &names[i] {
            Some(n) => {
                let c = chars_of(n.as_str());
                if !names_directory(&c) {
                    insert_sorted(&mut acc, c);
                }
            },
            None => {},
        }
        i += 1;
    }
    proof {
        assert(all.subrange(0, names.len() as int) =~= all);
        lemma_sorted_is_sort(views(acc@), zip_kept(all));
    }
    strings_of(&acc)
}

/// Law: a zip listing is in listing order, names no directory, and holds
/// each readable file name exactly as often as the archive does.
pub proof fn lemma_zip_listing_shape(names: Seq<Option<Seq<char>>>)
    ensures
        sorted_by(zip_listing(names), lex_order()),
        forall|i: int| 0 <= i < zip_listing(names).len() ==> !is_dir_name(#[trigger] zip_listing(names)[i]),
        zip_listing(names).to_multiset() == zip_kept(names).to_multiset(),
{
    lemma_lex_order_total();
    zip_kept(names).lemma_sort_by_ensures(lex_order());
    lemma_zip_kept_files(names);
    assert forall|i: int| 0 <= i < zip_listing(names).len() implies !is_dir_name(#[trigger] zip_listing(names)[i]) by {
        let x = zip_listing(names)[i];
        assert(zip_listing(names).contains(x));
    }
}

/// No kept name names a directory.
proof fn lemma_zip_kept_files(names: Seq<Option<Seq<char>>>)
    ensures
        forall|x: Seq<char>| #[trigger] zip_kept(names).contains(x) ==> !is_dir_name(x),
    decreases names.len(),
{
    if names.len() > 0 {
        lemma_zip_kept_files(names.drop_last());
        let rest = zip_kept(names.drop_last());
        assert forall|x: Seq<char>| #[trigger] zip_kept(names).contains(x) implies !is_dir_name(x) by {
            let k = zip_kept(names);
            let j = choose|j: int| 0 <= j < k.len() && k[j] == x;
            if j < rest.len() {
                assert(rest[j] == x);
                assert(rest.contains(x));
            }
        }
    }
}

/// A file header of a rar archive: its stored name and whether it is a
/// directory.
pub struct RarHeader {
    pub filename: String,
    pub is_directory: bool,
}

/// The names a rar listing keeps, in archive order: the file headers'
/// names, backslashes read as slashes.
pub open spec fn rar_kept(headers: Seq<RarHeader>) -> Seq<Seq<char>>
    decreases headers.len(),
{
    if headers.len() == 0 {
        seq![]
    } else {
        let rest = rar_kept(headers.drop_last());
        if headers.last().is_directory {
            rest
        } else {
            rest.push(slashes(headers.last().filename@))
        }
    }
}

/// The listing of a rar archive with the given headers.
pub open spec fn rar_listing(headers: Seq<RarHeader>) -> Seq<Seq<char>> {
    rar_kept(headers).sort_by(lex_order())
}

/// Normalize a RAR entry path: backslashes become forward slashes.
pub fn normalize_rar_path(path: &str) -> (r: String)
    ensures
        r@ == slashes(path@),
{
    string_from(replace_backslashes(chars_of(path).as_slice()).as_slice())
}

/// Whether the rar header named `filename` is the entry `entry_name`.
pub fn rar_entry_matches(filename: &str, entry_name: &str) -> (r: bool)
    ensures
        r == (slashes(filename@) == entry_name@),
{
    let a = replace_backslashes(chars_of(filename).as_slice());
    let b = chars_of(entry_name);
    crate::text::chars_eq(a.as_slice(), b.as_slice())
}

/// The sorted listing of a rar archive with the given headers: the files,
/// not the directories, with their paths normalised.
pub fn list_rar_headers(headers: &Vec<RarHeader>) -> (r: Vec<String>)
    ensures
        str_views(r@) == rar_listing(headers@),
{
    let mut acc: Vec<Vec<char>> = Vec::new();
    let mut i: usize = 0;
    assert(views(acc@) =~= rar_kept(headers@.subrange(0, 0)));
    while i < headers.len()
        invariant
            i <= headers.len(),
            sorted_by(views(acc@), lex_order()),
            views(acc@).to_multiset() == rar_kept(headers@.subrange(0, i as int)).to_multiset(),
        decreases headers.len() - i,
    {
        assert(headers@.subrange(0, i + 1).drop_last() =~= headers@.subrange(0, i as int));
        if !headers[i].is_directory {
            let c = replace_backslashes(chars_of(headers[i].filename.as_str()).as_slice());
            insert_sorted(&mut acc, c);
        }
        i += 1;
    }
    proof {
        assert(headers@.subrange(0, headers.len() as int) =~= headers@);
        lemma_sorted_is_sort(views(acc@), rar_kept(headers@));
    }
    strings_of(&acc)
}

// ---------------------------------------------------------------------------
// Zip archives, through the `zip` crate
// ---------------------------------------------------------------------------

#[verifier::external_type_specification]
#[verifier::external_body]
#[verifier::reject_recursive_types(T)]
pub struct ExCursor<T>(std::io::Cursor<T>);

#[verifier::external_type_specification]
#[verifier::external_body]
#[verifier::reject_recursive_types(R)]
pub struct ExZipArchive<R>(zip::ZipArchive<R>);

/// A name for `zip::ZipArchive::new` over a cursor on `bytes`: `None` where
/// it reads the archive, else the text of the error it reports.
pub uninterp spec fn zip_open_error(bytes: Seq<u8>) -> Option<Seq<char>>;

/// A name for what an archive read from `bytes` holds, entry by entry in
/// the order of its central directory: the name that `by_index` and `name`
/// give for the entry, or `None` where either of them fails.
pub uninterp spec fn zip_entry_names(bytes: Seq<u8>) -> Seq<Option<Seq<char>>>;

/// A name for the bytes that an open archive was read from.
pub uninterp spec fn zip_source(archive: zip::ZipArchive<std::io::Cursor<Vec<u8>>>) -> Seq<u8>;

/// A name for `ZipArchive::by_name` on an archive read from `bytes`: `None`
/// where it finds the entry `name`, else the text of its error.
pub uninterp spec fn zip_lookup_error(bytes: Seq<u8>, name: Seq<char>) -> Option<Seq<char>>;

/// A name for reading the entry `name` of an archive read from `bytes` to
/// its end: the entry's bytes, or the text of the error the read reports.
pub uninterp spec fn zip_entry_data(bytes: Seq<u8>, name: Seq<char>) -> Result<Seq<u8>, Seq<char>>;

/// Why an entry could not be read: it was not found, or reading it failed.
pub enum EntryReadFailure {
    Missing(String),
    Unreadable(String),
}

/// `zip::ZipArchive::new` over a cursor on a copy of `bytes`; an error
/// becomes its display text. The contract claims only that the outcome is the
/// one named `zip_open_error` for these bytes, and that an opened archive
/// remembers the bytes it was read from.
#[verifier::external_body]
pub(crate) fn zip_open(bytes: &[u8]) -> (r: Result<zip::ZipArchive<std::io::Cursor<Vec<u8>>>, String>)
    ensures
        match r {
            Ok(a) => zip_open_error(bytes@) is None && zip_source(a) == bytes@,
            Err(e) => zip_open_error(bytes@) == Some(e@),
        },
{
    match zip::ZipArchive::new(std::io::Cursor::new(bytes.to_vec())) {
        Ok(a) => Ok(a),
        Err(e) => Err(e.to_string()),
    }
}

/// `ZipArchive::len`: the number of entries, which is the length of
/// `zip_entry_names` for the archive's bytes.
#[verifier::external_body]
pub(crate) fn zip_len(archive: &zip::ZipArchive<std::io::Cursor<Vec<u8>>>) -> (n: usize)
    ensures
        n == zip_entry_names(zip_source(*archive)).len(),
{
    archive.len()
}

/// `ZipArchive::by_index` followed by `ZipFile::name` on entry `i`: the
/// entry's name, or `None` where either call fails. The contract claims that
/// this is the `i`-th item of `zip_entry_names`, and that the archive still
/// reads the same bytes afterwards (the call only moves the cursor).
#[verifier::external_body]
pub(crate) fn zip_name_at(archive: &mut zip::ZipArchive<std::io::Cursor<Vec<u8>>>, i: usize) -> (r: Option<
    String,
>)
    requires
        i < zip_entry_names(zip_source(*old(archive))).len(),
    ensures
        zip_source(*final(archive)) == zip_source(*old(archive)),
        match r {
            Some(s) => zip_entry_names(zip_source(*old(archive)))[i as int] == Some(s@),
            None => zip_entry_names(zip_source(*old(archive)))[i as int] is None,
        },
{
    match archive.by_index(i) {
        Ok(entry) => match entry.name() {
            Ok(name) => Some(name.into_owned()),
            Err(_) => None,
        },
        Err(_) => None,
    }
}

/// `ZipArchive::by_name`, then `Read::read_to_end` on the entry it finds;
/// each error becomes its display text. The contract claims that a failed
/// lookup is the one named `zip_lookup_error`, that the read gives what
/// `zip_entry_data` names, and that the archive still reads the same bytes.
#[verifier::external_body]
pub(crate) fn zip_read(archive: &mut zip::ZipArchive<std::io::Cursor<Vec<u8>>>, name: &str) -> (r: Result<
    Vec<u8>,
    EntryReadFailure,
>)
    ensures
        zip_source(*final(archive)) == zip_source(*old(archive)),
        match zip_lookup_error(zip_source(*old(archive)), name@) {
            Some(m) => r matches Err(EntryReadFailure::Missing(e)) && e@ == m,
            None => match zip_entry_data(zip_source(*old(archive)), name@) {
                Ok(d) => r matches Ok(v) && v@ == d,
                Err(m) => r matches Err(EntryReadFailure::Unreadable(e)) && e@ == m,
            },
        },
{
    let mut entry = match archive.by_name(name) {
        Ok(entry) => entry,
        Err(e) => return Err(EntryReadFailure::Missing(e.to_string())),
    };
    let mut buf = Vec::new();
    match std::io::Read::read_to_end(&mut entry, &mut buf) {
        Ok(_) => Ok(buf),
        Err(e) => Err(EntryReadFailure::Unreadable(e.to_string())),
    }
}

/// What listing the zip archive `bytes` gives: the error text where it does
/// not open, else its sorted listing.
pub open spec fn zip_listing_outcome(bytes: Seq<u8>) -> Result<Seq<Seq<char>>, Seq<char>> {
    match zip_open_error(bytes) {
        Some(m) => Err("Invalid zip: "@ + m),
        None => Ok(zip_listing(zip_entry_names(bytes))),
    }
}

/// What reading the entry `name` of the zip archive `bytes` gives.
pub open spec fn zip_read_outcome(bytes: Seq<u8>, name: Seq<char>) -> Result<Seq<u8>, Seq<char>> {
    match zip_open_error(bytes) {
        Some(m) => Err("Invalid zip: "@ + m),
        None => match zip_lookup_error(bytes, name) {
            Some(m) => Err("Entry not found: "@ + m),
            None => match zip_entry_data(bytes, name) {
                Ok(d) => Ok(d),
                Err(m) => Err("Read entry error: "@ + m),
            },
        },
    }
}

/// All file entries (not directories) of the zip archive held in `bytes`,
/// sorted.
pub fn list_entries_zip_bytes(bytes: &[u8]) -> (r: Result<Vec<String>, String>)
    ensures
        match zip_listing_outcome(bytes@) {
            Ok(l) => r matches Ok(v) && str_views(v@) == l,
            Err(m) => r matches Err(e) && e@ == m,
        },
{
    let mut archive = match zip_open(bytes) {
        Ok(a) => a,
        Err(e) => return Err(prefixed("Invalid zip: ", e.as_str())),
    };
    let ghost src = zip_source(archive);
    let n = zip_len(&archive);
    let mut names: Vec<Option<String>> = Vec::new();
    let mut i: usize = 0;
    while i < n
        invariant
            i <= n,
            src == bytes@,
            zip_source(archive) == src,
            n == zip_entry_names(src).len(),
            option_views(names@) == zip_entry_names(src).subrange(0, i as int),
            names.len() == i,
        decreases n - i,
    {
        let name = zip_name_at(&mut archive, i);
        let ghost before = names@;
        names.push(name);
        assert forall|j: int| 0 <= j <= i implies #[trigger] option_views(names@)[j]
            == zip_entry_names(src)[j] by {
            if j < i {
                assert(option_views(before)[j] == zip_entry_names(src).subrange(0, i as int)[j]);
            }
        }
        i += 1;
        assert(option_views(names@) =~= zip_entry_names(src).subrange(0, i as int));
    }
    assert(zip_entry_names(src).subrange(0, n as int) =~= zip_entry_names(src));
    Ok(listing_from_names(&names))
}

/// The bytes of the entry `entry_name` of the zip archive held in `bytes`.
pub fn read_entry_zip_bytes(bytes: &[u8], entry_name: &str) -> (r: Result<Vec<u8>, String>)
    ensures
        match zip_read_outcome(bytes@, entry_name@) {
            Ok(d) => r matches Ok(v) && v@ == d,
            Err(m) => r matches Err(e) && e@ == m,
        },
{
    let mut archive = match zip_open(bytes) {
        Ok(a) => a,
        Err(e) => return Err(prefixed("Invalid zip: ", e.as_str())),
    };
    match zip_read(&mut archive, entry_name) {
        Ok(data) => Ok(data),
        Err(EntryReadFailure::Missing(e)) => Err(prefixed("Entry not found: ", e.as_str())),
        Err(EntryReadFailure::Unreadable(e)) => Err(prefixed("Read entry error: ", e.as_str())),
    }
}

} // verus!
