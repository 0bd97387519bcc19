//! The name filter of the file browser and the search for matching files:
//! which files the tree shows, which entries of a zip archive (and of the
//! zip archives inside it) a search finds, and where a search starts.
//! Regular expressions are the `regex` crate's; the walk over directories on
//! disk is the caller's, which asks `disk_entry_action` what to do with each
//! entry it meets.

use vstd::prelude::*;
use crate::archive::{
    is_dir_name, zip_entry_data, zip_entry_names, zip_len, zip_lookup_error, zip_name_at,
    zip_open, zip_open_error, zip_read, zip_source,
};
use crate::browse::{last_segment, last_segment_chars, ref_views};
use crate::file_ref::{FileRef, FileRefView};
use crate::path::last_index_of;
use crate::text::{
    ascii_lower, chars_of, ends_with, is_suffix, replace_backslashes, slashes, string_from,
    to_ascii_lower,
};

verus! {

/// The most results a search collects.
pub const MAX_SEARCH_RESULTS: usize = 200;

/// The deepest directory level a search descends to.
pub const MAX_DEPTH: usize = 15;

// ---------------------------------------------------------------------------
// Regular expressions, through the `regex` crate
// ---------------------------------------------------------------------------

#[verifier::external_type_specification]
#[verifier::external_body]
pub struct ExRegex(regex::Regex);

/// A name for whether `RegexBuilder::new(pattern)` with case-insensitive
/// matching builds a regex.
pub uninterp spec fn pattern_compiles(pattern: Seq<char>) -> bool;

/// A name for `Regex::is_match` of the case-insensitive regex built from
/// `pattern`, on `text`.
pub uninterp spec fn pattern_matches(pattern: Seq<char>, text: Seq<char>) -> bool;

/// A name for the pattern text of a regex, as `Regex::as_str` gives it.
pub uninterp spec fn regex_source(re: regex::Regex) -> Seq<char>;

/// A name for "this regex was built with case-insensitive matching on and
/// every other builder option at its default".
pub uninterp spec fn built_insensitively(re: regex::Regex) -> bool;

/// `RegexBuilder::new(pattern).case_insensitive(true).build()`, its error
/// dropped. The contract claims that it succeeds exactly where
/// `pattern_compiles` says, and that the regex built holds `pattern` as its
/// text and was built case-insensitively.
#[verifier::external_body]
fn compile_pattern(pattern: &str) -> (r: Option<regex::Regex>)
    ensures
        r is Some <==> pattern_compiles(pattern@),
        r matches Some(re) ==> regex_source(re) == pattern@ && built_insensitively(re),
{
    regex::RegexBuilder::new(pattern).case_insensitive(true).build().ok()
}

/// `Regex::is_match` on `name`, for a regex built case-insensitively. The
/// contract claims that the answer is `pattern_matches` of the regex's
/// pattern text, the match of the case-insensitive regex built from it.
#[verifier::external_body]
fn regex_is_match(re: &regex::Regex, name: &str) -> (r: bool)
    requires
        built_insensitively(*re),
    ensures
        r == pattern_matches(regex_source(*re), name@),
{
    re.is_match(name)
}

/// The browser's name filter: the text typed by the user and, when that
/// text is a valid pattern, the regex built from it.
pub struct NameFilter {
    text: String,
    regex: Option<regex::Regex>,
}

/// The name a file is known by in an archive or a directory: a zip archive
/// when it ends in ".zip" in any ASCII case.
pub open spec fn zip_file_name(name: Seq<char>) -> bool {
    is_suffix(seq!['.', 'z', 'i', 'p'], ascii_lower(name))
}

/// Whether `name` ends in ".zip", in any ASCII case.
pub fn is_zip_name(name: &str) -> (r: bool)
    ensures
        r == zip_file_name(name@),
{
    let l = to_ascii_lower(chars_of(name).as_slice());
    let ext: Vec<char> = vec!['.', 'z', 'i', 'p'];
    ends_with(l.as_slice(), ext.as_slice())
}

impl NameFilter {
    /// The regex is present exactly when the text is a non-empty valid
    /// pattern, and then it is the regex built from the text.
    #[verifier::type_invariant]
    spec fn filter_inv(self) -> bool {
        match self.regex {
            Some(re) => regex_source(re) == self.text@ && built_insensitively(re) && self.text@.len()
                > 0 && pattern_compiles(self.text@),
            None => !(self.text@.len() > 0 && pattern_compiles(self.text@)),
        }
    }

    /// The text the filter was made from.
    pub closed spec fn pattern(&self) -> Seq<char> {
        self.text@
    }

    /// The filter holds a regex.
    pub closed spec fn active(&self) -> bool {
        self.regex is Some
    }

    /// The filter for the typed text: none for empty text, and a regex
    /// where the text is a valid pattern.
    pub fn new(text: &str) -> (r: NameFilter)
        ensures
            r.pattern() == text@,
            r.active() == (text@.len() > 0 && pattern_compiles(text@)),
    {
        proof {
            if text@.len() == 0 {
                assert(!(text@.len() > 0 && pattern_compiles(text@)));
            }
        }
        let copy = string_from(chars_of(text).as_slice());
        if text.unicode_len() == 0 {
            NameFilter { text: copy, regex: None }
        } else {
            NameFilter { text: copy, regex: compile_pattern(text) }
        }
    }

    /// Whether a regex is in force.
    pub fn is_active(&self) -> (r: bool)
        ensures
            r == self.active(),
    {
        self.regex.is_some()
    }

    /// Whether the typed text is not a valid pattern (the browser marks it).
    pub fn is_invalid(&self) -> (r: bool)
        ensures
            r == (!self.active() && self.pattern().len() > 0),
    {
        self.regex.is_none() && self.text.unicode_len() > 0
    }

    /// Whether the regex matches `name`.
    pub fn matches(&self, name: &str) -> (r: bool)
        ensures
            r == (self.active() && pattern_matches(self.pattern(), name@)),
    {
        proof {
            use_type_invariant(self);
        }
        match &self.regex {
            Some(re) => regex_is_match(re, name),
            None => false,
        }
    }

    /// Whether the tree shows a file named `name`: zip archives always show
    /// where `zips_exempt`, every file shows when no regex is in force, and
    /// otherwise only files whose names match.
    pub fn shows(&self, name: &str, zips_exempt: bool) -> (r: bool)
        ensures
            r == ((zips_exempt && zip_file_name(name@)) || !self.active() || pattern_matches(
                self.pattern(),
                name@,
            )),
    {
        if zips_exempt && is_zip_name(name) {
            return true;
        }
        if !self.is_active() {
            return true;
        }
        self.matches(name)
    }
}

// ---------------------------------------------------------------------------
// Searching zip archives
// ---------------------------------------------------------------------------

/// The filter accepts a file name: a regex is in force and matches it.
pub open spec fn accepts(f: NameFilter, name: Seq<char>) -> bool {
    f.active() && pattern_matches(f.pattern(), name)
}

/// The results found among the entries (named `names`) of the zip archive
/// that is the entry `inner` of the archive `z`.
pub open spec fn nested_hits(
    z: Seq<char>,
    inner: Seq<char>,
    names: Seq<Option<Seq<char>>>,
    f: NameFilter,
) -> Seq<FileRefView>
    decreases names.len(),
{
    if names.len() == 0 {
        seq![]
    } else {
        let rest = nested_hits(z, inner, names.drop_last(), f);
        match names.last() {
            Some(n) => if !is_dir_name(n) && accepts(f, last_segment(n)) {
                rest.push(FileRefView::NestedZipEntry(z, inner, n))
            } else {
                rest
            },
            None => rest,
        }
    }
}

/// The results found in the zip archive held by the entry `inner` of the
/// archive `z`, whose bytes are `bytes`; none where that entry cannot be
/// read or is no archive.
pub open spec fn inner_archive_hits(
    z: Seq<char>,
    bytes: Seq<u8>,
    inner: Seq<char>,
    f: NameFilter,
) -> Seq<FileRefView> {
    if zip_lookup_error(bytes, inner) is Some {
        seq![]
    } else {
        match zip_entry_data(bytes, inner) {
            Ok(d) => if zip_open_error(d) is Some {
                seq![]
            } else {
                nested_hits(z, inner, zip_entry_names(d), f)
            },
            Err(_) => seq![],
        }
    }
}

/// The results one entry of the archive `z` gives: none for an unreadable
/// entry or a directory; the hits inside it for a zip archive; itself when
/// the filter accepts its file name.
pub open spec fn entry_hits(
    z: Seq<char>,
    bytes: Seq<u8>,
    n: Option<Seq<char>>,
    f: NameFilter,
) -> Seq<FileRefView> {
    match n {
        Some(name) => if is_dir_name(name) {
            seq![]
        } else if zip_file_name(last_segment(name)) {
            inner_archive_hits(z, bytes, name, f)
        } else if accepts(f, last_segment(name)) {
            seq![FileRefView::ZipEntry(z, name)]
        } else {
            seq![]
        },
        None => seq![],
    }
}

/// The results the entries `names` of the archive `z` give, in order.
pub open spec fn entries_hits(
    z: Seq<char>,
    bytes: Seq<u8>,
    names: Seq<Option<Seq<char>>>,
    f: NameFilter,
) -> Seq<FileRefView>
    decreases names.len(),
{
    if names.len() == 0 {
        seq![]
    } else {
        entries_hits(z, bytes, names.drop_last(), f) + entry_hits(z, bytes, names.last(), f)
    }
}

/// Every result a search of the zip archive `z` with the bytes `bytes`
/// finds, before any limit: none when it does not open.
pub open spec fn zip_search_hits(z: Seq<char>, bytes: Seq<u8>, f: NameFilter) -> Seq<
    FileRefView,
> {
    if zip_open_error(bytes) is Some {
        seq![]
    } else {
        entries_hits(z, bytes, zip_entry_names(bytes), f)
    }
}

/// The results held after `hits` are added to `old` one by one while fewer
/// than `limit` are held.
pub open spec fn capped(old: Seq<FileRefView>, hits: Seq<FileRefView>, limit: int) -> Seq<
    FileRefView,
> {
    if old.len() >= limit {
        old
    } else if old.len() + hits.len() <= limit {
        old + hits
    } else {
        old + hits.subrange(0, limit - old.len())
    }
}

/// Below the limit nothing was cut, and one more hit is simply added.
proof fn lemma_capped_push(o: Seq<FileRefView>, h: Seq<FileRefView>, x: FileRefView, limit: int)
    requires
        capped(o, h, limit).len() < limit,
    ensures
        capped(o, h, limit) == o + h,
        capped(o, h.push(x), limit) == capped(o, h, limit).push(x),
{
    assert((o + h).push(x) =~= o + h.push(x));
}

/// At the limit, later hits change nothing.
proof fn lemma_capped_full(o: Seq<FileRefView>, h: Seq<FileRefView>, x: Seq<FileRefView>, limit: int)
    requires
        capped(o, h, limit).len() >= limit,
    ensures
        capped(o, h + x, limit) == capped(o, h, limit),
{
    if o.len() < limit {
        assert((h + x).subrange(0, limit - o.len()) =~= h.subrange(0, limit - o.len()));
        if o.len() + h.len() == limit {
            assert(h.subrange(0, limit - o.len()) =~= h);
        }
    }
}

/// Law: a search never holds more than `MAX_SEARCH_RESULTS` results
/// unless it started with more, and it keeps the results it started with.
pub proof fn lemma_capped_bounds(old: Seq<FileRefView>, hits: Seq<FileRefView>)
    ensures
        capped(old, hits, MAX_SEARCH_RESULTS as int).len() <= if old.len() > MAX_SEARCH_RESULTS {
            old.len()
        } else {
            MAX_SEARCH_RESULTS as nat
        },
        capped(old, hits, MAX_SEARCH_RESULTS as int).subrange(0, old.len() as int) == old,
{
    let r = capped(old, hits, MAX_SEARCH_RESULTS as int);
    assert(r.subrange(0, old.len() as int) =~= old);
}

/// `h` followed by nothing is `h`.
proof fn lemma_append_empty(h: Seq<FileRefView>)
    ensures
        h + Seq::<FileRefView>::empty() == h,
{
    assert(h + Seq::<FileRefView>::empty() =~= h);
}

/// A copy of a string, by its characters.
fn copy_str(s: &str) -> (r: String)
    ensures
        r@ == s@,
{
    string_from(chars_of(s).as_slice())
}

/// Searches the zip archive held by the entry `inner` of the open archive
/// `archive` (the file `zip_path`), adding what it finds.
fn search_inner_archive(
    zip_path: &str,
    inner: &str,
    archive: &mut zip::ZipArchive<std::io::Cursor<Vec<u8>>>,
    filter: &NameFilter,
    results: &mut Vec<FileRef>,
    Ghost(o): Ghost<Seq<FileRefView>>,
    Ghost(h): Ghost<Seq<FileRefView>>,
)
    requires
        ref_views(old(results)@) == capped(o, h, MAX_SEARCH_RESULTS as int),
    ensures
        zip_source(*final(archive)) == zip_source(*old(archive)),
        ref_views(final(results)@) == capped(
            o,
            h + inner_archive_hits(zip_path@, zip_source(*old(archive)), inner@, *filter),
            MAX_SEARCH_RESULTS as int,
        ),
{
    let ghost src = zip_source(*archive);
    let ghost lim = MAX_SEARCH_RESULTS as int;
    let data = match zip_read(archive, inner) {
        Ok(d) => d,
        Err(_) => {
            proof {
                lemma_append_empty(h);
            }
            return;
        },
    };
    assert(inner_archive_hits(zip_path@, src, inner@, *filter) == (if zip_open_error(data@) is Some {
        Seq::<FileRefView>::empty()
    } else {
        nested_hits(zip_path@, inner@, zip_entry_names(data@), *filter)
    }));
    let mut nested = match zip_open(data.as_slice()) {
        Ok(a) => a,
        Err(_) => {
            proof {
                lemma_append_empty(h);
            }
            return;
        },
    };
    let ghost names = zip_entry_names(data@);
    let m = zip_len(&nested);
    let mut j: usize = 0;
    while j < m
        invariant
            j <= m,
            m == names.len(),
            names == zip_entry_names(data@),
            zip_source(nested) == data@,
            zip_source(*archive) == src,
            src == zip_source(*old(archive)),
            lim == MAX_SEARCH_RESULTS as int,
            inner_archive_hits(zip_path@, src, inner@, *filter) == nested_hits(
                zip_path@,
                inner@,
                names,
                *filter,
            ),
            ref_views(results@) == capped(
                o,
                h + nested_hits(zip_path@, inner@, names.subrange(0, j as int), *filter),
                lim,
            ),
        decreases m - j,
    {
        let ghost done = h + nested_hits(zip_path@, inner@, names.subrange(0, j as int), *filter);
        if results.len() >= MAX_SEARCH_RESULTS {
            proof {
                let rest = nested_hits(zip_path@, inner@, names, *filter).subrange(
                    nested_hits(zip_path@, inner@, names.subrange(0, j as int), *filter).len() as int,
                    nested_hits(zip_path@, inner@, names, *filter).len() as int,
                );
                lemma_nested_prefix(zip_path@, inner@, names, j as int, *filter);
                lemma_capped_full(o, done, rest, lim);
                assert(done + rest =~= h + nested_hits(zip_path@, inner@, names, *filter));
            }
            return;
        }
        assert(names.subrange(0, j + 1).drop_last() =~= names.subrange(0, j as int));
        assert(names.subrange(0, j + 1).last() == names[j as int]);
        match zip_name_at(&mut nested, j) {
            Some(name) => {
                let nc = chars_of(name.as_str());
                let is_dir = nc.len() > 0 && nc[nc.len() - 1] == '/';
                if !is_dir {
                    let file_name = string_from(last_segment_chars(nc.as_slice()).as_slice());
                    if filter.matches(file_name.as_str()) {
                        let hit = FileRef::NestedZipEntry {
                            outer_zip: copy_str(zip_path),
                            inner_entry: copy_str(inner),
                            entry: name,
                        };
                        proof {
                            lemma_capped_push(o, done, hit@, lim);
                        }
                        let ghost before = results@;
                        results.push(hit);
                        assert(ref_views(results@) =~= ref_views(before).push(hit@));
                        assert(done.push(hit@) =~= h + nested_hits(
                            zip_path@,
                            inner@,
                            names.subrange(0, j + 1),
                            *filter,
                        ));
                    } else {
                        assert(done =~= h + nested_hits(zip_path@, inner@, names.subrange(0, j + 1), *filter));
                    }
                } else {
                    assert(done =~= h + nested_hits(zip_path@, inner@, names.subrange(0, j + 1), *filter));
                }
            },
            None => {
                assert(done =~= h + nested_hits(zip_path@, inner@, names.subrange(0, j + 1), *filter));
            },
        }
        j += 1;
    }
    assert(names.subrange(0, m as int) =~= names);
}

/// The hits of a prefix of the entries begin the hits of all of them.
proof fn lemma_nested_prefix(
    z: Seq<char>,
    inner: Seq<char>,
    names: Seq<Option<Seq<char>>>,
    j: int,
    f: NameFilter,
)
    requires
        0 <= j <= names.len(),
    ensures
        nested_hits(z, inner, names.subrange(0, j), f).len() <= nested_hits(z, inner, names, f).len(),
        nested_hits(z, inner, names, f) == nested_hits(z, inner, names.subrange(0, j), f)
            + nested_hits(z, inner, names, f).subrange(
            nested_hits(z, inner, names.subrange(0, j), f).len() as int,
            nested_hits(z, inner, names, f).len() as int,
        ),
    decreases names.len() - j,
{
    if j == names.len() {
        assert(names.subrange(0, j) =~= names);
        assert(nested_hits(z, inner, names, f).subrange(
            nested_hits(z, inner, names, f).len() as int,
            nested_hits(z, inner, names, f).len() as int,
        ) =~= Seq::<FileRefView>::empty());
        assert(nested_hits(z, inner, names, f) + Seq::<FileRefView>::empty() =~= nested_hits(z, inner, names, f));
    } else {
        lemma_nested_prefix(z, inner, names, j + 1, f);
        let a = nested_hits(z, inner, names.subrange(0, j), f);
        let b = nested_hits(z, inner, names.subrange(0, j + 1), f);
        let all = nested_hits(z, inner, names, f);
        assert(names.subrange(0, j + 1).drop_last() =~= names.subrange(0, j));
        assert(b.len() >= a.len());
        assert(b.subrange(0, a.len() as int) =~= a);
        assert(all =~= a + all.subrange(a.len() as int, all.len() as int));
    }
}

/// The hits of a prefix of the entries begin the hits of all of them.
proof fn lemma_entries_prefix(
    z: Seq<char>,
    bytes: Seq<u8>,
    names: Seq<Option<Seq<char>>>,
    j: int,
    f: NameFilter,
)
    requires
        0 <= j <= names.len(),
    ensures
        entries_hits(z, bytes, names.subrange(0, j), f).len() <= entries_hits(z, bytes, names, f).len(),
        entries_hits(z, bytes, names, f) == entries_hits(z, bytes, names.subrange(0, j), f)
            + entries_hits(z, bytes, names, f).subrange(
            entries_hits(z, bytes, names.subrange(0, j), f).len() as int,
            entries_hits(z, bytes, names, f).len() as int,
        ),
    decreases names.len() - j,
{
    let all = entries_hits(z, bytes, names, f);
    if j == names.len() {
        assert(names.subrange(0, j) =~= names);
        assert(all =~= all + all.subrange(all.len() as int, all.len() as int));
    } else {
        lemma_entries_prefix(z, bytes, names, j + 1, f);
        let a = entries_hits(z, bytes, names.subrange(0, j), f);
        let b = entries_hits(z, bytes, names.subrange(0, j + 1), f);
        assert(names.subrange(0, j + 1).drop_last() =~= names.subrange(0, j));
        assert(b.subrange(0, a.len() as int) =~= a);
        assert(all =~= a + all.subrange(a.len() as int, all.len() as int));
    }
}

/// Searches the zip archive held in `bytes` (the file `zip_path`) for files
/// whose names the filter accepts, looking one level into the zip archives
/// it holds, and adds what it finds to `results` until they number
/// `MAX_SEARCH_RESULTS`.
pub fn search_zip_bytes(zip_path: &str, bytes: &[u8], filter: &NameFilter, results: &mut Vec<FileRef>)
    ensures
        ref_views(final(results)@) == capped(
            ref_views(old(results)@),
            zip_search_hits(zip_path@, bytes@, *filter),
            MAX_SEARCH_RESULTS as int,
        ),
{
    let ghost o = ref_views(results@);
    let ghost lim = MAX_SEARCH_RESULTS as int;
    let mut archive = match zip_open(bytes) {
        Ok(a) => a,
        Err(_) => {
            proof {
                lemma_append_empty(o);
            }
            return;
        },
    };
    let ghost src = zip_source(archive);
    let ghost names = zip_entry_names(src);
    let n = zip_len(&archive);
    let mut i: usize = 0;
    assert(entries_hits(zip_path@, src, names.subrange(0, 0), *filter) =~= Seq::<FileRefView>::empty());
    proof {
        lemma_append_empty(o);
    }
    while i < n
        invariant
            i <= n,
            n == names.len(),
            src == bytes@,
            names == zip_entry_names(src),
            zip_search_hits(zip_path@, bytes@, *filter) == entries_hits(zip_path@, src, names, *filter),
            zip_source(archive) == src,
            lim == MAX_SEARCH_RESULTS as int,
            o == ref_views(old(results)@),
            ref_views(results@) == capped(o, entries_hits(zip_path@, src, names.subrange(0, i as int), *filter), lim),
        decreases n - i,
    {
        let ghost done = entries_hits(zip_path@, src, names.subrange(0, i as int), *filter);
        if results.len() >= MAX_SEARCH_RESULTS {
            proof {
                let all = entries_hits(zip_path@, src, names, *filter);
                lemma_entries_prefix(zip_path@, src, names, i as int, *filter);
                lemma_capped_full(o, done, all.subrange(done.len() as int, all.len() as int), lim);
            }
            return;
        }
        assert(names.subrange(0, i + 1).drop_last() =~= names.subrange(0, i as int));
        assert(names.subrange(0, i + 1).last() == names[i as int]);
        let ghost next = entries_hits(zip_path@, src, names.subrange(0, i + 1), *filter);
        assert(next == done + entry_hits(zip_path@, src, names[i as int], *filter));
        match zip_name_at(&mut archive, i) {
            Some(name) => {
                let nc = chars_of(name.as_str());
                let is_dir = nc.len() > 0 && nc[nc.len() - 1] == '/';
                if !is_dir {
                    let file_name = string_from(last_segment_chars(nc.as_slice()).as_slice());
                    if is_zip_name(file_name.as_str()) {
                        search_inner_archive(
                            zip_path,
                            name.as_str(),
                            &mut archive,
                            filter,
                            results,
                            Ghost(o),
                            Ghost(done),
                        );
                    } else if filter.matches(file_name.as_str()) {
                        let hit = FileRef::ZipEntry { zip_path: copy_str(zip_path), entry: name };
                        proof {
                            lemma_capped_push(o, done, hit@, lim);
                        }
                        let ghost before = results@;
                        results.push(hit);
                        assert(ref_views(results@) =~= ref_views(before).push(hit@));
                        assert(done.push(hit@) =~= next);
                    } else {
                        assert(done =~= next);
                    }
                } else {
                    assert(done =~= next);
                }
            },
            None => {
                assert(done =~= next);
            },
        }
        i += 1;
    }
    assert(names.subrange(0, n as int) =~= names);
}

// ---------------------------------------------------------------------------
// Searching directories on disk
// ---------------------------------------------------------------------------

/// What a search does with an entry of a directory on disk.
#[derive(Debug, Clone, Copy, PartialEq, Eq, Structural)]
pub enum SearchAction {
    /// Search the subdirectory.
    Descend,
    /// Search inside the zip archive.
    SearchZip,
    /// The file is a result.
    Keep,
    /// The file is no result.
    Skip,
}

/// What a search does with the directory entry named `name`.
pub open spec fn disk_action(name: Seq<char>, is_dir: bool, f: NameFilter) -> SearchAction {
    if is_dir {
        SearchAction::Descend
    } else if zip_file_name(name) {
        SearchAction::SearchZip
    } else if accepts(f, name) {
        SearchAction::Keep
    } else {
        SearchAction::Skip
    }
}

/// What a search does with the directory entry named `name`.
pub fn disk_entry_action(name: &str, is_dir: bool, filter: &NameFilter) -> (r: SearchAction)
    ensures
        r == disk_action(name@, is_dir, *filter),
{
    if is_dir {
        SearchAction::Descend
    } else if is_zip_name(name) {
        SearchAction::SearchZip
    } else if filter.matches(name) {
        SearchAction::Keep
    } else {
        SearchAction::Skip
    }
}

/// Whether a search goes on at directory depth `depth` with `found` results.
pub fn search_continues(depth: usize, found: usize) -> (r: bool)
    ensures
        r == (depth <= MAX_DEPTH && found < MAX_SEARCH_RESULTS),
{
    depth <= MAX_DEPTH && found < MAX_SEARCH_RESULTS
}

// ---------------------------------------------------------------------------
// Where a search starts
// ---------------------------------------------------------------------------

/// A name for `std::path::Path::parent` of a path text, taken as text.
pub uninterp spec fn path_parent(path: Seq<char>) -> Option<Seq<char>>;

/// `Path::new(path).parent()`, as text. Its documentation says that a path
/// that is empty or is only the root has no parent; the contract claims
/// that, and otherwise only that the result is `path_parent` of the text.
#[verifier::external_body]
fn parent_text(path: &str) -> (r: Option<String>)
    ensures
        match r {
            Some(p) => path_parent(path@) == Some(p@),
            None => path_parent(path@) is None,
        },
        (path@.len() == 0 || path@ == seq!['/']) ==> r is None,
{
    match std::path::Path::new(path).parent() {
        Some(p) => Some(p.to_string_lossy().into_owned()),
        None => None,
    }
}

/// The parent of `p` with backslashes read as slashes.
pub open spec fn parent_slashed(p: Seq<char>) -> Option<Seq<char>> {
    match path_parent(p) {
        Some(q) => Some(slashes(q)),
        None => None,
    }
}

/// Where a search starts: the selected directory, or the directory holding
/// the selected file or archive, or else the first asset root.
pub open spec fn search_root_of(
    selected: Option<FileRefView>,
    selected_is_dir: bool,
    asset_roots: Seq<Seq<char>>,
) -> Option<Seq<char>> {
    let from_selection = match selected {
        Some(FileRefView::Disk(p)) => if selected_is_dir {
            Some(slashes(p))
        } else {
            parent_slashed(p)
        },
        Some(FileRefView::ZipEntry(z, _)) => parent_slashed(z),
        Some(FileRefView::NestedZipEntry(o, _, _)) => parent_slashed(o),
        None => None,
    };
    match from_selection {
        Some(x) => Some(x),
        None => if asset_roots.len() > 0 {
            Some(asset_roots[0])
        } else {
            None
        },
    }
}

/// The parent of `p` as text with slashes.
fn slashed_parent(p: &str) -> (r: Option<String>)
    ensures
        match r {
            Some(q) => parent_slashed(p@) == Some(q@),
            None => parent_slashed(p@) is None,
        },
{
    match parent_text(p) {
        Some(q) => Some(string_from(replace_backslashes(chars_of(q.as_str()).as_slice()).as_slice())),
        None => None,
    }
}

/// Pick the root directory to search from: the selected directory, the
/// parent of the selected file (or of the archive holding it), or else the
/// first asset root. `selected_is_dir` tells whether a selected disk path is
/// a directory.
pub fn search_root(selected: &Option<FileRef>, selected_is_dir: bool, asset_roots: &Vec<String>) -> (r:
    Option<String>)
    ensures
        match search_root_of(
            match selected {
                Some(f) => Some(f@),
                None => None,
            },
            selected_is_dir,
            crate::text::str_views(asset_roots@),
        ) {
            Some(x) => r matches Some(s) && s@ == x,
            None => r is None,
        },
{
    let from_selection = match selected {
        Some(FileRef::Disk(p)) => if selected_is_dir {
            Some(string_from(replace_backslashes(chars_of(p.as_str()).as_slice()).as_slice()))
        } else {
            slashed_parent(p.as_str())
        },
        Some(FileRef::ZipEntry { zip_path, .. }) => slashed_parent(zip_path.as_str()),
        Some(FileRef::NestedZipEntry { outer_zip, .. }) => slashed_parent(outer_zip.as_str()),
        None => None,
    };
    match from_selection {
        Some(x) => Some(x),
        None => if asset_roots.len() > 0 {
            assert(crate::text::str_views(asset_roots@)[0] == asset_roots@[0]@);
            Some(copy_str(asset_roots[0].as_str()))
        } else {
            None
        },
    }
}

// ---------------------------------------------------------------------------
// Laws of the archive search
// ---------------------------------------------------------------------------

/// Characters after the last `c` do not move the last `c`.
proof fn lemma_last_index_append(d: Seq<char>, n: Seq<char>, c: char)
    requires
        forall|i: int| 0 <= i < n.len() ==> n[i] != c,
    ensures
        last_index_of(d + n, c) == last_index_of(d, c),
    decreases n.len(),
{
    if n.len() == 0 {
        assert(d + n =~= d);
    } else {
        assert((d + n).drop_last() =~= d + n.drop_last());
        lemma_last_index_append(d, n.drop_last(), c);
    }
}

/// The file name of a path `d + n`, where `d` is empty or ends in '/' and
/// `n` holds no '/', is `n`.
proof fn lemma_file_name_after_folders(d: Seq<char>, n: Seq<char>)
    requires
        d.len() == 0 || d.last() == '/',
        forall|i: int| 0 <= i < n.len() ==> n[i] != '/',
    ensures
        last_segment(d + n) == n,
{
    lemma_last_index_append(d, n, '/');
    assert((d + n).subrange(d.len() as int, (d + n).len() as int) =~= n);
}

/// Law: an entry of a searched archive that is neither a folder nor a zip
/// archive is a result exactly when a regex is in force and matches its
/// file name `n`, the part after the last '/'; the folders `d` before the
/// name play no part, so the entries `d + n` and `n` are decided alike.
pub proof fn lemma_entry_hit_by_file_name(
    z: Seq<char>,
    bytes: Seq<u8>,
    d: Seq<char>,
    n: Seq<char>,
    f: NameFilter,
)
    requires
        d.len() == 0 || d.last() == '/',
        n.len() > 0,
        forall|i: int| 0 <= i < n.len() ==> n[i] != '/',
        !zip_file_name(n),
    ensures
        entry_hits(z, bytes, Some(d + n), f) == (if f.active() && pattern_matches(f.pattern(), n) {
            seq![FileRefView::ZipEntry(z, d + n)]
        } else {
            Seq::<FileRefView>::empty()
        }),
        (entry_hits(z, bytes, Some(d + n), f).len() > 0) == (entry_hits(z, bytes, Some(n), f).len()
            > 0),
{
    lemma_file_name_after_folders(d, n);
    lemma_file_name_after_folders(Seq::empty(), n);
    assert(Seq::<char>::empty() + n =~= n);
    assert((d + n).last() == n.last());
}

/// Law: an entry of an archive nested in a searched archive is a result
/// exactly when it is no folder and a regex is in force and matches its
/// file name `n`, the part after the last '/', whatever folders `d` precede
/// it; the result follows those of the entries listed before it.
pub proof fn lemma_nested_hit_by_file_name(
    z: Seq<char>,
    inner: Seq<char>,
    names: Seq<Option<Seq<char>>>,
    d: Seq<char>,
    n: Seq<char>,
    f: NameFilter,
)
    requires
        d.len() == 0 || d.last() == '/',
        n.len() > 0,
        forall|i: int| 0 <= i < n.len() ==> n[i] != '/',
    ensures
        nested_hits(z, inner, names.push(Some(d + n)), f) == nested_hits(z, inner, names, f) + (
        if f.active() && pattern_matches(f.pattern(), n) {
            seq![FileRefView::NestedZipEntry(z, inner, d + n)]
        } else {
            Seq::<FileRefView>::empty()
        }),
{
    lemma_file_name_after_folders(d, n);
    assert((d + n).last() == n.last());
    let ns = names.push(Some(d + n));
    assert(ns.drop_last() =~= names);
    let rest = nested_hits(z, inner, names, f);
    assert(rest + Seq::<FileRefView>::empty() =~= rest);
    assert(rest.push(FileRefView::NestedZipEntry(z, inner, d + n)) =~= rest + seq![
        FileRefView::NestedZipEntry(z, inner, d + n),
    ]);
}

} // verus!
