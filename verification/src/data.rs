//! The persisted metadata of the asset manager: directory roles, grids,
//! tags and bundles, with the queries and edits made on them.
//!
//! All metadata is stored in a single `asset_manager.toml` in the data
//! directory. Sets and maps are held as vectors kept sorted by key (see
//! `ManagerData::wf`), the order in which the stored tables are iterated.

use vstd::prelude::*;
use crate::sorted::{
    find_key, has_member, index_of_key, keys_of, lemma_index_of_contains,
    lemma_with_member_sorted, lookup, with_member, strictly_sorted, add_member, drop_member,
    drop_entry, without_entry, without_member, lemma_without_member_sorted,
    lemma_without_entry_keys, lemma_index_of_key, with_entry, put_entry, lemma_with_entry_keys,
    lemma_with_entry_entries, lemma_without_entry_entries, lemma_lookup_with_entry,
    lemma_lookup_without_entry, lemma_index_of_sorted, bind, unbind, get_entry, insert_member, remove_member,
};
use crate::text::{
    chars_of, concat_chars, decimal, decimal_chars, is_prefix, trim, trim_chars,
    replace_backslashes, slashes, starts_with, str_views, string_from, lex_lt, lex_less,
    lemma_lex_transitive, views,
};

verus! {

/// A creator root and the asset root it lies in.
#[derive(Debug)]
pub struct CreatorRootEntry {
    pub asset_root: String,
}

/// An asset pack root and the creator root it lies in.
#[derive(Debug)]
pub struct AssetPackRootEntry {
    pub creator_root: String,
}

/// A saved grid: cell width and height in pixels.
#[derive(Debug, Clone, Copy, PartialEq, Eq, Structural)]
pub struct GridDef {
    pub cell_w: u32,
    pub cell_h: u32,
}

/// A bundle: where it exports to and which tags select its files.
#[derive(Debug)]
pub struct BundleDef {
    pub export_path: String,
    /// Tag filter: true = tag must be present, false = tag must be absent.
    /// Tags not in the map are ignored (don't care). Sorted by tag.
    pub tag_filter: Vec<(String, bool)>,
}

/// The role a directory has in the hierarchy.
#[derive(Debug, Clone, Copy, PartialEq, Eq, Structural)]
pub enum DirRole {
    AssetRoot,
    CreatorRoot,
    AssetPackRoot,
    ExportRoot,
    NoRole,
}

/// The persisted metadata. Every set and map is a vector sorted by key,
/// without repetition: the `BTreeSet` and `BTreeMap` contracts in vstd hold
/// only for keys whose ordering Verus knows, which `String` is not, so an
/// ordered map with `String` keys would carry nothing to prove with.
#[derive(Debug)]
pub struct ManagerData {
    pub asset_roots: Vec<String>,
    pub creator_roots: Vec<(String, CreatorRootEntry)>,
    pub asset_pack_roots: Vec<(String, AssetPackRootEntry)>,
    pub grids: Vec<(String, GridDef)>,
    pub bundles: Vec<(String, BundleDef)>,
    pub export_roots: Vec<String>,
    /// Registered tag names.
    pub tag_names: Vec<String>,
    /// Tags per file: key is the file's string form, value its sorted tags.
    pub tags: Vec<(String, Vec<String>)>,
}

// ---------------------------------------------------------------------------
// Specifications
// ---------------------------------------------------------------------------

/// The first root, from index `i` on, that `n` lies strictly inside: the root
/// is a prefix of `n` and `n` is longer.
pub open spec fn first_enclosing(roots: Seq<Seq<char>>, n: Seq<char>, i: int) -> Option<int>
    decreases roots.len() - i,
{
    if i < 0 || i >= roots.len() {
        None
    } else if is_prefix(roots[i], n) && n.len() > roots[i].len() {
        Some(i)
    } else {
        first_enclosing(roots, n, i + 1)
    }
}

/// Some tag set holds `x`.
pub open spec fn tagged_anywhere(tags: Seq<(String, Vec<String>)>, x: Seq<char>) -> bool {
    exists|i: int| 0 <= i < tags.len() && #[trigger] str_views(tags[i].1@).contains(x)
}

/// How many of the first `n` files have tag `t`.
pub open spec fn count_tagged(tags: Seq<(String, Vec<String>)>, t: Seq<char>, n: int) -> nat
    decreases n,
{
    if n <= 0 || n > tags.len() {
        0
    } else {
        count_tagged(tags, t, n - 1) + (if str_views(tags[n - 1].1@).contains(t) {
            1nat
        } else {
            0nat
        })
    }
}

/// The tag map with `t` removed from every set and emptied sets dropped,
/// as views.
pub open spec fn stripped(tags: Seq<(String, Vec<String>)>, t: Seq<char>) -> Seq<
    (Seq<char>, Seq<Seq<char>>),
>
    decreases tags.len(),
{
    if tags.len() == 0 {
        Seq::empty()
    } else {
        let rest = stripped(tags.drop_last(), t);
        let s2 = str_views(without_member(tags.last().1@, t));
        if s2.len() > 0 {
            rest.push((tags.last().0@, s2))
        } else {
            rest
        }
    }
}

/// The tag map as views.
pub open spec fn tag_map_view(tags: Seq<(String, Vec<String>)>) -> Seq<(Seq<char>, Seq<Seq<char>>)> {
    tags.map_values(|e: (String, Vec<String>)| (e.0@, str_views(e.1@)))
}

/// Some filter entry requires its tag.
pub open spec fn any_required(f: Seq<(String, bool)>) -> bool {
    exists|i: int| 0 <= i < f.len() && (#[trigger] f[i]).1
}

/// A tag set satisfies a filter: required tags present, excluded absent.
pub open spec fn passes_filter(f: Seq<(String, bool)>, set: Seq<Seq<char>>) -> bool {
    forall|i: int|
        0 <= i < f.len() ==> ((#[trigger] f[i]).1 ==> set.contains(f[i].0@)) && (!f[i].1
            ==> !set.contains(f[i].0@))
}

/// The keys, among the first `n` files, whose tags satisfy the filter.
pub open spec fn matching_keys(tags: Seq<(String, Vec<String>)>, f: Seq<(String, bool)>, n: int) -> Seq<
    Seq<char>,
>
    decreases n,
{
    if n <= 0 || n > tags.len() {
        Seq::empty()
    } else if passes_filter(f, str_views(tags[n - 1].1@)) {
        matching_keys(tags, f, n - 1).push(tags[n - 1].0@)
    } else {
        matching_keys(tags, f, n - 1)
    }
}

impl ManagerData {
    /// Every set and map is strictly sorted by key, as are the tag sets and
    /// the bundle filters.
    pub open spec fn wf(&self) -> bool {
        &&& strictly_sorted(str_views(self.asset_roots@))
        &&& strictly_sorted(keys_of(self.creator_roots@))
        &&& strictly_sorted(keys_of(self.asset_pack_roots@))
        &&& strictly_sorted(keys_of(self.grids@))
        &&& strictly_sorted(keys_of(self.bundles@))
        &&& strictly_sorted(str_views(self.export_roots@))
        &&& strictly_sorted(str_views(self.tag_names@))
        &&& strictly_sorted(keys_of(self.tags@))
        &&& forall|i: int|
            0 <= i < self.tags@.len() ==> strictly_sorted(str_views(#[trigger] self.tags@[i].1@))
        &&& forall|i: int|
            0 <= i < self.bundles@.len() ==> strictly_sorted(
                keys_of(#[trigger] self.bundles@[i].1.tag_filter@),
            )
    }

    /// The role of a directory path (backslashes read as slashes).
    pub open spec fn role_of(&self, n: Seq<char>) -> DirRole {
        if str_views(self.asset_roots@).contains(n) {
            DirRole::AssetRoot
        } else if keys_of(self.creator_roots@).contains(n) {
            DirRole::CreatorRoot
        } else if keys_of(self.asset_pack_roots@).contains(n) {
            DirRole::AssetPackRoot
        } else if str_views(self.export_roots@).contains(n) {
            DirRole::ExportRoot
        } else {
            DirRole::NoRole
        }
    }

    /// A tag is known: registered, or applied to some file.
    pub open spec fn known_tag(&self, x: Seq<char>) -> bool {
        str_views(self.tag_names@).contains(x) || tagged_anywhere(self.tags@, x)
    }
}

/// The tags of file `k` (none when it has no entry).
pub open spec fn tag_set_of(tags: Seq<(String, Vec<String>)>, k: Seq<char>) -> Seq<Seq<char>> {
    match lookup(tags, k) {
        Some(v) => str_views(v@),
        None => Seq::empty(),
    }
}

/// The map has an entry for `k`.
pub open spec fn has_entry<V>(m: Seq<(String, V)>, k: Seq<char>) -> bool {
    index_of_key(keys_of(m), k, 0) is Some
}

/// `after` is `before` with tag `t` toggled on file `key`: added when absent,
/// removed when present, the file's entry dropped when left without tags;
/// nothing else changes.
pub open spec fn tag_toggled(before: ManagerData, after: ManagerData, key: Seq<char>, t: Seq<char>) -> bool {
    let was = tag_set_of(before.tags@, key).contains(t);
    &&& forall|y: Seq<char>|
        #[trigger] tag_set_of(after.tags@, key).contains(y) <==> (if was {
            y != t && tag_set_of(before.tags@, key).contains(y)
        } else {
            y == t || tag_set_of(before.tags@, key).contains(y)
        })
    &&& has_entry(after.tags@, key) <==> tag_set_of(after.tags@, key).len() > 0
    &&& forall|q: Seq<char>| q != key ==> #[trigger] lookup(after.tags@, q) == lookup(before.tags@, q)
    &&& after.tag_names == before.tag_names
    &&& after.bundles == before.bundles
    &&& after.asset_roots == before.asset_roots
    &&& after.creator_roots == before.creator_roots
    &&& after.asset_pack_roots == before.asset_pack_roots
    &&& after.grids == before.grids
    &&& after.export_roots == before.export_roots
}

/// The next state of a tag in a bundle filter: ignored, then required,
/// then excluded, then ignored again.
pub open spec fn next_filter_state(cur: Option<bool>) -> Option<bool> {
    match cur {
        None => Some(true),
        Some(true) => Some(false),
        Some(false) => None,
    }
}

/// `after` is `before` with tag `t` set on file `key` (added when `add`,
/// removed otherwise, the entry dropped when left without tags); nothing
/// else changes.
pub open spec fn tag_set_on(before: ManagerData, after: ManagerData, key: Seq<char>, t: Seq<char>, add: bool) -> bool {
    &&& forall|y: Seq<char>|
        #[trigger] tag_set_of(after.tags@, key).contains(y) <==> (if add {
            y == t || tag_set_of(before.tags@, key).contains(y)
        } else {
            y != t && tag_set_of(before.tags@, key).contains(y)
        })
    &&& has_entry(after.tags@, key) <==> tag_set_of(after.tags@, key).len() > 0
    &&& forall|q: Seq<char>| q != key ==> #[trigger] lookup(after.tags@, q) == lookup(before.tags@, q)
    &&& after.tag_names == before.tag_names
    &&& after.bundles == before.bundles
    &&& after.asset_roots == before.asset_roots
    &&& after.creator_roots == before.creator_roots
    &&& after.asset_pack_roots == before.asset_pack_roots
    &&& after.grids == before.grids
    &&& after.export_roots == before.export_roots
}

/// File `q` of `now` holds the tags of `orig` with `t` added (`add`) or
/// removed, and has an entry exactly when that set is not empty.
pub open spec fn tag_applied(now: Seq<(String, Vec<String>)>, orig: Seq<(String, Vec<String>)>, q: Seq<char>, t: Seq<char>, add: bool) -> bool {
    &&& forall|y: Seq<char>|
        #[trigger] tag_set_of(now, q).contains(y) <==> (if add {
            y == t || tag_set_of(orig, q).contains(y)
        } else {
            y != t && tag_set_of(orig, q).contains(y)
        })
    &&& has_entry(now, q) <==> tag_set_of(now, q).len() > 0
}

/// Applying the same tag change again, or for the first time, leaves file
/// `k` with the change applied once to the tags it started with.
proof fn lemma_apply_step(
    before: Seq<(String, Vec<String>)>,
    after: Seq<(String, Vec<String>)>,
    orig: Seq<(String, Vec<String>)>,
    k: Seq<char>,
    t: Seq<char>,
    add: bool,
)
    requires
        forall|y: Seq<char>|
            #[trigger] tag_set_of(after, k).contains(y) <==> (if add {
                y == t || tag_set_of(before, k).contains(y)
            } else {
                y != t && tag_set_of(before, k).contains(y)
            }),
        has_entry(after, k) <==> tag_set_of(after, k).len() > 0,
        tag_applied(before, orig, k, t, add) || lookup(before, k) == lookup(orig, k),
    ensures
        tag_applied(after, orig, k, t, add),
{
    assert forall|y: Seq<char>| #[trigger] tag_set_of(after, k).contains(y) <==> (if add {
        y == t || tag_set_of(orig, k).contains(y)
    } else {
        y != t && tag_set_of(orig, k).contains(y)
    }) by {
        assert(tag_set_of(after, k).contains(y) <==> (if add {
            y == t || tag_set_of(before, k).contains(y)
        } else {
            y != t && tag_set_of(before, k).contains(y)
        }));
        if lookup(before, k) != lookup(orig, k) {
            assert(tag_set_of(before, k).contains(y) <==> (if add {
                y == t || tag_set_of(orig, k).contains(y)
            } else {
                y != t && tag_set_of(orig, k).contains(y)
            }));
        }
    }
}

/// A file whose lookup is unchanged keeps an applied change.
proof fn lemma_same_lookup_applied(
    before: Seq<(String, Vec<String>)>,
    after: Seq<(String, Vec<String>)>,
    orig: Seq<(String, Vec<String>)>,
    q: Seq<char>,
    t: Seq<char>,
    add: bool,
)
    requires
        tag_applied(before, orig, q, t, add),
        lookup(after, q) == lookup(before, q),
    ensures
        tag_applied(after, orig, q, t, add),
{
    assert(tag_set_of(after, q) == tag_set_of(before, q));
    assert(has_entry(after, q) == (lookup(after, q) is Some));
    assert(has_entry(before, q) == (lookup(before, q) is Some));
}

// ---------------------------------------------------------------------------
// Executable functions
// ---------------------------------------------------------------------------

/// A copy of a vector of strings.
pub fn clone_strings(v: &Vec<String>) -> (r: Vec<String>)
    ensures
        r@ == v@,
{
    let mut r: Vec<String> = Vec::new();
    let mut i: usize = 0;
    while i < v.len()
        invariant
            i <= v.len(),
            r@ == v@.subrange(0, i as int),
        decreases v.len() - i,
    {
        r.push(v[i].clone());
        i += 1;
        assert(r@ =~= v@.subrange(0, i as int));
    }
    assert(r@ =~= v@);
    r
}

/// The path with backslashes read as slashes, as characters.
fn normalized_chars(path: &str) -> (r: Vec<char>)
    ensures
        r@ == slashes(path@),
{
    replace_backslashes(chars_of(path).as_slice())
}

/// Whether `n` lies strictly inside `root`.
fn encloses(root: &str, n: &[char]) -> (r: bool)
    ensures
        r == (is_prefix(root@, n@) && n@.len() > root@.len()),
{
    let rc = chars_of(root);
    starts_with(n, rc.as_slice()) && n.len() > rc.len()
}

/// The first root of a set that `n` lies strictly inside.
fn first_enclosing_member(roots: &Vec<String>, n: &[char]) -> (r: Option<String>)
    ensures
        match first_enclosing(str_views(roots@), n@, 0) {
            Some(i) => r matches Some(s) && s@ == str_views(roots@)[i],
            None => r is None,
        },
{
    let mut i: usize = 0;
    while i < roots.len()
        invariant
            i <= roots.len(),
            first_enclosing(str_views(roots@), n@, 0) == first_enclosing(str_views(roots@), n@, i as int),
        decreases roots.len() - i,
    {
        assert(str_views(roots@)[i as int] == roots@[i as int]@);
        if encloses(roots[i].as_str(), n) {
            return Some(roots[i].clone());
        }
        i += 1;
    }
    None
}

/// The first key of a map that `n` lies strictly inside.
fn first_enclosing_key<V>(roots: &Vec<(String, V)>, n: &[char]) -> (r: Option<String>)
    ensures
        match first_enclosing(keys_of(roots@), n@, 0) {
            Some(i) => r matches Some(s) && s@ == keys_of(roots@)[i],
            None => r is None,
        },
{
    let mut i: usize = 0;
    while i < roots.len()
        invariant
            i <= roots.len(),
            first_enclosing(keys_of(roots@), n@, 0) == first_enclosing(keys_of(roots@), n@, i as int),
        decreases roots.len() - i,
    {
        assert(keys_of(roots@)[i as int] == roots@[i as int].0@);
        if encloses(roots[i].0.as_str(), n) {
            return Some(roots[i].0.clone());
        }
        i += 1;
    }
    None
}

/// Whether a map has an entry for `k`.
fn has_key<V>(m: &Vec<(String, V)>, k: &[char]) -> (r: bool)
    ensures
        r == keys_of(m@).contains(k@),
{
    proof {
        lemma_index_of_contains(keys_of(m@), k@);
    }
    find_key(m, k).is_some()
}

/// Whether a tag set satisfies a filter.
fn passes(f: &Vec<(String, bool)>, set: &Vec<String>) -> (r: bool)
    ensures
        r == passes_filter(f@, str_views(set@)),
{
    let mut i: usize = 0;
    while i < f.len()
        invariant
            i <= f.len(),
            forall|k: int|
                0 <= k < i ==> ((#[trigger] f@[k]).1 ==> str_views(set@).contains(f@[k].0@)) && (
                !f@[k].1 ==> !str_views(set@).contains(f@[k].0@)),
        decreases f.len() - i,
    {
        let present = has_member(set, chars_of(f[i].0.as_str()).as_slice());
        if f[i].1 != present {
            return false;
        }
        i += 1;
    }
    true
}

impl ManagerData {
    /// The role of a directory; backslashes in `path` are read as slashes.
    pub fn classify_dir(&self, path: &str) -> (r: DirRole)
        ensures
            r == self.role_of(slashes(path@)),
    {
        let n = normalized_chars(path);
        if has_member(&self.asset_roots, n.as_slice()) {
            DirRole::AssetRoot
        } else if has_key(&self.creator_roots, n.as_slice()) {
            DirRole::CreatorRoot
        } else if has_key(&self.asset_pack_roots, n.as_slice()) {
            DirRole::AssetPackRoot
        } else if has_member(&self.export_roots, n.as_slice()) {
            DirRole::ExportRoot
        } else {
            DirRole::NoRole
        }
    }

    /// The first asset root (in sorted order) that `path` lies strictly
    /// inside; backslashes in `path` are read as slashes.
    pub fn is_inside_asset_root(&self, path: &str) -> (r: Option<String>)
        ensures
            match first_enclosing(str_views(self.asset_roots@), slashes(path@), 0) {
                Some(i) => r matches Some(s) && s@ == str_views(self.asset_roots@)[i],
                None => r is None,
            },
    {
        let n = normalized_chars(path);
        first_enclosing_member(&self.asset_roots, n.as_slice())
    }

    /// The first creator root (in sorted order) that `path` lies strictly
    /// inside; backslashes in `path` are read as slashes.
    pub fn is_inside_creator_root(&self, path: &str) -> (r: Option<String>)
        ensures
            match first_enclosing(keys_of(self.creator_roots@), slashes(path@), 0) {
                Some(i) => r matches Some(s) && s@ == keys_of(self.creator_roots@)[i],
                None => r is None,
            },
    {
        let n = normalized_chars(path);
        first_enclosing_key(&self.creator_roots, n.as_slice())
    }

    /// All known tags: registered names and any applied to files, sorted and
    /// without repetition.
    pub fn all_known_tags(&self) -> (r: Vec<String>)
        requires
            self.wf(),
        ensures
            strictly_sorted(str_views(r@)),
            forall|x: Seq<char>| #[trigger] str_views(r@).contains(x) <==> self.known_tag(x),
    {
        let mut all = clone_strings(&self.tag_names);
        let mut i: usize = 0;
        while i < self.tags.len()
            invariant
                i <= self.tags.len(),
                self.wf(),
                strictly_sorted(str_views(all@)),
                forall|x: Seq<char>|
                    #[trigger] str_views(all@).contains(x) <==> (str_views(
                        self.tag_names@,
                    ).contains(x) || exists|k: int|
                        0 <= k < i && #[trigger] str_views(self.tags@[k].1@).contains(x)),
            decreases self.tags.len() - i,
        {
            let set = &self.tags[i].1;
            let mut j: usize = 0;
            while j < set.len()
                invariant
                    j <= set.len(),
                    i < self.tags.len(),
                    set == &self.tags@[i as int].1,
                    strictly_sorted(str_views(all@)),
                    forall|x: Seq<char>|
                        #[trigger] str_views(all@).contains(x) <==> (str_views(
                            self.tag_names@,
                        ).contains(x) || (exists|k: int|
                            0 <= k < i && #[trigger] str_views(self.tags@[k].1@).contains(x))
                            || str_views(set@).subrange(0, j as int).contains(x)),
                decreases set.len() - j,
            {
                let ghost before = all@;
                assert(forall|x: Seq<char>|
                    #[trigger] str_views(before).contains(x) <==> (str_views(
                        self.tag_names@,
                    ).contains(x) || (exists|k: int|
                        0 <= k < i && #[trigger] str_views(self.tags@[k].1@).contains(x))
                        || str_views(set@).subrange(0, j as int).contains(x)));
                proof {
                    lemma_with_member_sorted(before, set@[j as int]);
                }
                let item = set[j].clone();
                assert(item == set@[j as int]);
                add_member(&mut all, item);
                assert(all@ == with_member(before, set@[j as int]));
                assert(str_views(set@)[j as int] == set@[j as int]@);
                assert forall|x: Seq<char>| str_views(set@).subrange(0, j + 1).contains(x) <==> (
                str_views(set@).subrange(0, j as int).contains(x) || x == set@[j as int]@) by {
                    let a = str_views(set@).subrange(0, j + 1);
                    let b = str_views(set@).subrange(0, j as int);
                    assert(a =~= b.push(set@[j as int]@));
                    if a.contains(x) {
                        let k = choose|k: int| 0 <= k < a.len() && a[k] == x;
                        if k < j {
                            assert(b[k] == x);
                        }
                    }
                    if b.contains(x) {
                        let k = choose|k: int| 0 <= k < b.len() && b[k] == x;
                        assert(a[k] == x);
                    }
                    if x == set@[j as int]@ {
                        assert(a[j as int] == x);
                    }
                }
                assert forall|x: Seq<char>|
                    #[trigger] str_views(all@).contains(x) <==> (str_views(
                        self.tag_names@,
                    ).contains(x) || (exists|k: int|
                        0 <= k < i && #[trigger] str_views(self.tags@[k].1@).contains(x))
                        || str_views(set@).subrange(0, j + 1).contains(x)) by {
                    assert(str_views(all@).contains(x) <==> (x == set@[j as int]@ || str_views(
                        before,
                    ).contains(x)));
                    assert(str_views(set@).subrange(0, j + 1).contains(x) <==> (str_views(
                        set@,
                    ).subrange(0, j as int).contains(x) || x == set@[j as int]@));
                    assert(str_views(before).contains(x) <==> (str_views(self.tag_names@).contains(
                        x,
                    ) || (exists|k: int|
                        0 <= k < i && #[trigger] str_views(self.tags@[k].1@).contains(x))
                        || str_views(set@).subrange(0, j as int).contains(x)));
                }
                j += 1;
            }
            assert(str_views(set@).subrange(0, set@.len() as int) =~= str_views(set@));
            assert forall|x: Seq<char>|
                #[trigger] str_views(all@).contains(x) <==> (str_views(
                    self.tag_names@,
                ).contains(x) || exists|k: int|
                    0 <= k < i + 1 && #[trigger] str_views(self.tags@[k].1@).contains(x)) by {
                if str_views(set@).contains(x) {
                    assert(str_views(self.tags@[i as int].1@).contains(x));
                }
                if exists|k: int| 0 <= k < i + 1 && #[trigger] str_views(self.tags@[k].1@).contains(x) {
                    let k = choose|k: int| 0 <= k < i + 1 && #[trigger] str_views(self.tags@[k].1@).contains(x);
                    if k == i {
                        assert(str_views(set@).contains(x));
                    }
                }
            }
            i += 1;
        }
        all
    }

    /// How many files have the given tag.
    pub fn tag_count(&self, tag: &str) -> (r: usize)
        ensures
            r == count_tagged(self.tags@, tag@, self.tags@.len() as int),
    {
        let t = chars_of(tag);
        let mut n: usize = 0;
        let mut i: usize = 0;
        while i < self.tags.len()
            invariant
                i <= self.tags.len(),
                n <= i,
                t@ == tag@,
                n == count_tagged(self.tags@, tag@, i as int),
            decreases self.tags.len() - i,
        {
            if has_member(&self.tags[i].1, t.as_slice()) {
                n += 1;
            }
            i += 1;
        }
        n
    }

    /// Delete a tag everywhere: from the registered names, from every file
    /// (files left without tags are dropped) and from every bundle filter.
    pub fn delete_tag(&mut self, tag: &str)
        requires
            old(self).wf(),
        ensures
            final(self).wf(),
            tag_deleted(*old(self), *final(self), tag@),
    {
        let t = chars_of(tag);
        proof {
            lemma_without_member_sorted(self.tag_names@, tag@);
        }
        drop_member(&mut self.tag_names, t.as_slice());
        // Tags of every file.
        let mut rest: Vec<(String, Vec<String>)> = Vec::new();
        std::mem::swap(&mut rest, &mut self.tags);
        let ghost orig = rest@;
        assert(orig.len() == rest.len());
        let mut kept: Vec<(String, Vec<String>)> = Vec::new();
        let mut k: usize = 0;
        assert(orig.skip(0) =~= orig);
        assert(tag_map_view(kept@) =~= stripped(orig.subrange(0, 0), tag@));
        while rest.len() > 0
            invariant
                k <= orig.len(),
                rest@ == orig.skip(k as int),
                rest@.len() == orig.len() - k,
                orig.len() <= usize::MAX,
                t@ == tag@,
                strictly_sorted(keys_of(orig)),
                forall|i: int| 0 <= i < orig.len() ==> strictly_sorted(str_views(#[trigger] orig[i].1@)),
                tag_map_view(kept@) == stripped(orig.subrange(0, k as int), tag@),
                strictly_sorted(keys_of(kept@)),
                forall|i: int| 0 <= i < kept@.len() ==> strictly_sorted(str_views(#[trigger] kept@[i].1@)),
                forall|a: int, b: int|
                    0 <= a < kept@.len() && k <= b < orig.len() ==> lex_lt(
                        #[trigger] keys_of(kept@)[a],
                        #[trigger] keys_of(orig)[b],
                    ),
            decreases rest.len(),
        {
            let (key, mut set) = rest.remove(0);
            assert(orig[k as int] == (key, set));
            assert(rest@ =~= orig.skip(k + 1));
            proof {
                lemma_without_member_sorted(set@, tag@);
            }
            drop_member(&mut set, t.as_slice());
            let ghost pre = orig.subrange(0, k as int);
            assert(orig.subrange(0, k + 1).drop_last() =~= pre);
            assert(orig.subrange(0, k + 1).last() == orig[k as int]);
            assert(keys_of(orig)[k as int] == key@);
            if set.len() > 0 {
                let ghost before = kept@;
                kept.push((key, set));
                assert(tag_map_view(kept@) =~= tag_map_view(before).push((key@, str_views(set@))));
                assert(keys_of(kept@) =~= keys_of(before).push(key@));
                assert forall|a: int, b: int|
                    0 <= a < b < keys_of(kept@).len() implies lex_lt(
                    #[trigger] keys_of(kept@)[a],
                    #[trigger] keys_of(kept@)[b],
                ) by {
                    if b == keys_of(kept@).len() - 1 {
                        assert(lex_lt(keys_of(before)[a], keys_of(orig)[k as int]));
                    } else {
                        assert(keys_of(kept@)[a] == keys_of(before)[a]);
                        assert(keys_of(kept@)[b] == keys_of(before)[b]);
                    }
                }
                assert forall|a: int, b: int|
                    0 <= a < kept@.len() && k + 1 <= b < orig.len() implies lex_lt(
                    #[trigger] keys_of(kept@)[a],
                    #[trigger] keys_of(orig)[b],
                ) by {
                    if a == kept@.len() - 1 {
                        assert(lex_lt(keys_of(orig)[k as int], keys_of(orig)[b]));
                    } else {
                        assert(keys_of(kept@)[a] == keys_of(before)[a]);
                    }
                }
                assert forall|i: int| 0 <= i < kept@.len() implies strictly_sorted(
                    str_views(#[trigger] kept@[i].1@),
                ) by {
                    if i < before.len() {
                        assert(kept@[i] == before[i]);
                    }
                }
            }
            k += 1;
        }
        assert(orig.subrange(0, orig.len() as int) =~= orig);
        self.tags = kept;
        // Filters of every bundle.
        let mut brest: Vec<(String, BundleDef)> = Vec::new();
        std::mem::swap(&mut brest, &mut self.bundles);
        let ghost borig = brest@;
        assert(borig.len() == brest.len());
        let mut bkept: Vec<(String, BundleDef)> = Vec::new();
        let mut m: usize = 0;
        assert(borig.skip(0) =~= borig);
        while brest.len() > 0
            invariant
                m <= borig.len(),
                brest@ == borig.skip(m as int),
                brest@.len() == borig.len() - m,
                borig.len() <= usize::MAX,
                t@ == tag@,
                bkept@.len() == m,
                forall|i: int|
                    0 <= i < borig.len() ==> strictly_sorted(keys_of(#[trigger] borig[i].1.tag_filter@)),
                forall|i: int|
                    0 <= i < m ==> (#[trigger] bkept@[i]).0 == borig[i].0
                        && bkept@[i].1.export_path == borig[i].1.export_path
                        && bkept@[i].1.tag_filter@ == without_entry(borig[i].1.tag_filter@, tag@)
                        && strictly_sorted(keys_of(bkept@[i].1.tag_filter@)),
            decreases brest.len(),
        {
            let (name, mut bundle) = brest.remove(0);
            assert(borig[m as int] == (name, bundle));
            assert(brest@ =~= borig.skip(m + 1));
            proof {
                lemma_without_entry_keys(bundle.tag_filter@, tag@);
            }
            drop_entry(&mut bundle.tag_filter, t.as_slice());
            bkept.push((name, bundle));
            m += 1;
        }
        assert(keys_of(bkept@) =~= keys_of(borig));
        self.bundles = bkept;
    }

    /// Toggle tag `tag` on the file (or cell) keyed `key`: add it when
    /// absent, remove it when present, and drop the key once it has no tags.
    pub fn toggle_tag(&mut self, key: &str, tag: &str)
        requires
            old(self).wf(),
        ensures
            final(self).wf(),
            tag_toggled(*old(self), *final(self), key@, tag@),
    {
        let kc = chars_of(key);
        let tc = chars_of(tag);
        let key_s = string_from(kc.as_slice());
        let tag_s = string_from(tc.as_slice());
        let ghost m0 = self.tags@;
        proof {
            lemma_index_of_key(keys_of(m0), key@, 0);
        }
        match find_key(&self.tags, kc.as_slice()) {
            Some(i) => {
                let mut set = clone_strings(&self.tags[i].1);
                assert(lookup(m0, key@) == Some(m0[i as int].1));
                assert(tag_set_of(m0, key@) == str_views(set@));
                if has_member(&set, tc.as_slice()) {
                    proof {
                        lemma_without_member_sorted(set@, tag@);
                    }
                    drop_member(&mut set, tc.as_slice());
                    if set.len() == 0 {
                        proof {
                            lemma_without_entry_keys(m0, key@);
                            assert forall|q: Seq<char>| true implies #[trigger] lookup(without_entry(m0, key@), q) == (if q == key@ {
                                None
                            } else {
                                lookup(m0, q)
                            }) by {
                                lemma_lookup_without_entry(m0, key@, q);
                            }
                            assert forall|j: int| 0 <= j < without_entry(m0, key@).len() implies strictly_sorted(
                                str_views(#[trigger] without_entry(m0, key@)[j].1@),
                            ) by {
                                lemma_without_entry_entries(m0, key@, j);
                            }
                            assert(str_views(set@).len() == 0);
                        }
                        let ghost emptied = set@;
                        drop_entry(&mut self.tags, kc.as_slice());
                        assert(!has_entry(self.tags@, key@));
                        assert forall|y: Seq<char>| #[trigger] tag_set_of(self.tags@, key@).contains(
                            y,
                        ) <==> (y != tag@ && tag_set_of(m0, key@).contains(y)) by {
                            assert(!str_views(emptied).contains(y));
                        }
                        assert(tag_toggled(*old(self), *self, key@, tag@));
                    } else {
                        proof {
                            self.lemma_put_tags(key_s, set);
                        }
                        put_entry(&mut self.tags, key_s, set);
                        assert(tag_toggled(*old(self), *self, key@, tag@));
                    }
                } else {
                    proof {
                        lemma_with_member_sorted(set@, tag_s);
                    }
                    add_member(&mut set, tag_s);
                    proof {
                        self.lemma_put_tags(key_s, set);
                    }
                    put_entry(&mut self.tags, key_s, set);
                    assert(tag_toggled(*old(self), *self, key@, tag@));
                }
            },
            None => {
                assert(lookup(m0, key@) is None);
                let mut set: Vec<String> = Vec::new();
                set.push(tag_s);
                assert(str_views(set@) =~= seq![tag@]);
                assert forall|y: Seq<char>| #[trigger] str_views(set@).contains(y) <==> y == tag@ by {
                    if str_views(set@).contains(y) {
                        let j = choose|j: int| 0 <= j < str_views(set@).len() && str_views(set@)[j] == y;
                        assert(j == 0);
                    }
                    if y == tag@ {
                        assert(str_views(set@)[0] == y);
                    }
                }
                proof {
                    self.lemma_put_tags(key_s, set);
                }
                put_entry(&mut self.tags, key_s, set);
                assert(tag_toggled(*old(self), *self, key@, tag@));
            },
        }
    }

    /// Add (`add`) or remove tag `tag` on the file keyed `key`, dropping the
    /// key once it has no tags.
    pub fn set_tag_on_file(&mut self, key: &str, tag: &str, add: bool)
        requires
            old(self).wf(),
        ensures
            final(self).wf(),
            tag_set_on(*old(self), *final(self), key@, tag@, add),
    {
        let kc = chars_of(key);
        let tc = chars_of(tag);
        let key_s = string_from(kc.as_slice());
        let tag_s = string_from(tc.as_slice());
        let ghost m0 = self.tags@;
        proof {
            lemma_index_of_key(keys_of(m0), key@, 0);
        }
        let mut set: Vec<String> = match find_key(&self.tags, kc.as_slice()) {
            Some(i) => {
                assert(lookup(m0, key@) == Some(m0[i as int].1));
                clone_strings(&self.tags[i].1)
            },
            None => Vec::new(),
        };
        assert(tag_set_of(m0, key@) =~= str_views(set@));
        assert(strictly_sorted(str_views(set@)));
        if add {
            proof {
                lemma_with_member_sorted(set@, tag_s);
            }
            add_member(&mut set, tag_s);
        } else {
            proof {
                lemma_without_member_sorted(set@, tag@);
            }
            drop_member(&mut set, tc.as_slice());
        }
        if set.len() == 0 {
            let ghost emptied = set@;
            proof {
                lemma_without_entry_keys(m0, key@);
                assert forall|q: Seq<char>| true implies #[trigger] lookup(without_entry(m0, key@), q) == (if q == key@ {
                    None
                } else {
                    lookup(m0, q)
                }) by {
                    lemma_lookup_without_entry(m0, key@, q);
                }
                assert forall|j: int| 0 <= j < without_entry(m0, key@).len() implies strictly_sorted(
                    str_views(#[trigger] without_entry(m0, key@)[j].1@),
                ) by {
                    lemma_without_entry_entries(m0, key@, j);
                }
            }
            drop_entry(&mut self.tags, kc.as_slice());
            assert forall|y: Seq<char>| #[trigger] tag_set_of(self.tags@, key@).contains(y) <==> (if add {
                y == tag@ || tag_set_of(m0, key@).contains(y)
            } else {
                y != tag@ && tag_set_of(m0, key@).contains(y)
            }) by {
                assert(!str_views(emptied).contains(y));
            }
        } else {
            proof {
                self.lemma_put_tags(key_s, set);
            }
            put_entry(&mut self.tags, key_s, set);
        }
    }

    /// Add (`add`) or remove tag `tag` on every file in `keys`.
    pub fn set_tag_on_files(&mut self, keys: &[String], tag: &str, add: bool)
        requires
            old(self).wf(),
        ensures
            final(self).wf(),
            forall|q: Seq<char>|
                str_views(keys@).contains(q) ==> #[trigger] tag_applied(
                    final(self).tags@,
                    old(self).tags@,
                    q,
                    tag@,
                    add,
                ),
            forall|q: Seq<char>|
                !str_views(keys@).contains(q) ==> #[trigger] lookup(final(self).tags@, q) == lookup(
                    old(self).tags@,
                    q,
                ),
            final(self).tag_names == old(self).tag_names,
            final(self).bundles == old(self).bundles,
            final(self).asset_roots == old(self).asset_roots,
            final(self).creator_roots == old(self).creator_roots,
            final(self).asset_pack_roots == old(self).asset_pack_roots,
            final(self).grids == old(self).grids,
            final(self).export_roots == old(self).export_roots,
    {
        let ghost orig = self.tags@;
        let mut i: usize = 0;
        while i < keys.len()
            invariant
                i <= keys.len(),
                self.wf(),
                self.tag_names == old(self).tag_names,
                self.bundles == old(self).bundles,
                self.asset_roots == old(self).asset_roots,
                self.creator_roots == old(self).creator_roots,
                self.asset_pack_roots == old(self).asset_pack_roots,
                self.grids == old(self).grids,
                self.export_roots == old(self).export_roots,
                orig == old(self).tags@,
                forall|q: Seq<char>|
                    str_views(keys@).subrange(0, i as int).contains(q) ==> #[trigger] tag_applied(
                        self.tags@,
                        orig,
                        q,
                        tag@,
                        add,
                    ),
                forall|q: Seq<char>|
                    !str_views(keys@).subrange(0, i as int).contains(q) ==> #[trigger] lookup(
                        self.tags@,
                        q,
                    ) == lookup(orig, q),
            decreases keys.len() - i,
        {
            let ghost before = *self;
            let ghost k = keys@[i as int]@;
            assert(str_views(keys@)[i as int] == k);
            self.set_tag_on_file(keys[i].as_str(), tag, add);
            let ghost pre = str_views(keys@).subrange(0, i as int);
            let ghost post = str_views(keys@).subrange(0, i + 1);
            assert(post =~= pre.push(k));
            assert forall|q: Seq<char>| #[trigger] post.contains(q) <==> (pre.contains(q) || q == k) by {
                if post.contains(q) {
                    let j = choose|j: int| 0 <= j < post.len() && post[j] == q;
                    if j < pre.len() {
                        assert(pre[j] == q);
                    }
                }
                if pre.contains(q) {
                    let j = choose|j: int| 0 <= j < pre.len() && pre[j] == q;
                    assert(post[j] == q);
                }
                if q == k {
                    assert(post[pre.len() as int] == q);
                }
            }
            proof {
                if pre.contains(k) {
                    assert(tag_applied(before.tags@, orig, k, tag@, add));
                } else {
                    assert(lookup(before.tags@, k) == lookup(orig, k));
                }
                lemma_apply_step(before.tags@, self.tags@, orig, k, tag@, add);
            }
            assert forall|q: Seq<char>| post.contains(q) implies #[trigger] tag_applied(
                self.tags@,
                orig,
                q,
                tag@,
                add,
            ) by {
                if q != k {
                    assert(tag_applied(before.tags@, orig, q, tag@, add));
                    lemma_same_lookup_applied(before.tags@, self.tags@, orig, q, tag@, add);
                }
            }
            assert forall|q: Seq<char>| !post.contains(q) implies #[trigger] lookup(self.tags@, q)
                == lookup(orig, q) by {
                assert(lookup(self.tags@, q) == lookup(before.tags@, q));
            }
            i += 1;
        }
        assert(str_views(keys@).subrange(0, keys@.len() as int) =~= str_views(keys@));
    }

    /// Register a tag name (surrounding white space trimmed); returns whether
    /// a new name was added.
    pub fn add_tag_name(&mut self, name: &str) -> (r: bool)
        requires
            old(self).wf(),
        ensures
            final(self).wf(),
            r == (trim(name@).len() > 0 && !str_views(old(self).tag_names@).contains(trim(name@))),
            forall|y: Seq<char>| #[trigger] str_views(final(self).tag_names@).contains(y) <==> ((trim(name@).len()
                > 0 && y == trim(name@)) || str_views(old(self).tag_names@).contains(y)),
            final(self).tags == old(self).tags,
            final(self).bundles == old(self).bundles,
            final(self).asset_roots == old(self).asset_roots,
            final(self).creator_roots == old(self).creator_roots,
            final(self).asset_pack_roots == old(self).asset_pack_roots,
            final(self).grids == old(self).grids,
            final(self).export_roots == old(self).export_roots,
    {
        let t = string_from(trim_chars(chars_of(name).as_slice()).as_slice());
        if t.unicode_len() == 0 {
            return false;
        }
        insert_member(&mut self.tag_names, t.as_str())
    }

    /// Create an empty bundle named `name` (surrounding white space
    /// trimmed); returns whether one was created.
    pub fn create_bundle(&mut self, name: &str) -> (r: bool)
        requires
            old(self).wf(),
        ensures
            final(self).wf(),
            r == (trim(name@).len() > 0 && lookup(old(self).bundles@, trim(name@)) is None),
            r ==> (lookup(final(self).bundles@, trim(name@)) matches Some(b) && b.export_path@.len() == 0
                && b.tag_filter@.len() == 0),
            forall|q: Seq<char>| q != trim(name@) ==> #[trigger] lookup(final(self).bundles@, q) == lookup(
                old(self).bundles@,
                q,
            ),
            !r ==> final(self).bundles == old(self).bundles,
            final(self).tags == old(self).tags,
            final(self).tag_names == old(self).tag_names,
            final(self).asset_roots == old(self).asset_roots,
            final(self).creator_roots == old(self).creator_roots,
            final(self).asset_pack_roots == old(self).asset_pack_roots,
            final(self).grids == old(self).grids,
            final(self).export_roots == old(self).export_roots,
    {
        let t = string_from(trim_chars(chars_of(name).as_slice()).as_slice());
        if t.unicode_len() == 0 {
            return false;
        }
        if get_entry(&self.bundles, t.as_str()).is_some() {
            return false;
        }
        let b = BundleDef { export_path: String::new(), tag_filter: Vec::new() };
        let ghost b0 = self.bundles@;
        bind(&mut self.bundles, t.as_str(), b);
        assert forall|i: int| 0 <= i < self.bundles@.len() implies strictly_sorted(
            keys_of(#[trigger] self.bundles@[i].1.tag_filter@),
        ) by {
            if self.bundles@[i].1 != b {
                let j = choose|j: int| 0 <= j < b0.len() && self.bundles@[i] == b0[j];
            } else {
                assert(keys_of(b.tag_filter@) =~= Seq::<Seq<char>>::empty());
            }
        }
        true
    }

    /// Delete the bundle named `name`; returns whether there was one.
    pub fn delete_bundle(&mut self, name: &str) -> (r: bool)
        requires
            old(self).wf(),
        ensures
            final(self).wf(),
            r == (lookup(old(self).bundles@, name@) is Some),
            lookup(final(self).bundles@, name@) is None,
            forall|q: Seq<char>| q != name@ ==> #[trigger] lookup(final(self).bundles@, q) == lookup(
                old(self).bundles@,
                q,
            ),
            final(self).tags == old(self).tags,
            final(self).tag_names == old(self).tag_names,
            final(self).asset_roots == old(self).asset_roots,
            final(self).creator_roots == old(self).creator_roots,
            final(self).asset_pack_roots == old(self).asset_pack_roots,
            final(self).grids == old(self).grids,
            final(self).export_roots == old(self).export_roots,
    {
        let ghost b0 = self.bundles@;
        let r = unbind(&mut self.bundles, name);
        assert forall|i: int| 0 <= i < self.bundles@.len() implies strictly_sorted(
            keys_of(#[trigger] self.bundles@[i].1.tag_filter@),
        ) by {
            let j = choose|j: int| 0 <= j < b0.len() && self.bundles@[i] == b0[j];
        }
        r
    }

    /// The grid saved for the file keyed `key`.
    pub fn saved_grid(&self, key: &str) -> (r: Option<GridDef>)
        ensures
            r == lookup(self.grids@, key@),
    {
        match get_entry(&self.grids, key) {
            Some(g) => Some(*g),
            None => None,
        }
    }

    /// Save a grid for the file keyed `key`.
    pub fn set_grid(&mut self, key: &str, grid: GridDef)
        requires
            old(self).wf(),
        ensures
            final(self).wf(),
            lookup(final(self).grids@, key@) == Some(grid),
            forall|q: Seq<char>| q != key@ ==> #[trigger] lookup(final(self).grids@, q) == lookup(
                old(self).grids@,
                q,
            ),
            final(self).tags == old(self).tags,
            final(self).bundles == old(self).bundles,
            final(self).asset_roots == old(self).asset_roots,
            final(self).creator_roots == old(self).creator_roots,
            final(self).asset_pack_roots == old(self).asset_pack_roots,
            final(self).export_roots == old(self).export_roots,
            final(self).tag_names == old(self).tag_names,
    {
        bind(&mut self.grids, key, grid);
    }

    /// Forget the grid of the file keyed `key`; returns whether there was one.
    pub fn clear_grid(&mut self, key: &str) -> (r: bool)
        requires
            old(self).wf(),
        ensures
            final(self).wf(),
            r == (lookup(old(self).grids@, key@) is Some),
            lookup(final(self).grids@, key@) is None,
            forall|q: Seq<char>| q != key@ ==> #[trigger] lookup(final(self).grids@, q) == lookup(
                old(self).grids@,
                q,
            ),
            final(self).tags == old(self).tags,
            final(self).bundles == old(self).bundles,
            final(self).asset_roots == old(self).asset_roots,
            final(self).creator_roots == old(self).creator_roots,
            final(self).asset_pack_roots == old(self).asset_pack_roots,
            final(self).export_roots == old(self).export_roots,
            final(self).tag_names == old(self).tag_names,
    {
        unbind(&mut self.grids, key)
    }

    /// Designate `path` an asset root; returns whether it was not one yet.
    pub fn mark_asset_root(&mut self, path: &str) -> (r: bool)
        requires
            old(self).wf(),
        ensures
            final(self).wf(),
            r == !str_views(old(self).asset_roots@).contains(path@),
            forall|y: Seq<char>| #[trigger] str_views(final(self).asset_roots@).contains(y) <==> (y == path@
                || str_views(old(self).asset_roots@).contains(y)),
            final(self).creator_roots == old(self).creator_roots,
            final(self).asset_pack_roots == old(self).asset_pack_roots,
            final(self).export_roots == old(self).export_roots,
            final(self).tags == old(self).tags,
            final(self).grids == old(self).grids,
            final(self).bundles == old(self).bundles,
            final(self).tag_names == old(self).tag_names,
    {
        insert_member(&mut self.asset_roots, path)
    }

    /// Remove `path` from the asset roots; returns whether it was one.
    pub fn unmark_asset_root(&mut self, path: &str) -> (r: bool)
        requires
            old(self).wf(),
        ensures
            final(self).wf(),
            r == str_views(old(self).asset_roots@).contains(path@),
            forall|y: Seq<char>| #[trigger] str_views(final(self).asset_roots@).contains(y) <==> (y != path@
                && str_views(old(self).asset_roots@).contains(y)),
            final(self).creator_roots == old(self).creator_roots,
            final(self).asset_pack_roots == old(self).asset_pack_roots,
            final(self).export_roots == old(self).export_roots,
            final(self).tags == old(self).tags,
            final(self).grids == old(self).grids,
            final(self).bundles == old(self).bundles,
            final(self).tag_names == old(self).tag_names,
    {
        remove_member(&mut self.asset_roots, path)
    }

    /// Designate `path` an export root; returns whether it was not one yet.
    pub fn mark_export_root(&mut self, path: &str) -> (r: bool)
        requires
            old(self).wf(),
        ensures
            final(self).wf(),
            r == !str_views(old(self).export_roots@).contains(path@),
            forall|y: Seq<char>| #[trigger] str_views(final(self).export_roots@).contains(y) <==> (y == path@
                || str_views(old(self).export_roots@).contains(y)),
            final(self).asset_roots == old(self).asset_roots,
            final(self).creator_roots == old(self).creator_roots,
            final(self).asset_pack_roots == old(self).asset_pack_roots,
            final(self).tags == old(self).tags,
            final(self).grids == old(self).grids,
            final(self).bundles == old(self).bundles,
            final(self).tag_names == old(self).tag_names,
    {
        insert_member(&mut self.export_roots, path)
    }

    /// Remove `path` from the export roots; returns whether it was one.
    pub fn unmark_export_root(&mut self, path: &str) -> (r: bool)
        requires
            old(self).wf(),
        ensures
            final(self).wf(),
            r == str_views(old(self).export_roots@).contains(path@),
            forall|y: Seq<char>| #[trigger] str_views(final(self).export_roots@).contains(y) <==> (y != path@
                && str_views(old(self).export_roots@).contains(y)),
            final(self).asset_roots == old(self).asset_roots,
            final(self).creator_roots == old(self).creator_roots,
            final(self).asset_pack_roots == old(self).asset_pack_roots,
            final(self).tags == old(self).tags,
            final(self).grids == old(self).grids,
            final(self).bundles == old(self).bundles,
            final(self).tag_names == old(self).tag_names,
    {
        remove_member(&mut self.export_roots, path)
    }

    /// Designate `path` a creator root under the first asset root it lies
    /// inside; returns false, changing nothing, when it lies in none.
    pub fn mark_creator_root(&mut self, path: &str) -> (r: bool)
        requires
            old(self).wf(),
        ensures
            final(self).wf(),
            r == (first_enclosing(str_views(old(self).asset_roots@), slashes(path@), 0) is Some),
            r ==> (lookup(final(self).creator_roots@, path@) matches Some(e) && e.asset_root@
                == str_views(old(self).asset_roots@)[first_enclosing(str_views(old(self).asset_roots@), slashes(path@), 0)->0]),
            forall|q: Seq<char>| q != path@ ==> #[trigger] lookup(final(self).creator_roots@, q) == lookup(
                old(self).creator_roots@,
                q,
            ),
            !r ==> final(self).creator_roots == old(self).creator_roots,
            final(self).asset_roots == old(self).asset_roots,
            final(self).asset_pack_roots == old(self).asset_pack_roots,
            final(self).export_roots == old(self).export_roots,
            final(self).tags == old(self).tags,
            final(self).grids == old(self).grids,
            final(self).bundles == old(self).bundles,
            final(self).tag_names == old(self).tag_names,
    {
        match self.is_inside_asset_root(path) {
            Some(ar) => {
                bind(&mut self.creator_roots, path, CreatorRootEntry { asset_root: ar });
                true
            },
            None => false,
        }
    }

    /// Remove `path` from the creator roots; returns whether it was one.
    pub fn unmark_creator_root(&mut self, path: &str) -> (r: bool)
        requires
            old(self).wf(),
        ensures
            final(self).wf(),
            r == (lookup(old(self).creator_roots@, path@) is Some),
            lookup(final(self).creator_roots@, path@) is None,
            forall|q: Seq<char>| q != path@ ==> #[trigger] lookup(final(self).creator_roots@, q) == lookup(
                old(self).creator_roots@,
                q,
            ),
            final(self).asset_roots == old(self).asset_roots,
            final(self).asset_pack_roots == old(self).asset_pack_roots,
            final(self).export_roots == old(self).export_roots,
            final(self).tags == old(self).tags,
            final(self).grids == old(self).grids,
            final(self).bundles == old(self).bundles,
            final(self).tag_names == old(self).tag_names,
    {
        unbind(&mut self.creator_roots, path)
    }

    /// Designate `path` an asset pack root under the first creator root it
    /// lies inside; returns false, changing nothing, when it lies in none.
    pub fn mark_asset_pack_root(&mut self, path: &str) -> (r: bool)
        requires
            old(self).wf(),
        ensures
            final(self).wf(),
            r == (first_enclosing(keys_of(old(self).creator_roots@), slashes(path@), 0) is Some),
            r ==> (lookup(final(self).asset_pack_roots@, path@) matches Some(e) && e.creator_root@
                == keys_of(old(self).creator_roots@)[first_enclosing(keys_of(old(self).creator_roots@), slashes(path@), 0)->0]),
            forall|q: Seq<char>| q != path@ ==> #[trigger] lookup(final(self).asset_pack_roots@, q) == lookup(
                old(self).asset_pack_roots@,
                q,
            ),
            !r ==> final(self).asset_pack_roots == old(self).asset_pack_roots,
            final(self).asset_roots == old(self).asset_roots,
            final(self).creator_roots == old(self).creator_roots,
            final(self).export_roots == old(self).export_roots,
            final(self).tags == old(self).tags,
            final(self).grids == old(self).grids,
            final(self).bundles == old(self).bundles,
            final(self).tag_names == old(self).tag_names,
    {
        match self.is_inside_creator_root(path) {
            Some(cr) => {
                bind(&mut self.asset_pack_roots, path, AssetPackRootEntry { creator_root: cr });
                true
            },
            None => false,
        }
    }

    /// Remove `path` from the asset pack roots; returns whether it was one.
    pub fn unmark_asset_pack_root(&mut self, path: &str) -> (r: bool)
        requires
            old(self).wf(),
        ensures
            final(self).wf(),
            r == (lookup(old(self).asset_pack_roots@, path@) is Some),
            lookup(final(self).asset_pack_roots@, path@) is None,
            forall|q: Seq<char>| q != path@ ==> #[trigger] lookup(final(self).asset_pack_roots@, q) == lookup(
                old(self).asset_pack_roots@,
                q,
            ),
            final(self).asset_roots == old(self).asset_roots,
            final(self).creator_roots == old(self).creator_roots,
            final(self).export_roots == old(self).export_roots,
            final(self).tags == old(self).tags,
            final(self).grids == old(self).grids,
            final(self).bundles == old(self).bundles,
            final(self).tag_names == old(self).tag_names,
    {
        unbind(&mut self.asset_pack_roots, path)
    }

    /// Binding a sorted, non-empty tag set keeps the data well formed and
    /// changes only that key.
    proof fn lemma_put_tags(&self, k: String, v: Vec<String>)
        requires
            self.wf(),
            strictly_sorted(str_views(v@)),
            str_views(v@).len() > 0,
        ensures
            strictly_sorted(keys_of(with_entry(self.tags@, k, v))),
            forall|j: int|
                0 <= j < with_entry(self.tags@, k, v).len() ==> strictly_sorted(
                    str_views(#[trigger] with_entry(self.tags@, k, v)[j].1@),
                ),
            forall|q: Seq<char>|
                #[trigger] lookup(with_entry(self.tags@, k, v), q) == (if q == k@ {
                    Some(v)
                } else {
                    lookup(self.tags@, q)
                }),
            has_entry(with_entry(self.tags@, k, v), k@),
    {
        let m = self.tags@;
        lemma_with_entry_keys(m, k, v);
        assert forall|j: int| 0 <= j < with_entry(m, k, v).len() implies strictly_sorted(
            str_views(#[trigger] with_entry(m, k, v)[j].1@),
        ) by {
            lemma_with_entry_entries(m, k, v, j);
        }
        assert forall|q: Seq<char>| true implies #[trigger] lookup(with_entry(m, k, v), q) == (if q == k@ {
            Some(v)
        } else {
            lookup(m, q)
        }) by {
            lemma_lookup_with_entry(m, k, v, q);
        }
        lemma_lookup_with_entry(m, k, v, k@);
    }

    /// File keys matching a bundle's tag filter, in key order: a file
    /// matches when it has every required tag and none of the excluded ones.
    /// A filter with no required tag matches nothing.
    pub fn query_bundle_files(&self, bundle: &BundleDef) -> (r: Vec<String>)
        requires
            self.wf(),
        ensures
            str_views(r@) == (if any_required(bundle.tag_filter@) {
                matching_keys(self.tags@, bundle.tag_filter@, self.tags@.len() as int)
            } else {
                Seq::empty()
            }),
            strictly_sorted(str_views(r@)),
    {
        let mut any = false;
        let mut k: usize = 0;
        while k < bundle.tag_filter.len()
            invariant
                k <= bundle.tag_filter.len(),
                any == exists|m: int| 0 <= m < k && (#[trigger] bundle.tag_filter@[m]).1,
            decreases bundle.tag_filter.len() - k,
        {
            if bundle.tag_filter[k].1 {
                any = true;
            }
            k += 1;
        }
        let mut results: Vec<String> = Vec::new();
        if !any {
            assert(str_views(results@) =~= Seq::<Seq<char>>::empty());
            return results;
        }
        let mut i: usize = 0;
        while i < self.tags.len()
            invariant
                i <= self.tags.len(),
                self.wf(),
                str_views(results@) == matching_keys(self.tags@, bundle.tag_filter@, i as int),
                strictly_sorted(str_views(results@)),
                forall|a: int, b: int|
                    0 <= a < results@.len() && i <= b < self.tags@.len() ==> lex_lt(
                        #[trigger] str_views(results@)[a],
                        #[trigger] keys_of(self.tags@)[b],
                    ),
            decreases self.tags.len() - i,
        {
            if passes(&bundle.tag_filter, &self.tags[i].1) {
                let ghost before = str_views(results@);
                results.push(self.tags[i].0.clone());
                assert(str_views(results@) =~= before.push(self.tags@[i as int].0@));
                assert(keys_of(self.tags@)[i as int] == self.tags@[i as int].0@);
                assert forall|a: int, b: int|
                    0 <= a < b < str_views(results@).len() implies lex_lt(
                    #[trigger] str_views(results@)[a],
                    #[trigger] str_views(results@)[b],
                ) by {
                    if b == str_views(results@).len() - 1 {
                        assert(lex_lt(before[a], keys_of(self.tags@)[i as int]));
                    } else {
                        assert(str_views(results@)[a] == before[a]);
                        assert(str_views(results@)[b] == before[b]);
                    }
                }
                assert forall|a: int, b: int|
                    0 <= a < results@.len() && i + 1 <= b < self.tags@.len() implies lex_lt(
                    #[trigger] str_views(results@)[a],
                    #[trigger] keys_of(self.tags@)[b],
                ) by {
                    if a == results@.len() - 1 {
                        assert(lex_lt(keys_of(self.tags@)[i as int], keys_of(self.tags@)[b]));
                    } else {
                        assert(str_views(results@)[a] == before[a]);
                    }
                }
            }
            i += 1;
        }
        results
    }
}

impl BundleDef {
    /// Advance tag `tag` in the filter: ignored → required → excluded →
    /// ignored.
    pub fn cycle_tag_filter(&mut self, tag: &str)
        requires
            strictly_sorted(keys_of(old(self).tag_filter@)),
        ensures
            strictly_sorted(keys_of(final(self).tag_filter@)),
            lookup(final(self).tag_filter@, tag@) == next_filter_state(
                lookup(old(self).tag_filter@, tag@),
            ),
            forall|q: Seq<char>|
                q != tag@ ==> #[trigger] lookup(final(self).tag_filter@, q) == lookup(
                    old(self).tag_filter@,
                    q,
                ),
            final(self).export_path == old(self).export_path,
    {
        let tc = chars_of(tag);
        let ghost f0 = self.tag_filter@;
        match find_key(&self.tag_filter, tc.as_slice()) {
            None => {
                let k = string_from(tc.as_slice());
                proof {
                    lemma_with_entry_keys(f0, k, true);
                    assert forall|q: Seq<char>| q != tag@ implies #[trigger] lookup(with_entry(f0, k, true), q)
                        == lookup(f0, q) by {
                        lemma_lookup_with_entry(f0, k, true, q);
                    }
                    lemma_lookup_with_entry(f0, k, true, tag@);
                }
                put_entry(&mut self.tag_filter, k, true);
            },
            Some(i) => {
                assert(lookup(f0, tag@) == Some(f0[i as int].1));
                if self.tag_filter[i].1 {
                    let k = string_from(tc.as_slice());
                    proof {
                        lemma_with_entry_keys(f0, k, false);
                        assert forall|q: Seq<char>| q != tag@ implies #[trigger] lookup(with_entry(f0, k, false), q)
                            == lookup(f0, q) by {
                            lemma_lookup_with_entry(f0, k, false, q);
                        }
                        lemma_lookup_with_entry(f0, k, false, tag@);
                    }
                    put_entry(&mut self.tag_filter, k, false);
                } else {
                    proof {
                        lemma_without_entry_keys(f0, tag@);
                        assert forall|q: Seq<char>| q != tag@ implies #[trigger] lookup(without_entry(f0, tag@), q)
                            == lookup(f0, q) by {
                            lemma_lookup_without_entry(f0, tag@, q);
                        }
                        lemma_lookup_without_entry(f0, tag@, tag@);
                    }
                    drop_entry(&mut self.tag_filter, tc.as_slice());
                }
            },
        }
    }
}

/// A key is among the matching keys of the first `n` files exactly when
/// one of those files has that key and its tags satisfy the filter.
proof fn lemma_matching_keys_contains(
    tags: Seq<(String, Vec<String>)>,
    f: Seq<(String, bool)>,
    n: int,
    k: Seq<char>,
)
    requires
        0 <= n <= tags.len(),
    ensures
        matching_keys(tags, f, n).contains(k) <==> exists|j: int|
            0 <= j < n && (#[trigger] tags[j]).0@ == k && passes_filter(f, str_views(tags[j].1@)),
    decreases n,
{
    if n > 0 {
        lemma_matching_keys_contains(tags, f, n - 1, k);
        let prev = matching_keys(tags, f, n - 1);
        if passes_filter(f, str_views(tags[n - 1].1@)) {
            assert(matching_keys(tags, f, n) == prev.push(tags[n - 1].0@));
            if tags[n - 1].0@ == k {
                assert(prev.push(k)[prev.len() as int] == k);
            }
            if matching_keys(tags, f, n).contains(k) && tags[n - 1].0@ != k {
                let pv = prev.push(tags[n - 1].0@);
                let m = choose|m: int| 0 <= m < pv.len() && #[trigger] pv[m] == k;
                assert(prev[m] == k);
            }
            if prev.contains(k) {
                let m = choose|m: int| 0 <= m < prev.len() && #[trigger] prev[m] == k;
                assert(prev.push(tags[n - 1].0@)[m] == k);
            }
        }
    }
}

/// Law: the files a bundle selects are exactly the files with tags whose
/// tag set holds every tag the filter requires and none it excludes, and
/// only when the filter requires some tag.
pub proof fn lemma_query_selects_exactly(d: ManagerData, f: Seq<(String, bool)>, k: Seq<char>)
    requires
        d.wf(),
    ensures
        (if any_required(f) {
            matching_keys(d.tags@, f, d.tags@.len() as int)
        } else {
            Seq::<Seq<char>>::empty()
        }).contains(k) <==> (any_required(f) && keys_of(d.tags@).contains(k) && forall|i: int|
            0 <= i < f.len() ==> ((#[trigger] f[i]).1 ==> tag_set_of(d.tags@, k).contains(f[i].0@))
                && (!f[i].1 ==> !tag_set_of(d.tags@, k).contains(f[i].0@))),
{
    let tags = d.tags@;
    let ks = keys_of(tags);
    lemma_matching_keys_contains(tags, f, tags.len() as int, k);
    if any_required(f) {
        if matching_keys(tags, f, tags.len() as int).contains(k) {
            let j = choose|j: int|
                0 <= j < tags.len() && (#[trigger] tags[j]).0@ == k && passes_filter(
                    f,
                    str_views(tags[j].1@),
                );
            assert(ks[j] == k);
            lemma_index_of_sorted(ks, j);
            assert(tag_set_of(tags, k) == str_views(tags[j].1@));
        }
        if ks.contains(k) && forall|i: int|
            0 <= i < f.len() ==> ((#[trigger] f[i]).1 ==> tag_set_of(tags, k).contains(f[i].0@)) && (
            !f[i].1 ==> !tag_set_of(tags, k).contains(f[i].0@)) {
            let j = choose|j: int| 0 <= j < ks.len() && #[trigger] ks[j] == k;
            assert(tags[j].0@ == k);
            lemma_index_of_sorted(ks, j);
            assert(tag_set_of(tags, k) == str_views(tags[j].1@));
            assert(passes_filter(f, str_views(tags[j].1@)));
        }
    }
}


/// Law: cycling a tag's filter state three times restores the filter's
/// meaning for every tag.
pub proof fn lemma_cycle_three_times(f0: Seq<(String, bool)>, f1: Seq<(String, bool)>, f2: Seq<(String, bool)>, f3: Seq<(String, bool)>, t: Seq<char>)
    requires
        lookup(f1, t) == next_filter_state(lookup(f0, t)),
        lookup(f2, t) == next_filter_state(lookup(f1, t)),
        lookup(f3, t) == next_filter_state(lookup(f2, t)),
        forall|q: Seq<char>| q != t ==> #[trigger] lookup(f1, q) == lookup(f0, q),
        forall|q: Seq<char>| q != t ==> #[trigger] lookup(f2, q) == lookup(f1, q),
        forall|q: Seq<char>| q != t ==> #[trigger] lookup(f3, q) == lookup(f2, q),
    ensures
        forall|q: Seq<char>| #[trigger] lookup(f3, q) == lookup(f0, q),
{
    assert forall|q: Seq<char>| #[trigger] lookup(f3, q) == lookup(f0, q) by {
        if q != t {
            assert(lookup(f3, q) == lookup(f2, q));
            assert(lookup(f2, q) == lookup(f1, q));
        }
    }
}


impl BundleDef {
    /// An empty bundle: no export path and an empty filter.
    pub fn new() -> (r: Self)
        ensures
            r.export_path@ == Seq::<char>::empty(),
            r.tag_filter@ == Seq::<(String, bool)>::empty(),
    {
        BundleDef { export_path: String::new(), tag_filter: Vec::new() }
    }
}

impl ManagerData {
    /// Metadata with nothing recorded.
    pub fn new() -> (r: Self)
        ensures
            r.wf(),
            r.asset_roots@.len() == 0,
            r.creator_roots@.len() == 0,
            r.asset_pack_roots@.len() == 0,
            r.grids@.len() == 0,
            r.bundles@.len() == 0,
            r.export_roots@.len() == 0,
            r.tag_names@.len() == 0,
            r.tags@.len() == 0,
    {
        let r = ManagerData {
            asset_roots: Vec::new(),
            creator_roots: Vec::new(),
            asset_pack_roots: Vec::new(),
            grids: Vec::new(),
            bundles: Vec::new(),
            export_roots: Vec::new(),
            tag_names: Vec::new(),
            tags: Vec::new(),
        };
        assert(str_views(r.asset_roots@) =~= Seq::<Seq<char>>::empty());
        assert(str_views(r.export_roots@) =~= Seq::<Seq<char>>::empty());
        assert(str_views(r.tag_names@) =~= Seq::<Seq<char>>::empty());
        assert(keys_of(r.creator_roots@) =~= Seq::<Seq<char>>::empty());
        assert(keys_of(r.asset_pack_roots@) =~= Seq::<Seq<char>>::empty());
        assert(keys_of(r.grids@) =~= Seq::<Seq<char>>::empty());
        assert(keys_of(r.bundles@) =~= Seq::<Seq<char>>::empty());
        assert(keys_of(r.tags@) =~= Seq::<Seq<char>>::empty());
        r
    }
}

/// The name of the metadata file in the data directory.
pub open spec fn data_file_name() -> Seq<char> {
    "asset_manager.toml"@
}

/// The metadata file's path: the name appended to the data directory, with
/// a '/' in between unless the directory is empty or already ends in one.
pub open spec fn data_file_path_spec(dir: Seq<char>) -> Seq<char> {
    if dir.len() == 0 || dir.last() == '/' {
        dir + data_file_name()
    } else {
        dir + seq!['/'] + data_file_name()
    }
}

/// The path of the metadata file in a data directory.
pub fn data_file_path(data_dir: &str) -> (r: String)
    ensures
        r@ == data_file_path_spec(data_dir@),
{
    let d = chars_of(data_dir);
    let name = chars_of("asset_manager.toml");
    if d.len() == 0 || d[d.len() - 1] == '/' {
        string_from(concat_chars(d.as_slice(), name.as_slice()).as_slice())
    } else {
        let sep: Vec<char> = vec!['/'];
        let with_sep = concat_chars(d.as_slice(), sep.as_slice());
        string_from(concat_chars(with_sep.as_slice(), name.as_slice()).as_slice())
    }
}

/// A status line and how many seconds it stays shown.
pub struct StatusMessage {
    pub text: String,
    pub seconds: u32,
}

/// Record the outcome of saving the metadata: on success the data is no
/// longer dirty and "Saved." shows for 3 seconds; on failure the data stays
/// dirty and "Save failed: <error>" shows for 5 seconds.
pub fn save_and_status(save_result: Result<(), String>, dirty: &mut bool) -> (r: StatusMessage)
    ensures
        match save_result {
            Ok(()) => !*final(dirty) && r.text@ == "Saved."@ && r.seconds == 3,
            Err(e) => *final(dirty) == *old(dirty) && r.text@ == "Save failed: "@ + e@ && r.seconds == 5,
        },
{
    match save_result {
        Ok(()) => {
            *dirty = false;
            StatusMessage { text: string_from(chars_of("Saved.").as_slice()), seconds: 3 }
        },
        Err(e) => {
            let t = concat_chars(chars_of("Save failed: ").as_slice(), chars_of(e.as_str()).as_slice());
            StatusMessage { text: string_from(t.as_slice()), seconds: 5 }
        },
    }
}

/// The tag key of one grid cell of a file: `<file key>@<col>,<row>`.
pub fn cell_key(file_key: &str, col: u32, row: u32) -> (r: String)
    ensures
        r@ == file_key@ + seq!['@'] + decimal(col as nat) + seq![','] + decimal(row as nat),
{
    let at: Vec<char> = vec!['@'];
    let comma: Vec<char> = vec![','];
    let a = concat_chars(chars_of(file_key).as_slice(), at.as_slice());
    let b = concat_chars(a.as_slice(), decimal_chars(col as usize).as_slice());
    let c = concat_chars(b.as_slice(), comma.as_slice());
    let d = concat_chars(c.as_slice(), decimal_chars(row as usize).as_slice());
    assert(at@ =~= seq!['@'] && comma@ =~= seq![',']);
    string_from(d.as_slice())
}

/// `after` is `before` with tag `t` deleted everywhere: from the registered
/// names, from every file (dropping files left without tags) and from every
/// bundle filter; nothing else changes.
pub open spec fn tag_deleted(before: ManagerData, after: ManagerData, t: Seq<char>) -> bool {
    &&& after.tag_names@ == without_member(before.tag_names@, t)
    &&& tag_map_view(after.tags@) == stripped(before.tags@, t)
    &&& after.bundles@.len() == before.bundles@.len()
    &&& forall|i: int|
        0 <= i < after.bundles@.len() ==> (#[trigger] after.bundles@[i]).0 == before.bundles@[i].0
            && after.bundles@[i].1.export_path == before.bundles@[i].1.export_path
            && after.bundles@[i].1.tag_filter@ == without_entry(
            before.bundles@[i].1.tag_filter@,
            t,
        )
    &&& after.asset_roots == before.asset_roots
    &&& after.creator_roots == before.creator_roots
    &&& after.asset_pack_roots == before.asset_pack_roots
    &&& after.grids == before.grids
    &&& after.export_roots == before.export_roots
}

/// A tag held by some stripped set is held, apart from `t`, by the set it
/// came from.
proof fn lemma_stripped_contains(tags: Seq<(String, Vec<String>)>, t: Seq<char>, x: Seq<char>)
    ensures
        (exists|j: int| 0 <= j < stripped(tags, t).len() && #[trigger] stripped(tags, t)[j].1.contains(x))
            <==> (exists|i: int|
            0 <= i < tags.len() && #[trigger] str_views(without_member(tags[i].1@, t)).contains(
                x,
            )),
    decreases tags.len(),
{
    if tags.len() > 0 {
        let init = tags.drop_last();
        lemma_stripped_contains(init, t, x);
        let rest = stripped(init, t);
        let s2 = str_views(without_member(tags.last().1@, t));
        let st = stripped(tags, t);
        if exists|j: int| 0 <= j < st.len() && #[trigger] st[j].1.contains(x) {
            let j = choose|j: int| 0 <= j < st.len() && #[trigger] st[j].1.contains(x);
            if j < rest.len() {
                assert(st[j] == rest[j]);
                let i = choose|i: int|
                    0 <= i < init.len() && #[trigger] str_views(without_member(init[i].1@, t)).contains(x);
                assert(init[i] == tags[i]);
            } else {
                assert(st[j].1 == s2);
                assert(str_views(without_member(tags[tags.len() - 1].1@, t)).contains(x));
            }
        }
        if exists|i: int|
            0 <= i < tags.len() && #[trigger] str_views(without_member(tags[i].1@, t)).contains(x) {
            let i = choose|i: int|
                0 <= i < tags.len() && #[trigger] str_views(without_member(tags[i].1@, t)).contains(x);
            if i < tags.len() - 1 {
                assert(init[i] == tags[i]);
                let j = choose|j: int| 0 <= j < rest.len() && #[trigger] rest[j].1.contains(x);
                assert(st[j] == rest[j]);
            } else {
                assert(s2.contains(x));
                assert(st[st.len() - 1].1 == s2);
            }
        }
    }
}

/// No file of `tags` has tag `t`, so none is counted.
proof fn lemma_count_none(tags: Seq<(String, Vec<String>)>, t: Seq<char>, n: int)
    requires
        !tagged_anywhere(tags, t),
    ensures
        count_tagged(tags, t, n) == 0,
    decreases n,
{
    if n > 0 && n <= tags.len() {
        lemma_count_none(tags, t, n - 1);
        if str_views(tags[n - 1].1@).contains(t) {
            assert(tagged_anywhere(tags, t));
        }
    }
}

/// Law: after a tag is deleted it is no longer known, no file counts it and
/// no bundle filter names it, while every other tag stays known exactly when
/// it was.
pub proof fn lemma_delete_tag_forgets(before: ManagerData, after: ManagerData, t: Seq<char>)
    requires
        before.wf(),
        tag_deleted(before, after, t),
    ensures
        !after.known_tag(t),
        count_tagged(after.tags@, t, after.tags@.len() as int) == 0,
        forall|i: int|
            0 <= i < after.bundles@.len() ==> !keys_of(
                (#[trigger] after.bundles@[i]).1.tag_filter@,
            ).contains(t),
        forall|x: Seq<char>| x != t ==> (after.known_tag(x) <==> before.known_tag(x)),
{
    lemma_without_member_sorted(before.tag_names@, t);
    assert forall|i: int, y: Seq<char>| 0 <= i < before.tags@.len() implies
        #[trigger] str_views(without_member(before.tags@[i].1@, t)).contains(y) <==> (y != t
            && str_views(before.tags@[i].1@).contains(y)) by {
        lemma_without_member_sorted(before.tags@[i].1@, t);
    }
    assert forall|x: Seq<char>| tagged_anywhere(after.tags@, x) <==> (x != t && tagged_anywhere(
        before.tags@,
        x,
    )) by {
        lemma_stripped_contains(before.tags@, t, x);
        let st = stripped(before.tags@, t);
        assert(tag_map_view(after.tags@) == st);
        if tagged_anywhere(after.tags@, x) {
            let i = choose|i: int| 0 <= i < after.tags@.len() && #[trigger] str_views(after.tags@[i].1@).contains(x);
            assert(st[i].1 == str_views(after.tags@[i].1@));
            let k = choose|k: int|
                0 <= k < before.tags@.len() && #[trigger] str_views(without_member(before.tags@[k].1@, t)).contains(x);
            assert(str_views(before.tags@[k].1@).contains(x));
        }
        if x != t && tagged_anywhere(before.tags@, x) {
            let k = choose|k: int| 0 <= k < before.tags@.len() && #[trigger] str_views(before.tags@[k].1@).contains(x);
            assert(str_views(without_member(before.tags@[k].1@, t)).contains(x));
            let j = choose|j: int| 0 <= j < st.len() && #[trigger] st[j].1.contains(x);
            assert(st[j].1 == str_views(after.tags@[j].1@));
        }
    }
    lemma_count_none(after.tags@, t, after.tags@.len() as int);
    assert forall|i: int| 0 <= i < after.bundles@.len() implies !keys_of(
        (#[trigger] after.bundles@[i]).1.tag_filter@,
    ).contains(t) by {
        lemma_without_entry_keys(before.bundles@[i].1.tag_filter@, t);
        lemma_index_of_contains(keys_of(after.bundles@[i].1.tag_filter@), t);
    }
}

/// Law: toggling the same tag twice on the same file leaves every file's
/// tags as they were (for a file that had no entry or a non-empty one).
pub proof fn lemma_toggle_twice(a: ManagerData, b: ManagerData, c: ManagerData, key: Seq<char>, t: Seq<char>)
    requires
        tag_toggled(a, b, key, t),
        tag_toggled(b, c, key, t),
        has_entry(a.tags@, key) ==> tag_set_of(a.tags@, key).len() > 0,
    ensures
        forall|y: Seq<char>| #[trigger] tag_set_of(c.tags@, key).contains(y) <==> tag_set_of(a.tags@, key).contains(y),
        has_entry(c.tags@, key) <==> has_entry(a.tags@, key),
        forall|q: Seq<char>| q != key ==> #[trigger] lookup(c.tags@, q) == lookup(a.tags@, q),
{
    let sa = tag_set_of(a.tags@, key);
    let sb = tag_set_of(b.tags@, key);
    let sc = tag_set_of(c.tags@, key);
    assert forall|y: Seq<char>| #[trigger] sc.contains(y) <==> sa.contains(y) by {
        assert(sc.contains(y) == (if sb.contains(t) {
            y != t && sb.contains(y)
        } else {
            y == t || sb.contains(y)
        }));
        assert(sb.contains(t) == (if sa.contains(t) {
            t != t && sa.contains(t)
        } else {
            true
        }));
        assert(sb.contains(y) == (if sa.contains(t) {
            y != t && sa.contains(y)
        } else {
            y == t || sa.contains(y)
        }));
    }
    if sc.len() > 0 {
        assert(sc.contains(sc[0]));
        assert(sa.contains(sc[0]));
    }
    if sa.len() > 0 {
        assert(sa.contains(sa[0]));
        assert(sc.contains(sa[0]));
    }
    if !has_entry(a.tags@, key) {
        assert(lookup(a.tags@, key) is None);
    }
}

// ---------------------------------------------------------------------------
// Checking well-formedness
// ---------------------------------------------------------------------------

/// A strictly sorted prefix stays strictly sorted when the next item sorts
/// above the last one.
proof fn lemma_sorted_extend(s: Seq<Seq<char>>, i: int)
    requires
        0 < i < s.len(),
        strictly_sorted(s.subrange(0, i)),
        lex_lt(s[i - 1], s[i]),
    ensures
        strictly_sorted(s.subrange(0, i + 1)),
{
    let p = s.subrange(0, i);
    let q = s.subrange(0, i + 1);
    assert forall|a: int, b: int| 0 <= a < b < q.len() implies lex_lt(#[trigger] q[a], #[trigger] q[b]) by {
        if b < i {
            assert(lex_lt(p[a], p[b]));
        } else if a < i - 1 {
            assert(lex_lt(p[a], p[i - 1]));
            lemma_lex_transitive(s[a], s[i - 1], s[i]);
        }
    }
}

/// Whether the character vectors are strictly increasing.
fn chars_strictly_sorted(v: &Vec<Vec<char>>) -> (r: bool)
    ensures
        r == strictly_sorted(views(v@)),
{
    let ghost s = views(v@);
    if v.len() == 0 {
        return true;
    }
    let mut i: usize = 1;
    assert(strictly_sorted(s.subrange(0, 1)));
    while i < v.len()
        invariant
            1 <= i <= v.len(),
            s == views(v@),
            strictly_sorted(s.subrange(0, i as int)),
        decreases v.len() - i,
    {
        assert(s[i - 1] == v@[i - 1]@ && s[i as int] == v@[i as int]@);
        if !lex_less(v[i - 1].as_slice(), v[i].as_slice()) {
            assert(!strictly_sorted(s)) by {
                if strictly_sorted(s) {
                    assert(lex_lt(s[i - 1], s[i as int]));
                }
            }
            return false;
        }
        proof {
            lemma_sorted_extend(s, i as int);
        }
        i += 1;
    }
    assert(s.subrange(0, v.len() as int) =~= s);
    true
}

/// The characters of each string.
fn chars_of_strings(v: &Vec<String>) -> (r: Vec<Vec<char>>)
    ensures
        views(r@) == str_views(v@),
{
    let mut r: Vec<Vec<char>> = Vec::new();
    let mut i: usize = 0;
    while i < v.len()
        invariant
            i <= v.len(),
            r.len() == i,
            forall|k: int| 0 <= k < i ==> #[trigger] r@[k]@ == v@[k]@,
        decreases v.len() - i,
    {
        r.push(chars_of(v[i].as_str()));
        i += 1;
    }
    assert(views(r@) =~= str_views(v@));
    r
}

/// The characters of each key.
fn chars_of_keys<V>(m: &Vec<(String, V)>) -> (r: Vec<Vec<char>>)
    ensures
        views(r@) == keys_of(m@),
{
    let mut r: Vec<Vec<char>> = Vec::new();
    let mut i: usize = 0;
    while i < m.len()
        invariant
            i <= m.len(),
            r.len() == i,
            forall|k: int| 0 <= k < i ==> #[trigger] r@[k]@ == m@[k].0@,
        decreases m.len() - i,
    {
        r.push(chars_of(m[i].0.as_str()));
        i += 1;
    }
    assert(views(r@) =~= keys_of(m@));
    r
}

impl ManagerData {
    /// Whether every set and map is strictly sorted by key, as are the tag
    /// sets and the bundle filters (data read from elsewhere is checked
    /// before the library works on it).
    pub fn is_well_formed(&self) -> (r: bool)
        ensures
            r == self.wf(),
    {
        let flat = chars_strictly_sorted(&chars_of_strings(&self.asset_roots))
            && chars_strictly_sorted(&chars_of_keys(&self.creator_roots))
            && chars_strictly_sorted(&chars_of_keys(&self.asset_pack_roots))
            && chars_strictly_sorted(&chars_of_keys(&self.grids))
            && chars_strictly_sorted(&chars_of_keys(&self.bundles))
            && chars_strictly_sorted(&chars_of_strings(&self.export_roots))
            && chars_strictly_sorted(&chars_of_strings(&self.tag_names))
            && chars_strictly_sorted(&chars_of_keys(&self.tags));
        if !flat {
            return false;
        }
        let mut i: usize = 0;
        while i < self.tags.len()
            invariant
                i <= self.tags.len(),
                forall|k: int| 0 <= k < i ==> strictly_sorted(str_views(#[trigger] self.tags@[k].1@)),
            decreases self.tags.len() - i,
        {
            if !chars_strictly_sorted(&chars_of_strings(&self.tags[i].1)) {
                return false;
            }
            i += 1;
        }
        let mut j: usize = 0;
        while j < self.bundles.len()
            invariant
                j <= self.bundles.len(),
                forall|k: int|
                    0 <= k < j ==> strictly_sorted(keys_of(#[trigger] self.bundles@[k].1.tag_filter@)),
            decreases self.bundles.len() - j,
        {
            if !chars_strictly_sorted(&chars_of_keys(&self.bundles[j].1.tag_filter)) {
                return false;
            }
            j += 1;
        }
        true
    }
}

} // verus!
