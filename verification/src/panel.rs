//! What the detail panel and the search results offer: the role buttons
//! for a selected path, the tag coverage of a set of search results and the
//! mass tagging it drives, and the checks made before a bundle is exported.

use vstd::prelude::*;
use crate::data::{first_enclosing, tag_applied, tag_set_of, DirRole, ManagerData, StatusMessage};
use crate::sorted::{find_key, has_member, keys_of, lemma_index_of_key, lookup};
use crate::text::{chars_of, concat_chars, decimal, decimal_chars, slashes, str_views, string_from, trim};

verus! {

// ---------------------------------------------------------------------------
// Tag coverage of a set of files
// ---------------------------------------------------------------------------

/// How many of `keys` carry tag `t` (each occurrence of a key counts).
pub open spec fn covered_count(tags: Seq<(String, Vec<String>)>, keys: Seq<Seq<char>>, t: Seq<char>) -> nat
    decreases keys.len(),
{
    if keys.len() == 0 {
        0
    } else {
        covered_count(tags, keys.drop_last(), t) + (if tag_set_of(tags, keys.last()).contains(t) {
            1nat
        } else {
            0nat
        })
    }
}

/// How a tag covers a set of files, as the search results show it.
#[derive(Debug, Clone, Copy, PartialEq, Eq, Structural)]
pub enum TagCoverage {
    /// Every file has the tag.
    All,
    /// Some files have it.
    Partial,
    /// No file has it.
    NoFile,
}

/// The coverage of `have` files out of `total`.
pub open spec fn coverage_spec(have: nat, total: nat) -> TagCoverage {
    if have == total {
        TagCoverage::All
    } else if have > 0 {
        TagCoverage::Partial
    } else {
        TagCoverage::NoFile
    }
}

/// The coverage shown for a tag that `have` of `total` files carry.
pub fn coverage_of(have: usize, total: usize) -> (r: TagCoverage)
    ensures
        r == coverage_spec(have as nat, total as nat),
{
    if have == total {
        TagCoverage::All
    } else if have > 0 {
        TagCoverage::Partial
    } else {
        TagCoverage::NoFile
    }
}

// ---------------------------------------------------------------------------
// The grid of a newly selected image
// ---------------------------------------------------------------------------

impl ManagerData {
    /// The grid state an image opens with, as (cell width, cell height,
    /// shown): the grid saved for its key, shown; or, with none saved, cells
    /// of 0 by 0 (to be filled with the image's size) and the grid shown as
    /// it was before.
    pub fn restored_grid(&self, key: &str, visible: bool) -> (r: (u32, u32, bool))
        ensures
            match lookup(self.grids@, key@) {
                Some(g) => r == (g.cell_w, g.cell_h, true),
                None => r == (0u32, 0u32, visible),
            },
    {
        match self.saved_grid(key) {
            Some(g) => (g.cell_w, g.cell_h, true),
            None => (0, 0, visible),
        }
    }
}

impl ManagerData {
    /// Whether the file keyed `key` carries tag `tag`.
    pub fn has_tag(&self, key: &str, tag: &str) -> (r: bool)
        ensures
            r == tag_set_of(self.tags@, key@).contains(tag@),
    {
        let kc = chars_of(key);
        let tc = chars_of(tag);
        proof {
            lemma_index_of_key(keys_of(self.tags@), key@, 0);
        }
        match find_key(&self.tags, kc.as_slice()) {
            Some(i) => {
                assert(lookup(self.tags@, key@) == Some(self.tags@[i as int].1));
                has_member(&self.tags[i].1, tc.as_slice())
            },
            None => false,
        }
    }

    /// How many of `keys` carry tag `tag`.
    pub fn tag_coverage(&self, keys: &[String], tag: &str) -> (r: usize)
        ensures
            r == covered_count(self.tags@, str_views(keys@), tag@),
    {
        let ghost ks = str_views(keys@);
        let mut n: usize = 0;
        let mut i: usize = 0;
        while i < keys.len()
            invariant
                i <= keys.len(),
                ks == str_views(keys@),
                n <= i,
                n == covered_count(self.tags@, ks.subrange(0, i as int), tag@),
            decreases keys.len() - i,
        {
            assert(ks.subrange(0, i + 1).drop_last() =~= ks.subrange(0, i as int));
            assert(ks[i as int] == keys@[i as int]@);
            if self.has_tag(keys[i].as_str(), tag) {
                n += 1;
            }
            i += 1;
        }
        assert(ks.subrange(0, keys.len() as int) =~= ks);
        n
    }

    /// The mass-tagging click on tag `tag` for the files `keys`: when every
    /// file has the tag it is removed from all of them, otherwise it is added
    /// to all of them. Returns whether it was added.
    pub fn toggle_tag_on_files(&mut self, keys: &[String], tag: &str) -> (added: bool)
        requires
            old(self).wf(),
        ensures
            final(self).wf(),
            added == (covered_count(old(self).tags@, str_views(keys@), tag@) < keys@.len()),
            forall|q: Seq<char>|
                str_views(keys@).contains(q) ==> #[trigger] tag_applied(
                    final(self).tags@,
                    old(self).tags@,
                    q,
                    tag@,
                    added,
                ),
            forall|q: Seq<char>|
                !str_views(keys@).contains(q) ==> #[trigger] lookup(final(self).tags@, q) == lookup(
                    old(self).tags@,
                    q,
                ),
            final(self).tag_names == old(self).tag_names,
            final(self).bundles == old(self).bundles,
            final(self).asset_roots == old(self).asset_roots,
            final(self).creator_roots == old(self).creator_roots,
            final(self).asset_pack_roots == old(self).asset_pack_roots,
            final(self).grids == old(self).grids,
            final(self).export_roots == old(self).export_roots,
    {
        let have = self.tag_coverage(keys, tag);
        let add = have < keys.len();
        self.set_tag_on_files(keys, tag, add);
        add
    }
}

/// When every key has the tag applied as `add` says, the coverage of the
/// keys is all of them (added) or none (removed).
proof fn lemma_uniform_coverage(
    now: Seq<(String, Vec<String>)>,
    orig: Seq<(String, Vec<String>)>,
    keys: Seq<Seq<char>>,
    all: Seq<Seq<char>>,
    t: Seq<char>,
    add: bool,
)
    requires
        forall|q: Seq<char>| all.contains(q) ==> #[trigger] tag_applied(now, orig, q, t, add),
        forall|i: int| 0 <= i < keys.len() ==> all.contains(#[trigger] keys[i]),
    ensures
        covered_count(now, keys, t) == (if add {
            keys.len()
        } else {
            0
        }),
    decreases keys.len(),
{
    if keys.len() > 0 {
        assert forall|i: int| 0 <= i < keys.drop_last().len() implies all.contains(#[trigger] keys.drop_last()[i]) by {
            assert(keys.drop_last()[i] == keys[i]);
        }
        lemma_uniform_coverage(now, orig, keys.drop_last(), all, t, add);
        assert(all.contains(keys[keys.len() - 1]));
        assert(tag_applied(now, orig, keys.last(), t, add));
        assert(tag_set_of(now, keys.last()).contains(t) == add);
    }
}

/// Law: a mass-tagging click leaves the tag uniform over the files it was
/// given: afterwards every one of them has it (when it was added) or none
/// of them has it (when it was removed).
pub proof fn lemma_mass_tag_uniform(before: ManagerData, after: ManagerData, keys: Seq<String>, t: Seq<char>, added: bool)
    requires
        added == (covered_count(before.tags@, str_views(keys), t) < keys.len()),
        forall|q: Seq<char>|
            str_views(keys).contains(q) ==> #[trigger] tag_applied(after.tags@, before.tags@, q, t, added),
    ensures
        covered_count(after.tags@, str_views(keys), t) == (if added {
            keys.len()
        } else {
            0
        }),
{
    let ks = str_views(keys);
    assert forall|i: int| 0 <= i < ks.len() implies ks.contains(#[trigger] ks[i]) by {}
    lemma_uniform_coverage(after.tags@, before.tags@, ks, ks, t, added);
}

// ---------------------------------------------------------------------------
// Role buttons
// ---------------------------------------------------------------------------

/// What the role section of the detail panel offers for a selected path.
pub struct RoleOptions {
    /// The path's current role; any role but `NoRole` offers only its removal.
    pub role: DirRole,
    /// "Mark as Asset Root" is offered.
    pub mark_asset_root: bool,
    /// "Mark as Creator Root" is offered, under this asset root.
    pub creator_under: Option<String>,
    /// "Mark as Export Root" is offered.
    pub mark_export_root: bool,
    /// "Mark as Asset Pack Root" is offered, under this creator root.
    pub pack_under: Option<String>,
}

/// The first asset root the key lies strictly inside.
pub open spec fn enclosing_asset_root(d: ManagerData, n: Seq<char>) -> Option<Seq<char>> {
    match first_enclosing(str_views(d.asset_roots@), n, 0) {
        Some(i) => Some(str_views(d.asset_roots@)[i]),
        None => None,
    }
}

/// The first creator root the key lies strictly inside.
pub open spec fn enclosing_creator_root(d: ManagerData, n: Seq<char>) -> Option<Seq<char>> {
    match first_enclosing(keys_of(d.creator_roots@), n, 0) {
        Some(i) => Some(keys_of(d.creator_roots@)[i]),
        None => None,
    }
}

/// The view of an optional string.
pub open spec fn opt_view(o: Option<String>) -> Option<Seq<char>> {
    match o {
        Some(s) => Some(s@),
        None => None,
    }
}

impl ManagerData {
    /// The role buttons for the selected path `key` (the persisted string of
    /// the selection); `is_disk_dir` tells whether it is a directory on
    /// disk, the only kind that can become an asset, creator or export root.
    /// Anything inside a creator root can become an asset pack root.
    pub fn role_options(&self, key: &str, is_disk_dir: bool) -> (r: RoleOptions)
        ensures
            r.role == self.role_of(slashes(key@)),
            r.mark_asset_root == (r.role == DirRole::NoRole && is_disk_dir),
            r.mark_export_root == (r.role == DirRole::NoRole && is_disk_dir),
            opt_view(r.creator_under) == (if r.role == DirRole::NoRole && is_disk_dir {
                enclosing_asset_root(*self, slashes(key@))
            } else {
                None
            }),
            opt_view(r.pack_under) == (if r.role == DirRole::NoRole {
                enclosing_creator_root(*self, slashes(key@))
            } else {
                None
            }),
    {
        let role = self.classify_dir(key);
        let free = role == DirRole::NoRole;
        let creator_under = if free && is_disk_dir {
            self.is_inside_asset_root(key)
        } else {
            None
        };
        let pack_under = if free {
            self.is_inside_creator_root(key)
        } else {
            None
        };
        RoleOptions {
            role,
            mark_asset_root: free && is_disk_dir,
            creator_under,
            mark_export_root: free && is_disk_dir,
            pack_under,
        }
    }
}

/// A button of the role section.
#[derive(Debug, Clone, Copy, PartialEq, Eq, Structural)]
pub enum RoleClick {
    /// "Remove ..." for the path's current role.
    Remove,
    MarkAssetRoot,
    MarkCreatorRoot,
    MarkExportRoot,
    MarkAssetPackRoot,
}

/// The role section shows the button `click` for the path `key`.
pub open spec fn offered(d: ManagerData, key: Seq<char>, is_disk_dir: bool, click: RoleClick) -> bool {
    let n = slashes(key);
    let free = d.role_of(n) == DirRole::NoRole;
    match click {
        RoleClick::Remove => !free,
        RoleClick::MarkAssetRoot => free && is_disk_dir,
        RoleClick::MarkExportRoot => free && is_disk_dir,
        RoleClick::MarkCreatorRoot => free && is_disk_dir && enclosing_asset_root(d, n) is Some,
        RoleClick::MarkAssetPackRoot => free && enclosing_creator_root(d, n) is Some,
    }
}

/// Everything but the asset roots is the same.
pub open spec fn others_than_asset_roots(a: ManagerData, b: ManagerData) -> bool {
    &&& b.creator_roots == a.creator_roots && b.asset_pack_roots == a.asset_pack_roots
    &&& b.export_roots == a.export_roots && b.grids == a.grids && b.bundles == a.bundles
    &&& b.tag_names == a.tag_names && b.tags == a.tags
}

/// Everything but the export roots is the same.
pub open spec fn others_than_export_roots(a: ManagerData, b: ManagerData) -> bool {
    &&& b.asset_roots == a.asset_roots && b.creator_roots == a.creator_roots
    &&& b.asset_pack_roots == a.asset_pack_roots && b.grids == a.grids && b.bundles == a.bundles
    &&& b.tag_names == a.tag_names && b.tags == a.tags
}

/// Everything but the creator roots is the same.
pub open spec fn others_than_creator_roots(a: ManagerData, b: ManagerData) -> bool {
    &&& b.asset_roots == a.asset_roots && b.asset_pack_roots == a.asset_pack_roots
    &&& b.export_roots == a.export_roots && b.grids == a.grids && b.bundles == a.bundles
    &&& b.tag_names == a.tag_names && b.tags == a.tags
}

/// Everything but the asset pack roots is the same.
pub open spec fn others_than_pack_roots(a: ManagerData, b: ManagerData) -> bool {
    &&& b.asset_roots == a.asset_roots && b.creator_roots == a.creator_roots
    &&& b.export_roots == a.export_roots && b.grids == a.grids && b.bundles == a.bundles
    &&& b.tag_names == a.tag_names && b.tags == a.tags
}

/// What the click `click` on the path `key` makes of `a`: nothing unless
/// the button is shown; "Remove" takes the key out of the collection that
/// names its role; a mark adds the key to its collection, a creator root
/// filed under the asset root the section named and an asset pack root
/// under the creator root it named.
pub open spec fn role_clicked(a: ManagerData, b: ManagerData, key: Seq<char>, is_disk_dir: bool, click: RoleClick) -> bool {
    let n = slashes(key);
    if !offered(a, key, is_disk_dir, click) {
        b == a
    } else {
        match click {
            RoleClick::Remove => match a.role_of(n) {
                DirRole::AssetRoot => others_than_asset_roots(a, b) && forall|y: Seq<char>|
                    #[trigger] str_views(b.asset_roots@).contains(y) <==> (y != key && str_views(
                        a.asset_roots@,
                    ).contains(y)),
                DirRole::ExportRoot => others_than_export_roots(a, b) && forall|y: Seq<char>|
                    #[trigger] str_views(b.export_roots@).contains(y) <==> (y != key && str_views(
                        a.export_roots@,
                    ).contains(y)),
                DirRole::CreatorRoot => others_than_creator_roots(a, b) && lookup(b.creator_roots@, key)
                    is None && forall|q: Seq<char>| q != key ==> #[trigger] lookup(b.creator_roots@, q)
                    == lookup(a.creator_roots@, q),
                DirRole::AssetPackRoot => others_than_pack_roots(a, b) && lookup(b.asset_pack_roots@, key)
                    is None && forall|q: Seq<char>| q != key ==> #[trigger] lookup(b.asset_pack_roots@, q)
                    == lookup(a.asset_pack_roots@, q),
                DirRole::NoRole => b == a,
            },
            RoleClick::MarkAssetRoot => others_than_asset_roots(a, b) && forall|y: Seq<char>|
                #[trigger] str_views(b.asset_roots@).contains(y) <==> (y == key || str_views(
                    a.asset_roots@,
                ).contains(y)),
            RoleClick::MarkExportRoot => others_than_export_roots(a, b) && forall|y: Seq<char>|
                #[trigger] str_views(b.export_roots@).contains(y) <==> (y == key || str_views(
                    a.export_roots@,
                ).contains(y)),
            RoleClick::MarkCreatorRoot => others_than_creator_roots(a, b) && (lookup(b.creator_roots@, key)
                matches Some(e) && Some(e.asset_root@) == enclosing_asset_root(a, n)) && forall|
                q: Seq<char>,
            | q != key ==> #[trigger] lookup(b.creator_roots@, q) == lookup(a.creator_roots@, q),
            RoleClick::MarkAssetPackRoot => others_than_pack_roots(a, b) && (lookup(
                b.asset_pack_roots@,
                key,
            ) matches Some(e) && Some(e.creator_root@) == enclosing_creator_root(a, n)) && forall|
                q: Seq<char>,
            | q != key ==> #[trigger] lookup(b.asset_pack_roots@, q) == lookup(a.asset_pack_roots@, q),
        }
    }
}

impl ManagerData {
    /// A click on the role button `click` for the selected path `key` (see
    /// `role_options`); returns whether the button was shown.
    pub fn role_click(&mut self, key: &str, is_disk_dir: bool, click: RoleClick) -> (shown: bool)
        requires
            old(self).wf(),
        ensures
            final(self).wf(),
            shown == offered(*old(self), key@, is_disk_dir, click),
            role_clicked(*old(self), *final(self), key@, is_disk_dir, click),
    {
        let o = self.role_options(key, is_disk_dir);
        match click {
            RoleClick::Remove => {
                match o.role {
                    DirRole::AssetRoot => {
                        self.unmark_asset_root(key);
                    },
                    DirRole::CreatorRoot => {
                        self.unmark_creator_root(key);
                    },
                    DirRole::AssetPackRoot => {
                        self.unmark_asset_pack_root(key);
                    },
                    DirRole::ExportRoot => {
                        self.unmark_export_root(key);
                    },
                    DirRole::NoRole => {
                        return false;
                    },
                }
                true
            },
            RoleClick::MarkAssetRoot => {
                if o.mark_asset_root {
                    self.mark_asset_root(key);
                }
                o.mark_asset_root
            },
            RoleClick::MarkExportRoot => {
                if o.mark_export_root {
                    self.mark_export_root(key);
                }
                o.mark_export_root
            },
            RoleClick::MarkCreatorRoot => {
                if o.creator_under.is_some() {
                    self.mark_creator_root(key);
                    true
                } else {
                    false
                }
            },
            RoleClick::MarkAssetPackRoot => {
                if o.pack_under.is_some() {
                    self.mark_asset_pack_root(key);
                    true
                } else {
                    false
                }
            },
        }
    }
}

// ---------------------------------------------------------------------------
// Exporting a bundle
// ---------------------------------------------------------------------------

/// The outcome of the export button before any file is written.
pub open spec fn export_check_spec(export_path: Seq<char>, matched: nat) -> Result<(), Seq<char>> {
    if trim(export_path).len() == 0 {
        Err("Set an export path first."@)
    } else if matched == 0 {
        Err("No files match this bundle."@)
    } else {
        Ok(())
    }
}

/// Whether a bundle can be exported: it needs an export path that is not
/// blank and at least one matched file; otherwise the message to show.
pub fn export_check(export_path: &str, matched: &[String]) -> (r: Result<(), String>)
    ensures
        match export_check_spec(export_path@, matched@.len()) {
            Ok(()) => r is Ok,
            Err(m) => r matches Err(e) && e@ == m,
        },
{
    if crate::text::trim_chars(chars_of(export_path).as_slice()).len() == 0 {
        Err(string_from(chars_of("Set an export path first.").as_slice()))
    } else if matched.len() == 0 {
        Err(string_from(chars_of("No files match this bundle.").as_slice()))
    } else {
        Ok(())
    }
}

// ---------------------------------------------------------------------------
// Saving a grid
// ---------------------------------------------------------------------------

/// What the grid buttons did before the metadata was saved.
pub enum GridChange {
    /// A grid of this cell width and height was applied.
    Applied(u32, u32),
    /// The saved grid was cleared.
    Cleared,
}

/// The status line after a grid change was saved: "Grid applied: WxH" or
/// "Grid cleared." for 3 seconds with the data no longer dirty, or "Save
/// failed: <error>" for 5 seconds with the data still dirty.
pub fn grid_save_status(change: GridChange, save_result: Result<(), String>, dirty: &mut bool) -> (r:
    StatusMessage)
    ensures
        match save_result {
            Ok(()) => !*final(dirty) && r.seconds == 3 && r.text@ == (match change {
                GridChange::Applied(w, h) => "Grid applied: "@ + decimal(w as nat) + seq!['x']
                    + decimal(h as nat),
                GridChange::Cleared => "Grid cleared."@,
            }),
            Err(e) => *final(dirty) == *old(dirty) && r.text@ == "Save failed: "@ + e@ && r.seconds
                == 5,
        },
{
    match save_result {
        Ok(()) => {
            *dirty = false;
            let text = match change {
                GridChange::Applied(w, h) => {
                    let x: Vec<char> = vec!['x'];
                    assert(x@ =~= seq!['x']);
                    let a = concat_chars(chars_of("Grid applied: ").as_slice(), decimal_chars(w as usize).as_slice());
                    let b = concat_chars(a.as_slice(), x.as_slice());
                    concat_chars(b.as_slice(), decimal_chars(h as usize).as_slice())
                },
                GridChange::Cleared => chars_of("Grid cleared."),
            };
            StatusMessage { text: string_from(text.as_slice()), seconds: 3 }
        },
        Err(e) => {
            let t = concat_chars(chars_of("Save failed: ").as_slice(), chars_of(e.as_str()).as_slice());
            StatusMessage { text: string_from(t.as_slice()), seconds: 5 }
        },
    }
}

} // verus!
