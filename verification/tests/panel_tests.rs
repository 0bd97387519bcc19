use asset_manager::data::{DirRole, GridDef, ManagerData};
use asset_manager::panel::{coverage_of, export_check, grid_save_status, GridChange, RoleClick, TagCoverage};

fn keys(v: &[&str]) -> Vec<String> {
    v.iter().map(|s| s.to_string()).collect()
}

#[test]
fn coverage_counts_tagged_results() {
    let mut d = ManagerData::new();
    d.toggle_tag("a.png", "walk");
    d.toggle_tag("c.png", "walk");
    let ks = keys(&["a.png", "b.png", "c.png"]);
    assert_eq!(d.tag_coverage(&ks, "walk"), 2);
    assert_eq!(d.tag_coverage(&ks, "idle"), 0);
    assert!(d.has_tag("a.png", "walk"));
    assert!(!d.has_tag("b.png", "walk"));
}

#[test]
fn coverage_states() {
    assert_eq!(coverage_of(3, 3), TagCoverage::All);
    assert_eq!(coverage_of(1, 3), TagCoverage::Partial);
    assert_eq!(coverage_of(0, 3), TagCoverage::NoFile);
}

#[test]
fn mass_tagging_adds_then_removes() {
    let mut d = ManagerData::new();
    d.toggle_tag("a.png", "walk");
    let ks = keys(&["a.png", "b.png"]);
    assert!(d.toggle_tag_on_files(&ks, "walk"));
    assert_eq!(d.tag_coverage(&ks, "walk"), 2);
    assert!(!d.toggle_tag_on_files(&ks, "walk"));
    assert_eq!(d.tag_coverage(&ks, "walk"), 0);
    assert!(d.tags.is_empty());
}

#[test]
fn role_buttons_for_plain_directory() {
    let mut d = ManagerData::new();
    d.mark_asset_root("/assets");
    d.mark_creator_root("/assets/alice");
    let o = d.role_options("/assets/bob", true);
    assert_eq!(o.role, DirRole::NoRole);
    assert!(o.mark_asset_root);
    assert!(o.mark_export_root);
    assert_eq!(o.creator_under, Some("/assets".to_string()));
    assert_eq!(o.pack_under, None);
    let p = d.role_options("/assets/alice/pack.zip", false);
    assert!(!p.mark_asset_root);
    assert_eq!(p.creator_under, None);
    assert_eq!(p.pack_under, Some("/assets/alice".to_string()));
}

#[test]
fn role_buttons_for_a_root() {
    let mut d = ManagerData::new();
    d.mark_asset_root("/assets");
    let o = d.role_options("/assets", true);
    assert_eq!(o.role, DirRole::AssetRoot);
    assert!(!o.mark_asset_root);
    assert!(!o.mark_export_root);
    assert_eq!(o.creator_under, None);
    assert_eq!(o.pack_under, None);
}

#[test]
fn export_needs_path_and_files() {
    let files = keys(&["a.png"]);
    assert_eq!(export_check("  ", &files).unwrap_err(), "Set an export path first.");
    assert_eq!(export_check("/out", &[]).unwrap_err(), "No files match this bundle.");
    assert!(export_check("/out", &files).is_ok());
}

#[test]
fn grid_status_lines() {
    let mut dirty = true;
    let m = grid_save_status(GridChange::Applied(16, 32), Ok(()), &mut dirty);
    assert_eq!(m.text, "Grid applied: 16x32");
    assert_eq!(m.seconds, 3);
    assert!(!dirty);
    let mut dirty = true;
    let c = grid_save_status(GridChange::Cleared, Ok(()), &mut dirty);
    assert_eq!(c.text, "Grid cleared.");
    let mut dirty = true;
    let f = grid_save_status(GridChange::Cleared, Err("no space".to_string()), &mut dirty);
    assert_eq!(f.text, "Save failed: no space");
    assert_eq!(f.seconds, 5);
    assert!(dirty);
}

#[test]
fn role_clicks_follow_the_offered_buttons() {
    let mut d = ManagerData::new();
    assert!(d.role_click("/assets", true, RoleClick::MarkAssetRoot));
    assert_eq!(d.classify_dir("/assets"), DirRole::AssetRoot);
    assert!(!d.role_click("/assets", true, RoleClick::MarkExportRoot));
    assert!(!d.role_click("/elsewhere/x", true, RoleClick::MarkCreatorRoot));
    assert!(d.creator_roots.is_empty());
    assert!(d.role_click("/assets/alice", true, RoleClick::MarkCreatorRoot));
    assert_eq!(d.creator_roots[0].1.asset_root, "/assets");
    assert!(!d.role_click("/assets/alice/p.zip", false, RoleClick::MarkAssetRoot));
    assert!(d.role_click("/assets/alice/p.zip", false, RoleClick::MarkAssetPackRoot));
    assert_eq!(d.asset_pack_roots[0].1.creator_root, "/assets/alice");
    assert!(d.role_click("/assets/alice", true, RoleClick::Remove));
    assert_eq!(d.classify_dir("/assets/alice"), DirRole::NoRole);
    assert_eq!(d.classify_dir("/assets"), DirRole::AssetRoot);
    assert!(!d.role_click("/nothing", true, RoleClick::Remove));
}

#[test]
fn well_formedness_is_checked() {
    let mut d = ManagerData::new();
    d.mark_asset_root("/b");
    d.mark_asset_root("/a");
    assert!(d.is_well_formed());
    d.asset_roots.reverse();
    assert!(!d.is_well_formed());
}

#[test]
fn selected_image_restores_its_saved_grid() {
    let mut d = ManagerData::new();
    d.set_grid("/p/hero.png", GridDef { cell_w: 16, cell_h: 24 });
    assert_eq!(d.restored_grid("/p/hero.png", false), (16, 24, true));
    assert_eq!(d.restored_grid("/p/other.png", false), (0, 0, false));
    assert_eq!(d.restored_grid("/p/other.png", true), (0, 0, true));
}
