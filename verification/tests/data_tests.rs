use asset_manager::data::{cell_key, data_file_path, save_and_status, BundleDef, DirRole, GridDef, ManagerData};

fn sample() -> ManagerData {
    let mut d = ManagerData::new();
    d.mark_asset_root("/assets");
    d.mark_creator_root("/assets/alice");
    d.mark_asset_pack_root("/assets/alice/pack.zip");
    d.mark_export_root("/out");
    d
}

#[test]
fn roles_of_directories() {
    let d = sample();
    assert_eq!(d.classify_dir("/assets"), DirRole::AssetRoot);
    assert_eq!(d.classify_dir("\\assets"), DirRole::AssetRoot);
    assert_eq!(d.classify_dir("/assets/alice"), DirRole::CreatorRoot);
    assert_eq!(d.classify_dir("/assets/alice/pack.zip"), DirRole::AssetPackRoot);
    assert_eq!(d.classify_dir("/out"), DirRole::ExportRoot);
    assert_eq!(d.classify_dir("/elsewhere"), DirRole::NoRole);
}

#[test]
fn enclosing_roots() {
    let d = sample();
    assert_eq!(d.is_inside_asset_root("/assets/alice/x"), Some("/assets".to_string()));
    assert_eq!(d.is_inside_asset_root("/assets"), None);
    assert_eq!(d.is_inside_creator_root("/assets/alice/pack.zip//a.png"), Some("/assets/alice".to_string()));
    assert_eq!(d.is_inside_creator_root("/other"), None);
}

#[test]
fn creator_root_needs_an_asset_root() {
    let mut d = ManagerData::new();
    assert!(!d.mark_creator_root("/x/y"));
    assert_eq!(d.classify_dir("/x/y"), DirRole::NoRole);
}

#[test]
fn tags_and_counts() {
    let mut d = sample();
    assert!(d.add_tag_name("  walk  "));
    assert!(!d.add_tag_name("walk"));
    assert!(!d.add_tag_name("   "));
    d.toggle_tag("a.png", "walk");
    d.toggle_tag("b.png", "walk");
    d.toggle_tag("b.png", "idle");
    assert_eq!(d.all_known_tags(), vec!["idle".to_string(), "walk".to_string()]);
    assert_eq!(d.tag_count("walk"), 2);
    assert_eq!(d.tag_count("idle"), 1);
    assert_eq!(d.tag_count("none"), 0);
}

#[test]
fn toggling_twice_restores() {
    let mut d = sample();
    d.toggle_tag("a.png", "walk");
    d.toggle_tag("a.png", "walk");
    assert_eq!(d.tag_count("walk"), 0);
    assert!(d.tags.is_empty());
}

#[test]
fn delete_tag_forgets_it() {
    let mut d = sample();
    d.add_tag_name("walk");
    d.toggle_tag("a.png", "walk");
    d.toggle_tag("b.png", "walk");
    d.toggle_tag("b.png", "idle");
    d.create_bundle("chars");
    d.bundles[0].1.cycle_tag_filter("walk");
    d.delete_tag("walk");
    assert_eq!(d.tag_count("walk"), 0);
    assert_eq!(d.all_known_tags(), vec!["idle".to_string()]);
    assert_eq!(d.tags.len(), 1);
    assert!(d.bundles[0].1.tag_filter.is_empty());
}

#[test]
fn bundle_query_follows_filter() {
    let mut d = sample();
    d.toggle_tag("b.png", "walk");
    d.toggle_tag("a.png", "walk");
    d.toggle_tag("c.png", "walk");
    d.toggle_tag("c.png", "old");
    let mut b = BundleDef::new();
    assert!(d.query_bundle_files(&b).is_empty());
    b.cycle_tag_filter("walk");
    assert_eq!(d.query_bundle_files(&b), vec!["a.png".to_string(), "b.png".to_string(), "c.png".to_string()]);
    b.cycle_tag_filter("old");
    b.cycle_tag_filter("old");
    assert_eq!(d.query_bundle_files(&b), vec!["a.png".to_string(), "b.png".to_string()]);
}

#[test]
fn filter_cycles_in_three_steps() {
    let mut b = BundleDef::new();
    b.cycle_tag_filter("walk");
    assert_eq!(b.tag_filter, vec![("walk".to_string(), true)]);
    b.cycle_tag_filter("walk");
    assert_eq!(b.tag_filter, vec![("walk".to_string(), false)]);
    b.cycle_tag_filter("walk");
    assert!(b.tag_filter.is_empty());
}

#[test]
fn bundles_are_created_once() {
    let mut d = sample();
    assert!(d.create_bundle(" heroes "));
    assert!(!d.create_bundle("heroes"));
    assert!(!d.create_bundle(" "));
    assert!(d.delete_bundle("heroes"));
    assert!(!d.delete_bundle("heroes"));
}

#[test]
fn grids_are_saved_and_cleared() {
    let mut d = sample();
    assert_eq!(d.saved_grid("a.png"), None);
    d.set_grid("a.png", GridDef { cell_w: 16, cell_h: 32 });
    assert_eq!(d.saved_grid("a.png"), Some(GridDef { cell_w: 16, cell_h: 32 }));
    assert!(d.clear_grid("a.png"));
    assert!(!d.clear_grid("a.png"));
}

#[test]
fn data_file_in_directory() {
    assert_eq!(data_file_path("D:/my-assets"), "D:/my-assets/asset_manager.toml");
    assert_eq!(data_file_path("D:/my-assets/"), "D:/my-assets/asset_manager.toml");
    assert_eq!(data_file_path(""), "asset_manager.toml");
}

#[test]
fn save_status_messages() {
    let mut dirty = true;
    let ok = save_and_status(Ok(()), &mut dirty);
    assert!(!dirty);
    assert_eq!(ok.text, "Saved.");
    assert_eq!(ok.seconds, 3);
    let mut dirty = true;
    let bad = save_and_status(Err("disk full".to_string()), &mut dirty);
    assert!(dirty);
    assert_eq!(bad.text, "Save failed: disk full");
    assert_eq!(bad.seconds, 5);
}

#[test]
fn cell_keys() {
    assert_eq!(cell_key("a.zip//b.png", 3, 10), "a.zip//b.png@3,10");
    assert_eq!(cell_key("x", 0, 0), "x@0,0");
}

#[test]
fn unmarking_roots() {
    let mut d = sample();
    assert!(d.unmark_asset_root("/assets"));
    assert!(!d.unmark_asset_root("/assets"));
    assert!(d.unmark_export_root("/out"));
    assert!(d.unmark_creator_root("/assets/alice"));
    assert!(d.unmark_asset_pack_root("/assets/alice/pack.zip"));
    assert_eq!(d.classify_dir("/assets/alice"), DirRole::NoRole);
}
