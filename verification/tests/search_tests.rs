use std::io::Write;

use asset_manager::file_ref::FileRef;
use asset_manager::search::{
    disk_entry_action, is_zip_name, search_continues, search_root, search_zip_bytes, NameFilter,
    SearchAction, MAX_SEARCH_RESULTS,
};

fn zip_bytes(files: &[(&str, Vec<u8>)]) -> Vec<u8> {
    let mut w = zip::ZipWriter::new(std::io::Cursor::new(Vec::new()));
    let opts = zip::write::SimpleFileOptions::default();
    for (name, data) in files {
        w.start_file(*name, opts).unwrap();
        w.write_all(data).unwrap();
    }
    w.finish().unwrap().into_inner()
}

#[test]
fn filter_states() {
    let empty = NameFilter::new("");
    assert!(!empty.is_active());
    assert!(!empty.is_invalid());
    let bad = NameFilter::new("(unclosed");
    assert!(!bad.is_active());
    assert!(bad.is_invalid());
    let good = NameFilter::new("^hero");
    assert!(good.is_active());
    assert!(!good.is_invalid());
}

#[test]
fn filter_is_case_insensitive() {
    let f = NameFilter::new("hero.*png");
    assert!(f.matches("HERO_walk.PNG"));
    assert!(!f.matches("villain.png"));
}

#[test]
fn tree_shows_files() {
    let f = NameFilter::new("hero");
    assert!(f.shows("hero.png", true));
    assert!(!f.shows("villain.png", true));
    assert!(f.shows("pack.ZIP", true));
    assert!(!f.shows("pack.zip", false));
    let none = NameFilter::new("");
    assert!(none.shows("anything", false));
}

#[test]
fn zip_names() {
    assert!(is_zip_name("A.Zip"));
    assert!(!is_zip_name("a.rar"));
}

#[test]
fn search_inside_zip_and_nested_zip() {
    let inner = zip_bytes(&[("x/hero2.png", b"i".to_vec()), ("dir/", Vec::new()), ("other.png", b"o".to_vec())]);
    let outer = zip_bytes(&[
        ("sprites/hero.png", b"1".to_vec()),
        ("sprites/villain.png", b"2".to_vec()),
        ("packs/inner.zip", inner),
    ]);
    let f = NameFilter::new("hero");
    let mut results: Vec<FileRef> = Vec::new();
    search_zip_bytes("/a/outer.zip", &outer, &f, &mut results);
    assert_eq!(
        results,
        vec![
            FileRef::ZipEntry { zip_path: "/a/outer.zip".to_string(), entry: "sprites/hero.png".to_string() },
            FileRef::NestedZipEntry {
                outer_zip: "/a/outer.zip".to_string(),
                inner_entry: "packs/inner.zip".to_string(),
                entry: "x/hero2.png".to_string(),
            },
        ]
    );
}

#[test]
fn search_stops_at_the_limit() {
    let files: Vec<(String, Vec<u8>)> = (0..(MAX_SEARCH_RESULTS + 20)).map(|i| (format!("f{i}.png"), vec![1u8])).collect();
    let refs: Vec<(&str, Vec<u8>)> = files.iter().map(|(n, d)| (n.as_str(), d.clone())).collect();
    let bytes = zip_bytes(&refs);
    let f = NameFilter::new("png");
    let mut results: Vec<FileRef> = vec![FileRef::Disk("/already".to_string())];
    search_zip_bytes("/z.zip", &bytes, &f, &mut results);
    assert_eq!(results.len(), MAX_SEARCH_RESULTS);
    assert_eq!(results[0], FileRef::Disk("/already".to_string()));
}

#[test]
fn search_of_garbage_finds_nothing() {
    let f = NameFilter::new("x");
    let mut results: Vec<FileRef> = Vec::new();
    search_zip_bytes("/z.zip", b"not a zip", &f, &mut results);
    assert!(results.is_empty());
}

#[test]
fn disk_entry_actions() {
    let f = NameFilter::new("hero");
    assert_eq!(disk_entry_action("sub", true, &f), SearchAction::Descend);
    assert_eq!(disk_entry_action("pack.zip", false, &f), SearchAction::SearchZip);
    assert_eq!(disk_entry_action("hero.png", false, &f), SearchAction::Keep);
    assert_eq!(disk_entry_action("x.png", false, &f), SearchAction::Skip);
    assert!(search_continues(15, 199));
    assert!(!search_continues(16, 0));
    assert!(!search_continues(0, 200));
}

#[test]
fn search_roots() {
    let roots = vec!["/assets".to_string(), "/b".to_string()];
    let dir = Some(FileRef::Disk("C:\\x\\y".to_string()));
    assert_eq!(search_root(&dir, true, &roots), Some("C:/x/y".to_string()));
    let file = Some(FileRef::Disk("/x/y/z.png".to_string()));
    assert_eq!(search_root(&file, false, &roots), Some("/x/y".to_string()));
    let entry = Some(FileRef::ZipEntry { zip_path: "/p/q.zip".to_string(), entry: "a.png".to_string() });
    assert_eq!(search_root(&entry, false, &roots), Some("/p".to_string()));
    let root_file = Some(FileRef::Disk("/".to_string()));
    assert_eq!(search_root(&root_file, false, &roots), Some("/assets".to_string()));
    assert_eq!(search_root(&None, false, &roots), Some("/assets".to_string()));
    assert_eq!(search_root(&None, false, &Vec::new()), None);
}
