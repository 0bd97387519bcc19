use asset_manager::browse::{
    dir_listing, expand_path_ancestors, is_image_file, navigate, tree_depth_shown, short_name, sibling_files,
    zip_dir_children, TreeExpansion,
};
use asset_manager::file_ref::{same_ref, FileRef};

fn strings(v: &[&str]) -> Vec<String> {
    v.iter().map(|s| s.to_string()).collect()
}

#[test]
fn image_extensions() {
    assert!(is_image_file("a.png"));
    assert!(is_image_file("A.JPEG"));
    assert!(is_image_file("x.Gif"));
    assert!(is_image_file("x.bmp"));
    assert!(is_image_file("x.jpg"));
    assert!(!is_image_file("x.zip"));
    assert!(!is_image_file("png"));
}

#[test]
fn short_names() {
    assert_eq!(short_name("/assets/alice/"), "alice");
    assert_eq!(short_name("C:/x/y"), "y");
    assert_eq!(short_name("plain"), "plain");
    assert_eq!(short_name("///"), "");
}

#[test]
fn ancestors_of_a_disk_path() {
    assert_eq!(
        expand_path_ancestors("/home/u/x.png"),
        strings(&["/", "/home", "/home/u", "/home/u/x.png", "/home/u/x.png"])
    );
}

#[test]
fn ancestors_of_a_windows_zip_path() {
    assert_eq!(
        expand_path_ancestors("C:\\a\\b.zip//d/x.png"),
        strings(&["C:/", "C:/a", "C:/a/b.zip", "C:/a/b.zip//d/", "C:/a/b.zip//d/x.png"])
    );
}

#[test]
fn ancestors_of_a_nested_entry() {
    assert_eq!(
        expand_path_ancestors("/o.zip//p/i.zip//a/b/c.png"),
        strings(&[
            "/",
            "/o.zip",
            "/o.zip//p/",
            "/o.zip//p/i.zip",
            "/o.zip//p/i.zip//a/",
            "/o.zip//p/i.zip//a/b/",
            "/o.zip//p/i.zip//a/b/c.png",
        ])
    );
}

#[test]
fn expanding_a_zip_entry_opens_its_folder() {
    let mut t = TreeExpansion::from_nodes(&Vec::new());
    t.expand_path("D:/p/a.zip//sprites/hero.png");
    for k in ["D:/", "D:/p", "D:/p/a.zip", "D:/p/a.zip//sprites/"] {
        assert!(t.is_open(k), "{k}");
        assert!(t.is_forced(k), "{k}");
    }
    assert!(t.save_requested);
}

#[test]
fn children_at_top_level() {
    let entries = strings(&["a.png", "b/x.png", "b/y/z.png", "c/q.png", "d.png"]);
    let c = zip_dir_children(&entries, "");
    assert_eq!(c.subdirs, strings(&["b/", "c/"]));
    assert_eq!(c.files, strings(&["a.png", "d.png"]));
}

#[test]
fn children_of_a_subdirectory() {
    let entries = strings(&["a.png", "b/x.png", "b/y/z.png", "b/y/w.png", "c/q.png"]);
    let c = zip_dir_children(&entries, "b/");
    assert_eq!(c.subdirs, strings(&["b/y/"]));
    assert_eq!(c.files, strings(&["b/x.png"]));
}

#[test]
fn siblings_in_an_archive() {
    let f = FileRef::ZipEntry { zip_path: "/p.zip".to_string(), entry: "sprites/b.png".to_string() };
    let names = strings(&["sprites/c.png", "other/a.png", "sprites/", "sprites/sub/x.png", "sprites/a.png", "top.png"]);
    let s = sibling_files(&f, &names);
    let entries: Vec<String> = s
        .iter()
        .map(|r| match r {
            FileRef::ZipEntry { zip_path, entry } => {
                assert_eq!(zip_path, "/p.zip");
                entry.clone()
            }
            _ => panic!("expected zip entries"),
        })
        .collect();
    assert_eq!(entries, strings(&["sprites/a.png", "sprites/c.png"]));
}

#[test]
fn siblings_at_top_of_nested_archive() {
    let f = FileRef::NestedZipEntry {
        outer_zip: "/o.zip".to_string(),
        inner_entry: "i.zip".to_string(),
        entry: "b.png".to_string(),
    };
    let names = strings(&["d/e.png", "c.png", "a.png"]);
    let s = sibling_files(&f, &names);
    assert_eq!(
        s,
        vec![
            FileRef::NestedZipEntry { outer_zip: "/o.zip".to_string(), inner_entry: "i.zip".to_string(), entry: "a.png".to_string() },
            FileRef::NestedZipEntry { outer_zip: "/o.zip".to_string(), inner_entry: "i.zip".to_string(), entry: "c.png".to_string() },
        ]
    );
}

#[test]
fn siblings_on_disk_are_sorted() {
    let f = FileRef::Disk("/d/b.png".to_string());
    let s = sibling_files(&f, &strings(&["/d/c.png", "/d/a.png", "/d/b.png"]));
    assert_eq!(
        s,
        vec![
            FileRef::Disk("/d/a.png".to_string()),
            FileRef::Disk("/d/b.png".to_string()),
            FileRef::Disk("/d/c.png".to_string()),
        ]
    );
}

#[test]
fn navigation_steps() {
    let list = vec![
        FileRef::Disk("/a".to_string()),
        FileRef::Disk("/b".to_string()),
        FileRef::Disk("/c".to_string()),
    ];
    let b = Some(FileRef::Disk("/b".to_string()));
    assert_eq!(navigate(&list, &b, false, true), Some(2));
    assert_eq!(navigate(&list, &b, true, false), Some(0));
    let c = Some(FileRef::Disk("/c".to_string()));
    assert_eq!(navigate(&list, &c, false, true), None);
    assert_eq!(navigate(&list, &None, false, true), Some(0));
    let other = Some(FileRef::Disk("/zzz".to_string()));
    assert_eq!(navigate(&list, &other, true, false), Some(0));
    assert_eq!(navigate(&Vec::new(), &b, false, true), None);
}

#[test]
fn navigation_round_trip() {
    let list = vec![
        FileRef::Disk("/a".to_string()),
        FileRef::ZipEntry { zip_path: "/p.zip".to_string(), entry: "x".to_string() },
        FileRef::Disk("/c".to_string()),
    ];
    for i in 0..list.len() - 1 {
        let fwd = navigate(&list, &Some(list[i].clone()), false, true).unwrap();
        assert_eq!(fwd, i + 1);
        let back = navigate(&list, &Some(list[fwd].clone()), true, false).unwrap();
        assert_eq!(back, i);
    }
}

#[test]
fn reference_equality() {
    let a = FileRef::ZipEntry { zip_path: "p".to_string(), entry: "e".to_string() };
    let b = FileRef::ZipEntry { zip_path: "p".to_string(), entry: "e".to_string() };
    let c = FileRef::Disk("p//e".to_string());
    assert!(same_ref(&a, &b));
    assert!(!same_ref(&a, &c));
}

#[test]
fn reference_equality_follows_path_components() {
    let a = FileRef::Disk("a/b/".to_string());
    let b = FileRef::Disk("a/b".to_string());
    let c = FileRef::Disk("a//./b".to_string());
    let d = FileRef::Disk("/a/b".to_string());
    assert!(same_ref(&a, &b));
    assert!(same_ref(&b, &c));
    assert!(!same_ref(&b, &d));
    let z1 = FileRef::ZipEntry { zip_path: "/p/x.zip/".to_string(), entry: "e".to_string() };
    let z2 = FileRef::ZipEntry { zip_path: "/p/x.zip".to_string(), entry: "e".to_string() };
    let z3 = FileRef::ZipEntry { zip_path: "/p/x.zip".to_string(), entry: "e/".to_string() };
    assert!(same_ref(&z1, &z2));
    assert!(!same_ref(&z2, &z3));
    assert_eq!(a, b);
    assert_eq!(z1, z2);
    assert_ne!(b, d);
    assert_ne!(z2, z3);
}

#[test]
fn navigate_finds_selection_by_path_components() {
    let list = vec![
        FileRef::Disk("/p/a.png".to_string()),
        FileRef::Disk("/p/b.png".to_string()),
        FileRef::Disk("/p/c.png".to_string()),
    ];
    let sel = Some(FileRef::Disk("/p//b.png".to_string()));
    assert_eq!(navigate(&list, &sel, false, true), Some(2));
    assert_eq!(navigate(&list, &sel, true, false), Some(0));
}

#[test]
fn tree_expansion_tracks_and_expands() {
    let mut t = TreeExpansion::from_nodes(&strings(&["/b", "/a", "/b"]));
    assert_eq!(t.expanded, strings(&["/a", "/b"]));
    assert!(!t.save_requested);
    t.track("/a", true);
    assert!(!t.save_requested);
    t.track("/a", false);
    assert!(t.save_requested);
    assert!(!t.is_open("/a"));
    t.expand_path("/x/y.png");
    assert!(t.is_open("/x"));
    assert!(t.is_open("/x/y.png"));
    assert!(t.is_forced("/"));
    t.clear_forced();
    assert!(!t.is_forced("/"));
    assert!(t.is_open("/x/y.png"));
}

#[test]
fn directory_listing_puts_folders_first() {
    let es = vec![
        ("/d/b.png".to_string(), false),
        ("/d/z".to_string(), true),
        ("/d/a.png".to_string(), false),
        ("/d/c".to_string(), true),
    ];
    let l = dir_listing(&es);
    assert_eq!(l.subdirs, strings(&["/d/c", "/d/z"]));
    assert_eq!(l.files, strings(&["/d/a.png", "/d/b.png"]));
    assert!(tree_depth_shown(15));
    assert!(!tree_depth_shown(16));
}
