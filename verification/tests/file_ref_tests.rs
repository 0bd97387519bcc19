use asset_manager::file_ref::FileRef;

#[test]
fn repr_of_disk_path_uses_forward_slashes() {
    let f = FileRef::Disk("C:\\assets\\hero.png".to_string());
    assert_eq!(f.to_string_repr(), "C:/assets/hero.png");
}

#[test]
fn repr_of_zip_entry_joins_with_double_slash() {
    let f = FileRef::ZipEntry {
        zip_path: "D:/foo/pack.zip".to_string(),
        entry: "sprites/hero.png".to_string(),
    };
    assert_eq!(f.to_string_repr(), "D:/foo/pack.zip//sprites/hero.png");
}

#[test]
fn repr_of_nested_entry() {
    let f = FileRef::NestedZipEntry {
        outer_zip: "D:\\foo\\outer.zip".to_string(),
        inner_entry: "packs/inner.zip".to_string(),
        entry: "chars/a.png".to_string(),
    };
    assert_eq!(f.to_string_repr(), "D:/foo/outer.zip//packs/inner.zip//chars/a.png");
}

#[test]
fn parse_one_segment_is_disk() {
    assert_eq!(FileRef::from_string("/home/u/a.png"), FileRef::Disk("/home/u/a.png".to_string()));
}

#[test]
fn parse_two_segments_is_zip_entry() {
    assert_eq!(
        FileRef::from_string("D:/foo/pack.zip//sprites/hero.png"),
        FileRef::ZipEntry {
            zip_path: "D:/foo/pack.zip".to_string(),
            entry: "sprites/hero.png".to_string(),
        }
    );
}

#[test]
fn parse_more_segments_rejoins_the_rest() {
    assert_eq!(
        FileRef::from_string("o.zip//i.zip//a//b.png"),
        FileRef::NestedZipEntry {
            outer_zip: "o.zip".to_string(),
            inner_entry: "i.zip".to_string(),
            entry: "a//b.png".to_string(),
        }
    );
}

#[test]
fn round_trip_of_references() {
    let refs = vec![
        FileRef::Disk("/a/b.png".to_string()),
        FileRef::ZipEntry { zip_path: "/a/p.zip".to_string(), entry: "x/y.png".to_string() },
        FileRef::NestedZipEntry {
            outer_zip: "/a/o.zip".to_string(),
            inner_entry: "i.zip".to_string(),
            entry: "z/w.png".to_string(),
        },
    ];
    for f in refs {
        assert_eq!(FileRef::from_string(&f.to_string_repr()), f);
    }
}

#[test]
fn round_trip_of_strings() {
    for s in ["/a/b.png", "/a/p.zip//x/y.png", "/a/o.zip//i.zip//z/w.png", "o//i//a//b"] {
        assert_eq!(FileRef::from_string(s).to_string_repr(), s);
    }
}

#[test]
fn display_names() {
    assert_eq!(FileRef::Disk("/a/b/c.png".to_string()).display_name(), "c.png");
    assert_eq!(
        FileRef::ZipEntry { zip_path: "p.zip".to_string(), entry: "dir/sub/".to_string() }.display_name(),
        "sub"
    );
    assert_eq!(
        FileRef::NestedZipEntry {
            outer_zip: "o.zip".to_string(),
            inner_entry: "i.zip".to_string(),
            entry: "k.png".to_string()
        }
        .display_name(),
        "k.png"
    );
    assert_eq!(FileRef::Disk("/".to_string()).display_name(), "?");
    assert_eq!(FileRef::Disk("a/..".to_string()).display_name(), "?");
}

#[test]
fn backslashes_after_the_disk_part_round_trip() {
    let s = "/a/p.zip//x\\y.png";
    assert_eq!(FileRef::from_string(s).to_string_repr(), s);
}

#[test]
fn shown_names_do_not_depend_on_archives() {
    let e = FileRef::ZipEntry { zip_path: "/a/p.zip".to_string(), entry: "x/y.png".to_string() };
    assert_eq!(e.display_name(), FileRef::Disk("x/y.png".to_string()).display_name());
    for f in [FileRef::Disk("".to_string()), FileRef::Disk("/a/b/".to_string()), e] {
        let n = f.display_name();
        assert!(!n.is_empty() && !n.contains('/'));
    }
}
