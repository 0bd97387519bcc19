use std::io::Write;

use asset_manager::archive::{
    archive_format, detect_format, is_archive, list_entries_zip_bytes, list_rar_headers,
    listing_from_names, normalize_rar_path, rar_entry_matches, read_entry_zip_bytes, sort_names,
    ArchiveFormat, RarHeader,
};

fn zip_bytes(files: &[(&str, &[u8])], dirs: &[&str]) -> Vec<u8> {
    let mut w = zip::ZipWriter::new(std::io::Cursor::new(Vec::new()));
    let opts = zip::write::SimpleFileOptions::default();
    for d in dirs {
        w.add_directory(*d, opts).unwrap();
    }
    for (name, data) in files {
        w.start_file(*name, opts).unwrap();
        w.write_all(data).unwrap();
    }
    w.finish().unwrap().into_inner()
}

#[test]
fn formats_by_extension() {
    assert_eq!(detect_format("pack.zip"), Some(ArchiveFormat::Zip));
    assert_eq!(detect_format("PACK.ZIP"), Some(ArchiveFormat::Zip));
    assert_eq!(detect_format("x.Rar"), Some(ArchiveFormat::Rar));
    assert_eq!(detect_format("x.7z"), None);
    assert!(is_archive("a/b/c.zip"));
    assert!(!is_archive("zip"));
    assert!(!is_archive("image.png"));
}

#[test]
fn unrecognised_format_message() {
    assert_eq!(archive_format("notes.txt").unwrap_err(), "Unrecognised archive format: notes.txt");
    assert_eq!(archive_format("a.rar").unwrap(), ArchiveFormat::Rar);
}

#[test]
fn zip_listing_is_sorted_files_only() {
    let bytes = zip_bytes(&[("b/z.png", b"1"), ("a.png", b"22"), ("b/a.png", b"333")], &["b/"]);
    let list = list_entries_zip_bytes(&bytes).unwrap();
    assert_eq!(list, vec!["a.png".to_string(), "b/a.png".to_string(), "b/z.png".to_string()]);
}

#[test]
fn zip_listing_of_garbage_fails() {
    let err = list_entries_zip_bytes(b"this is not a zip").unwrap_err();
    assert!(err.starts_with("Invalid zip: "));
}

#[test]
fn read_zip_entry() {
    let bytes = zip_bytes(&[("dir/hero.png", b"PNGDATA"), ("x.txt", b"hello")], &[]);
    assert_eq!(read_entry_zip_bytes(&bytes, "dir/hero.png").unwrap(), b"PNGDATA".to_vec());
    assert_eq!(read_entry_zip_bytes(&bytes, "x.txt").unwrap(), b"hello".to_vec());
}

#[test]
fn read_missing_zip_entry() {
    let bytes = zip_bytes(&[("x.txt", b"hello")], &[]);
    let err = read_entry_zip_bytes(&bytes, "nope.txt").unwrap_err();
    assert!(err.starts_with("Entry not found: "));
}

#[test]
fn read_from_garbage() {
    let err = read_entry_zip_bytes(b"PK nothing", "x").unwrap_err();
    assert!(err.starts_with("Invalid zip: "));
}

#[test]
fn listing_from_read_names() {
    let names = vec![
        Some("z.png".to_string()),
        None,
        Some("dir/".to_string()),
        Some("a.png".to_string()),
        Some("a.png".to_string()),
    ];
    assert_eq!(
        listing_from_names(&names),
        vec!["a.png".to_string(), "a.png".to_string(), "z.png".to_string()]
    );
}

#[test]
fn rar_listing_normalises_and_sorts() {
    let headers = vec![
        RarHeader { filename: "dir\\b.png".to_string(), is_directory: false },
        RarHeader { filename: "dir".to_string(), is_directory: true },
        RarHeader { filename: "a.png".to_string(), is_directory: false },
    ];
    assert_eq!(list_rar_headers(&headers), vec!["a.png".to_string(), "dir/b.png".to_string()]);
}

#[test]
fn rar_paths() {
    assert_eq!(normalize_rar_path("a\\b\\c.png"), "a/b/c.png");
    assert!(rar_entry_matches("a\\b.png", "a/b.png"));
    assert!(!rar_entry_matches("a\\b.png", "a\\b.png"));
}

#[test]
fn names_sorted_by_code_point() {
    let v = vec!["b".to_string(), "B".to_string(), "a".to_string(), "ä".to_string(), "a".to_string()];
    assert_eq!(
        sort_names(&v),
        vec!["B".to_string(), "a".to_string(), "a".to_string(), "b".to_string(), "ä".to_string()]
    );
}
