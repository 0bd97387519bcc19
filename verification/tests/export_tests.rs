use asset_manager::export::{
    expand_template, preview_output_paths, resolve_output_paths, resolve_placeholder, ExportProgress,
    ExportRun, TemplateVars,
};

fn vars(key: &str) -> TemplateVars {
    TemplateVars::from_key(key)
}

#[test]
fn vars_of_zip_entry() {
    let v = vars("D:/assets/pack.zip//chars/hero/walk.png");
    assert_eq!(v.zip, "pack");
    assert_eq!(v.dirs, vec!["chars".to_string(), "hero".to_string()]);
    assert_eq!(v.stem, "walk");
    assert_eq!(v.ext, "png");
    assert_eq!(v.name, "walk.png");
}

#[test]
fn vars_of_nested_entry_use_inner_archive() {
    let v = vars("o.zip//inner/pack.zip//a/b.tar.gz");
    assert_eq!(v.zip, "pack");
    assert_eq!(v.dirs, vec!["a".to_string()]);
    assert_eq!(v.stem, "b.tar");
    assert_eq!(v.ext, "gz");
    assert_eq!(v.name, "b.tar.gz");
}

#[test]
fn vars_of_disk_file() {
    let v = vars("/x/y/z.png");
    assert_eq!(v.zip, "");
    assert_eq!(v.dirs, vec!["/".to_string(), "x".to_string(), "y".to_string()]);
    assert_eq!(v.name, "z.png");
}

#[test]
fn vars_of_hidden_file_have_no_extension() {
    let v = vars("p.zip//.hidden");
    assert_eq!(v.stem, ".hidden");
    assert_eq!(v.ext, "");
    assert!(v.dirs.is_empty());
}

#[test]
fn expand_basic_template() {
    let v = vars("D:/assets/pack.zip//chars/hero/walk.png");
    assert_eq!(expand_template("{zip}/{dir[0]}/{name}", &v).unwrap(), "pack/chars/walk.png");
    assert_eq!(expand_template("{dir[-1]}_{stem}.{ext}", &v).unwrap(), "hero_walk.png");
    assert_eq!(expand_template("plain/text", &v).unwrap(), "plain/text");
}

#[test]
fn placeholder_errors() {
    let v = vars("D:/assets/pack.zip//chars/hero/walk.png");
    assert_eq!(
        resolve_placeholder("dir[5]", &v).unwrap_err(),
        "{dir[5]} out of range (have 2 dir segments)"
    );
    assert_eq!(resolve_placeholder("dir[x]", &v).unwrap_err(), "Invalid index in {dir[x]}");
    assert_eq!(resolve_placeholder("foo", &v).unwrap_err(), "Unknown placeholder {foo}");
    assert_eq!(resolve_placeholder("dir[-3]", &v).unwrap_err(), "{dir[-3]} out of range (have 2 dir segments)");
    let one = vars("p.zip//a/b.png");
    assert_eq!(
        resolve_placeholder("dir[1]", &one).unwrap_err(),
        "{dir[1]} out of range (have 1 dir segment)"
    );
}

#[test]
fn unclosed_placeholder() {
    let v = vars("p.zip//a/b.png");
    assert_eq!(expand_template("x/{zip", &v).unwrap_err(), "Unclosed placeholder '{zip'");
}

#[test]
fn empty_template_is_refused() {
    let keys = vec!["p.zip//a.png".to_string()];
    assert_eq!(resolve_output_paths("   ", &keys).unwrap_err(), "Export template is empty.");
}

#[test]
fn plan_in_key_order() {
    let keys = vec!["p.zip//a/x.png".to_string(), "q.zip//b/y.png".to_string()];
    let plan = resolve_output_paths("{zip}/{name}", &keys).unwrap();
    assert_eq!(
        plan,
        vec![
            ("p.zip//a/x.png".to_string(), "p/x.png".to_string()),
            ("q.zip//b/y.png".to_string(), "q/y.png".to_string()),
        ]
    );
    assert_eq!(
        preview_output_paths("{zip}/{name}", &keys).unwrap(),
        vec!["p/x.png".to_string(), "q/y.png".to_string()]
    );
}

#[test]
fn conflicting_outputs_are_refused() {
    let keys = vec!["a.zip//x/hero.png".to_string(), "b.zip//y/HERO.png".to_string()];
    assert_eq!(
        resolve_output_paths("{name}", &keys).unwrap_err(),
        "Conflict: two files map to \"HERO.png\":\n  a.zip//x/hero.png\n  b.zip//y/HERO.png"
    );
}

#[test]
fn conflict_sees_backslashes_as_slashes() {
    let keys = vec!["a.zip//d/x.png".to_string(), "b.zip//d/x.png".to_string()];
    assert!(resolve_output_paths("out\\{name}", &keys[..1]).is_ok());
    assert!(resolve_output_paths("{dir[0]}/{name}", &keys).is_err());
}

#[test]
fn plan_error_from_expansion() {
    let keys = vec!["p.zip//x.png".to_string()];
    assert_eq!(
        resolve_output_paths("{dir[0]}", &keys).unwrap_err(),
        "{dir[0]} out of range (have 0 dir segments)"
    );
}

#[test]
fn export_run_counts_and_reports() {
    let mut run = ExportRun::new(2);
    match run.file_written() {
        ExportProgress::Progress(w, t) => assert_eq!((w, t), (1, 2)),
        _ => panic!("expected progress"),
    }
    match run.finish() {
        ExportProgress::Done(w) => assert_eq!(w, 1),
        _ => panic!("expected done"),
    }
    match run.write_failed("a/b.png", "disk full") {
        ExportProgress::Failed(m) => assert_eq!(m, "Write failed for a/b.png: disk full"),
        _ => panic!("expected failure"),
    }
    match run.dir_failed("/out/a", "denied") {
        ExportProgress::Failed(m) => assert_eq!(m, "Cannot create dir /out/a: denied"),
        _ => panic!("expected failure"),
    }
}

#[test]
fn expansion_of_a_concatenation() {
    let v = TemplateVars::from_key("p.zip//a/b.png");
    let a = "{zip}/";
    let b = "{dir[0]}/{name}";
    let x = expand_template(a, &v).unwrap();
    let whole = expand_template(&format!("{a}{b}"), &v).unwrap();
    assert_eq!(whole, format!("{x}{}", expand_template(b, &v).unwrap()));
    assert_eq!(expand_template("a}b", &v).unwrap(), "a}b");
}
