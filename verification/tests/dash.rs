use dai::dash::{
    dir_name, documents_dir, download_url, extract_target, is_docset_path, portable_path,
    resolve, resolved_file, ZealDoc,
};

fn named_dir(parent: &std::path::Path, name: &str) -> tempfile::TempDir {
    tempfile::Builder::new().prefix(name).rand_bytes(0).tempdir_in(parent).unwrap()
}

fn named_file(parent: &std::path::Path, stem: &str, ext: &str) -> tempfile::NamedTempFile {
    tempfile::Builder::new()
        .prefix(stem)
        .suffix(ext)
        .rand_bytes(0)
        .tempfile_in(parent)
        .unwrap()
}

#[test]
fn dir_names_are_portable() {
    assert_eq!(dir_name("Android_(Kotlin)"), "Android_(Kotlin)");
    assert_eq!(dir_name("a:b/c"), "a_b_c");
}

#[test]
fn archive_paths_become_portable() {
    assert_eq!(
        portable_path("Docs/127.0.0.1:3000/index.html"),
        Some("Docs/127.0.0.1_3000/index.html".to_string())
    );
    assert_eq!(portable_path("./a/b"), Some("a/b".to_string()));
    assert_eq!(portable_path("../escape"), None);
    assert_eq!(portable_path("/abs"), None);

    let dir = tempfile::tempdir().unwrap();
    let sub = named_dir(dir.path(), "127.0.0.1_3000");
    let _f = named_file(sub.path(), "p", ".html");
    let root = dir.path().to_string_lossy().into_owned();
    assert!(resolve(&root, "127.0.0.1:3000/p.html").is_some());
}

#[test]
fn resolve_refuses_escapes_and_decodes() {
    let dir = tempfile::tempdir().unwrap();
    let sub = named_dir(dir.path(), "a b");
    let _f = named_file(sub.path(), "p", ".html");
    let root = dir.path().to_string_lossy().into_owned();

    assert!(resolve(&root, "a b/p.html").is_some());
    assert!(resolve(&root, "a%20b/p.html").is_some());
    assert!(resolve(&root, "../secret.txt").is_none());
    assert!(resolve(&root, "a b/../../secret.txt").is_none());
    assert!(resolve(&root, "/etc/passwd").is_none());
    assert!(resolve(&root, "a b").is_none(), "directories aren't pages");
}

#[test]
fn portable_names_lose_trailing_dots_and_spaces() {
    assert_eq!(portable_path("a./b "), Some("a/b".to_string()));
    assert_eq!(portable_path("..."), None);
    assert_eq!(portable_path(""), None);
    assert_eq!(portable_path("a//b/./c"), Some("a/b/c".to_string()));
    assert_eq!(portable_path("x<y>|z"), Some("x_y__z".to_string()));
}

#[test]
fn extraction_targets() {
    assert_eq!(
        extract_target("out", "X.docset/Contents/a:b.html", false),
        Some("out/X.docset/Contents/a_b.html".to_string())
    );
    assert_eq!(extract_target("out", "X.docset/link", true), None);
    assert_eq!(extract_target("out", "../evil.txt", false), None);
}

#[test]
fn zeal_doc_ids_and_versions() {
    let doc = ZealDoc {
        name: "React".into(),
        title: "React".into(),
        versions: vec!["18.3.1".into(), "17.0.2".into()],
        size: 1,
    };
    assert_eq!(doc.id(), "dash:React");
    assert_eq!(doc.latest_version(), "18.3.1");
    let none = ZealDoc {
        name: "Y".into(),
        title: "Y".into(),
        versions: vec![],
        size: 0,
    };
    assert_eq!(none.latest_version(), "");
}

#[test]
fn docset_paths_and_urls() {
    assert_eq!(documents_dir("/x/R.docset"), "/x/R.docset/Contents/Resources/Documents");
    assert_eq!(documents_dir("/x/R.docset/"), "/x/R.docset/Contents/Resources/Documents");
    assert!(is_docset_path("/tmp/out/React.docset"));
    assert!(!is_docset_path("/tmp/out/React"));
    assert_eq!(
        download_url("React", None),
        "https://go.zealdocs.org/d/com.kapeli/React/latest"
    );
    assert_eq!(
        download_url("React", Some("18.3.1")),
        "https://go.zealdocs.org/d/com.kapeli/React/18.3.1"
    );
}

#[test]
fn the_given_path_wins_over_the_decoded_one() {
    let a = || Some("/d/a b.html".to_string());
    let b = || Some("/d/a%20b.html".to_string());
    assert_eq!(resolved_file(a(), true, b(), true), a());
    assert_eq!(resolved_file(a(), false, b(), true), b());
    assert_eq!(resolved_file(None, true, b(), false), None);
    assert_eq!(resolved_file(a(), false, None, true), None);
}
