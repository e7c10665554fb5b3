use dai::dash::ZealDoc;
use dai::devdocs::CatalogDoc;
use dai::library::{
    commit_records, catalog_entries, dash_dir, dash_docset, dash_page_paths, devdocs_docset, doc_page,
    feed_version, install_target, is_html, is_outdated, is_pinned, outdated, page_path, use_cached,
    window, CatalogEntry, InstallTarget,
};
use dai::store::{Docset, Entry, Page};

fn devdoc(slug: &str, version: &str, release: &str, mtime: i64) -> CatalogDoc {
    CatalogDoc {
        name: slug.to_uppercase(),
        slug: slug.into(),
        version: version.into(),
        release: release.into(),
        mtime,
        db_size: 7,
    }
}

fn ds(id: &str, source: &str, version: &str, mtime: i64) -> Docset {
    Docset {
        id: id.into(),
        name: id.into(),
        source: source.into(),
        version: version.into(),
        release: String::new(),
        mtime,
        installed_at: 0,
    }
}

#[test]
fn page_paths_drop_fragments_and_queries() {
    assert_eq!(page_path("reference/react/useeffect#cleanup"), "reference/react/useeffect");
    assert_eq!(page_path("a.html?x=1#y"), "a.html");
    assert_eq!(page_path("plain"), "plain");
}

#[test]
fn html_pages_by_extension() {
    assert!(is_html("api/widget.html"));
    assert!(is_html("A.HTM"));
    assert!(is_html("x.xhtml"));
    assert!(!is_html("style.css"));
    assert!(!is_html("noext"));
}

#[test]
fn windows_prefer_line_breaks() {
    let text = "# useEffect\nline two\nline three\n";
    let (m, total, next) = window(text, 0, 20);
    assert_eq!(m, "# useEffect\n");
    assert_eq!(total, 32);
    assert_eq!(next, Some(12));
    let (rest, _, next2) = window(text, 12, 100);
    assert_eq!(rest, "line two\nline three\n");
    assert_eq!(next2, None);
    assert_eq!(m.chars().count() + rest.chars().count(), total);
    assert_eq!(window(text, 99, 5), (String::new(), 32, None));
}

#[test]
fn windows_cover_the_page() {
    let text = "a\nbb\nccc\ndddd\néé\n";
    let mut offset = 0;
    let mut read = String::new();
    loop {
        let (m, _, next) = window(text, offset, 4);
        read.push_str(&m);
        match next {
            Some(n) => offset = n,
            None => break,
        }
    }
    assert_eq!(read, text);
}

#[test]
fn doc_pages_link_devdocs_only() {
    let p = doc_page("react", "reference/react/useeffect#cleanup", "reference/react/useeffect".into(), "# useEffect\nbody\n", 0, Some(20));
    assert_eq!(p.url, "https://devdocs.io/react/reference/react/useeffect#cleanup");
    assert_eq!(p.path, "reference/react/useeffect");
    assert!(p.markdown.starts_with("# useEffect"));
    let d = doc_page("dash:Widgets", "api/widget.html", "api/widget.html".into(), "# Widget\n", 0, None);
    assert!(d.url.is_empty());
    assert_eq!(d.next_offset, None);
}

#[test]
fn dash_pages_sorted_once() {
    let paths = vec![
        "b.html#x".to_string(),
        "a.html".to_string(),
        "b.html".to_string(),
        "style.css".to_string(),
        "a.html?q".to_string(),
    ];
    assert_eq!(dash_page_paths(&paths), ["a.html", "b.html"]);
}

#[test]
fn catalogs_and_outdated_docsets() {
    let z = ZealDoc {
        name: "VueJS".into(),
        title: "Vue".into(),
        versions: vec!["3.5.0".into(), "2.7.16".into()],
        size: 9,
    };
    let all = catalog_entries(vec![devdoc("react", "", "19.1", 200)], vec![z.clone()]);
    assert_eq!(all.len(), 2);
    assert_eq!(all[0].id, "react");
    assert_eq!(all[0].version, "19.1");
    assert_eq!(all[0].source, "devdocs");
    assert_eq!(all[1].id, "dash:VueJS");
    assert_eq!(all[1].version, "3.5.0");
    assert_eq!(all[1].name, "Vue");

    let installed = vec![
        ds("react", "devdocs", "19.1", 100),
        ds("dash:VueJS", "dash", "2.7.16", 0),
        ds("vue~3", "devdocs", "3", 5),
    ];
    let old: Vec<String> = outdated(installed, &all).into_iter().map(|d| d.id).collect();
    assert_eq!(old, ["react", "dash:VueJS"]);

    let same = CatalogEntry { version: "2.7.16".into(), ..all[1].clone() };
    assert!(!is_outdated(&ds("dash:VueJS", "dash", "2.7.16", 0), &same));
}

#[test]
fn pinned_versions_are_left_alone() {
    assert!(is_pinned("dash:React@18.3.1"));
    assert!(!is_pinned("dash:React"));
    assert!(!is_pinned("react~18"));
    assert!(!is_pinned("npm@x"));
    assert_eq!(feed_version("React@18.3.1"), ("React".to_string(), Some("18.3.1".to_string())));
    assert_eq!(feed_version("React"), ("React".to_string(), None));
    assert!(matches!(install_target("dash:React@18.3.1"), InstallTarget::Dash(n) if n == "React@18.3.1"));
    // Even when the catalog lists the pinned id itself, a pin is not updated.
    let vue = CatalogEntry {
        id: "dash:VueJS@2.7.16".into(),
        name: "Vue".into(),
        source: "dash".into(),
        version: "3.5.0".into(),
        size: 1,
        mtime: 0,
        versions: vec![],
    };
    let installed = vec![ds("dash:VueJS@2.7.16", "dash", "2.7.16", 0)];
    assert!(outdated(installed, &vec![vue]).is_empty());
    assert_eq!(dash_dir("/h", "React@18.3.1"), "/h/docsets/dash/React@18.3.1");
}

#[test]
fn installs_route_by_prefix() {
    assert!(matches!(install_target("dash:React"), InstallTarget::Dash(n) if n == "React"));
    assert!(matches!(install_target("react"), InstallTarget::DevDocs(s) if s == "react"));
}

#[test]
fn installed_records() {
    let d = devdocs_docset(&devdoc("react", "", "19.1", 100), 5);
    assert_eq!((d.version.as_str(), d.release.as_str(), d.installed_at), ("19.1", "19.1", 5));
    let d2 = devdocs_docset(&devdoc("python~3.12", "3.12", "3.12.1", 1), 0);
    assert_eq!(d2.version, "3.12");
    let z = ZealDoc { name: "React".into(), title: "React".into(), versions: vec![], size: 0 };
    let d3 = dash_docset(&z, None, 3);
    assert_eq!((d3.id.as_str(), d3.version.as_str(), d3.source.as_str()), ("dash:React", "", "dash"));
    let pinned = dash_docset(&z, Some("18.3.1"), 3);
    assert_eq!((pinned.id.as_str(), pinned.version.as_str()), ("dash:React@18.3.1", "18.3.1"));
    assert_eq!(dash_dir("/home/u/.dai", "a:b"), "/home/u/.dai/docsets/dash/a_b");
}

#[test]
fn caches_are_used_for_a_day() {
    assert!(use_cached(Some(10), false));
    assert!(!use_cached(Some(10), true));
    assert!(!use_cached(Some(86400), false));
    assert!(!use_cached(None, false));
}

#[test]
fn commits_index_entries_then_chunks() {
    let entry = |name: &str, path: &str| Entry { name: name.into(), path: path.into(), kind: "Hooks".into() };
    let entries = vec![
        entry("useEffect", "reference/react/useeffect"),
        entry("useEffect: cleanup", "reference/react/useeffect#cleanup"),
    ];
    let pages = vec![
        Page { path: "reference/react/useeffect".into(), html: String::new(), markdown: "# useEffect\nSync.\n## Cleanup\nDisconnect.\n".into() },
        Page { path: "other".into(), html: String::new(), markdown: "text".into() },
    ];
    let recs = commit_records("react", &entries, &pages);
    let kinds: Vec<&str> = recs.iter().map(|r| r.kind.as_str()).collect();
    assert_eq!(kinds, ["entry", "entry", "chunk", "chunk", "chunk"]);
    assert_eq!(recs[2].title.as_deref(), Some("useEffect"));
    assert_eq!(recs[3].heading.as_deref(), Some("useEffect > Cleanup"));
    assert_eq!(recs[3].body.as_deref(), Some("Disconnect."));
    assert_eq!(recs[4].title.as_deref(), Some("other"));
    assert_eq!(recs[0].name_exact.as_deref(), Some("useeffect"));
}

#[test]
fn catalog_filters_and_update_targets() {
    use_filters();
}

fn use_filters() {
    let e = CatalogEntry {
        id: "react~18".into(),
        name: "React".into(),
        source: "devdocs".into(),
        version: "18".into(),
        size: 0,
        mtime: 0,
        versions: vec![],
    };
    assert!(dai::library::catalog_matches(&e, None));
    assert!(dai::library::catalog_matches(&e, Some("REACT")));
    assert!(dai::library::catalog_matches(&e, Some("~18")));
    assert!(!dai::library::catalog_matches(&e, Some("vue")));
    let named = dai::library::update_targets(vec!["a".into()], &vec![]);
    assert_eq!(named, ["a"]);
    let all = dai::library::update_targets(vec![], &vec![ds("react", "devdocs", "1", 0)]);
    assert_eq!(all, ["react"]);
}
