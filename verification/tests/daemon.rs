use dai::daemon::{
    authorized, daemon_info_path, default_limit, format_doc, format_docsets, format_hits,
    html_escape, progress_step, query_given, search_limit, should_report, split_docsets, stored_token, token_path,
};
use dai::index::HitView;
use dai::library::DocPage;
use dai::store::Docset;

fn hit(kind: &str, snippet: &str) -> HitView {
    HitView {
        docset: "react".into(),
        kind: kind.into(),
        name: "useEffect".into(),
        entry_type: "Hooks".into(),
        path: "reference/react/useeffect".into(),
        heading: "useEffect > Cleanup".into(),
        snippet: snippet.into(),
    }
}

#[test]
fn bearer_token_is_required() {
    assert!(authorized(Some("Bearer abc"), "abc"));
    assert!(!authorized(Some("Bearer abd"), "abc"));
    assert!(!authorized(Some("bearer abc"), "abc"));
    assert!(!authorized(Some("Bearer abc "), "abc"));
    assert!(!authorized(None, "abc"));
}

#[test]
fn limits_and_lists() {
    assert_eq!(default_limit(), 10);
    assert_eq!(search_limit(None), 10);
    assert_eq!(search_limit(Some(0)), 1);
    assert_eq!(search_limit(Some(500)), 50);
    assert_eq!(search_limit(Some(7)), 7);
    assert!(query_given("useEffect"));
    assert!(!query_given("  \n"));
    assert!(!query_given(""));
    assert_eq!(stored_token("  3f2a9c\n"), "3f2a9c");
    assert_eq!(split_docsets("react,,vue~3,"), ["react", "vue~3"]);
    assert!(split_docsets("").is_empty());
}

#[test]
fn files_in_home() {
    assert_eq!(daemon_info_path("/home/u/.dai"), "/home/u/.dai/daemon.json");
    assert_eq!(token_path("/home/u/.dai/"), "/home/u/.dai/token");
}

#[test]
fn search_answers() {
    assert_eq!(format_hits("zzz", &vec![]), "No results for `zzz`.");
    let text = format_hits("useEffect", &vec![hit("entry", ""), hit("chunk", "  Return a\n cleanup  ")]);
    assert_eq!(
        text,
        "1. useEffect — [Hooks]  (docset: react, path: reference/react/useeffect)\n\
         2. useEffect — useEffect > Cleanup  (docset: react, path: reference/react/useeffect)\n   Return a cleanup\n"
    );
}

#[test]
fn docset_answers() {
    assert!(format_docsets(&vec![]).starts_with("No docsets installed."));
    let d = Docset {
        id: "react".into(),
        name: "React".into(),
        source: "devdocs".into(),
        version: "19".into(),
        release: String::new(),
        mtime: 0,
        installed_at: 0,
    };
    assert_eq!(format_docsets(&vec![d]), "react: React 19\n");
}

#[test]
fn doc_answers() {
    let p = DocPage {
        docset: "react".into(),
        path: "a".into(),
        url: "https://devdocs.io/react/a".into(),
        markdown: "# A".into(),
        offset: 0,
        total_chars: 120,
        next_offset: Some(20),
    };
    assert_eq!(
        format_doc(&p),
        "<!-- react a | source: https://devdocs.io/react/a | chars 0-20 of 120 | next_offset: 20 -->\n\n# A"
    );
}

#[test]
fn progress_steps() {
    assert_eq!(progress_step(false, 50, Some(200)), 25);
    assert_eq!(progress_step(false, 8 << 20, None), 2);
    assert_eq!(progress_step(false, 8 << 20, Some(0)), 2);
    assert_eq!(progress_step(true, 1, None), u64::MAX - 1);
    assert!(should_report(u64::MAX, 0));
    assert!(!should_report(3, 3));
}

#[test]
fn escapes_html_text() {
    assert_eq!(html_escape("a<b>&c"), "a&lt;b&gt;&amp;c");
}

#[test]
fn viewer_shell_wraps_pages() {
    let html = dai::daemon::wrap("react", "reference/a<b", "<p>x</p>");
    assert!(html.starts_with("<!doctype html><html><head><meta charset=\"utf-8\"><title>a&lt;b</title><style>"));
    assert!(html.contains("<main><p>x</p></main>"));
    assert!(html.contains("const DAI_DOCSET = \"react\"; const DAI_PATH = \"reference/a<b\";"));
    assert!(html.ends_with("</script></body></html>"));
}

#[test]
fn ports_from_the_environment() {
    use_ports();
}

fn use_ports() {
    assert_eq!(dai::daemon::parse_port("4848"), Some(4848));
    assert_eq!(dai::daemon::parse_port("+80"), Some(80));
    assert_eq!(dai::daemon::parse_port("65536"), None);
    assert_eq!(dai::daemon::parse_port(""), None);
    assert_eq!(dai::daemon::parse_port("+"), None);
    assert_eq!(dai::daemon::parse_port("12a"), None);
    assert_eq!(dai::daemon::choose_port(Some("5000"), Some(6000)), 5000);
    assert_eq!(dai::daemon::choose_port(Some("x"), Some(6000)), 6000);
    assert_eq!(dai::daemon::choose_port(None, None), 4747);
    assert_eq!(dai::daemon::daemon_base_url(4747), "http://127.0.0.1:4747");
}

#[test]
fn event_streams_split_on_blank_lines() {
    let (data, rest) = dai::daemon::next_event("event: x\ndata: {\"a\"\ndata:  :1}\n\nnext").unwrap();
    assert_eq!(data, "{\"a\":1}");
    assert_eq!(rest, "next");
    assert!(dai::daemon::next_event("data: partial\n").is_none());
}

#[test]
fn deep_links_name_a_page() {
    let t = dai::daemon::parse_open_url("dai://open?docset=react&path=reference%2Freact%2Fuseeffect").unwrap();
    assert_eq!((t.docset.as_str(), t.path.as_str()), ("react", "reference/react/useeffect"));
    assert!(dai::daemon::parse_open_url("dai://other?docset=a&path=b").is_none());
    assert!(dai::daemon::parse_open_url("https://open?docset=a&path=b").is_none());
    assert!(dai::daemon::parse_open_url("dai://open?docset=a").is_none());
}

#[test]
fn health_answers() {
    let h = dai::daemon::health("1.2.3");
    assert!(dai::daemon::is_dai(&h));
    assert_eq!(h.version, "1.2.3");
}
