use dai::index::{
    exact_query, index_record, is_symbol_query, make_hit, search_exclusions, search_plan, IndexDoc,
    SearchField,
};

#[test]
fn records_for_each_kind() {
    let e = index_record("react", &IndexDoc::Entry { name: "useEffect", entry_type: "Hooks", path: "p" });
    assert_eq!(e.kind, "entry");
    assert_eq!(e.name_exact.as_deref(), Some("useeffect"));
    assert!(e.body.is_none());
    let c = index_record("react", &IndexDoc::Chunk { path: "p", title: "T", heading: "T > H", body: "b" });
    assert_eq!(c.kind, "chunk");
    assert!(c.name.is_none());
    assert_eq!(c.heading.as_deref(), Some("T > H"));
    let s = index_record("snippets", &IndexDoc::Snippet { id: "x", title: "Retry", language: "rust", tags: "a b", text: "code" });
    assert_eq!(s.path.as_deref(), Some("x"));
    assert_eq!(s.entry_type.as_deref(), Some("rust"));
    assert_eq!(s.name_exact.as_deref(), Some("retry"));
    assert_eq!(s.docset, "snippets");
}

#[test]
fn snippets_are_skipped_unless_asked() {
    assert_eq!(search_exclusions(&vec![], &vec!["vue".into()]), ["vue", "snippets"]);
    assert_eq!(search_exclusions(&vec!["snippets".into()], &vec![]), Vec::<String>::new());
}

#[test]
fn queries() {
    assert!(is_symbol_query("  Vec::pu "));
    assert!(!is_symbol_query("use effect"));
    assert_eq!(exact_query("  UseEffect "), "useeffect");
}

#[test]
fn search_plans_weight_names_first() {
    let s = |v: &[&str]| -> Vec<String> { v.iter().map(|x| x.to_string()).collect() };
    let plan = search_plan("usest", &s(&["usest"]), &s(&["usest"]), &s(&["usest"]), &vec![], &vec![]).unwrap();
    let got: Vec<(SearchField, &str, u32, bool)> = plan.should.iter().map(|c| (c.field, c.term.as_str(), c.boost, c.prefix)).collect();
    assert_eq!(
        got,
        [
            (SearchField::NameExact, "usest", 10, false),
            (SearchField::Name, "usest", 4, false),
            (SearchField::Name, "usest", 30, true),
            (SearchField::Heading, "usest", 2, false),
            (SearchField::Body, "usest", 1, false),
        ]
    );
    assert_eq!(plan.exclude, ["snippets"]);
    let prose = search_plan("use effect", &s(&["use", "effect"]), &vec![], &vec![], &s(&["react"]), &vec![]).unwrap();
    assert!(prose.should.iter().all(|c| !c.prefix));
    assert_eq!(prose.docsets, ["react"]);
    assert!(prose.exclude.is_empty());
    assert!(search_plan("   ", &vec![], &vec![], &vec![], &vec![], &vec![]).is_none());
}

#[test]
fn hits_name_chunks_by_page_title() {
    let c = make_hit("react".into(), "chunk".into(), String::new(), "useEffect".into(), String::new(), "p".into(), "useEffect > Cleanup".into(), "disconnect".into());
    assert_eq!((c.name.as_str(), c.snippet.as_str()), ("useEffect", "disconnect"));
    let e = make_hit("react".into(), "entry".into(), "useState".into(), String::new(), "Hooks".into(), "p".into(), String::new(), "ignored".into());
    assert_eq!((e.name.as_str(), e.snippet.as_str()), ("useState", ""));
}
