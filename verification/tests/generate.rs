use dai::generate::{
    context7_pages, context7_topics, date_string, docs_dirs, docs_from_folders, is_asset, is_html_type, usable_index,
    readme_names, with_pages, Generated, GeneratedPage, is_full_text, is_markdown,
    linked_pages, link_targets, llms_candidates, page_stem, rel_path, safe_rel, skip_entry,
    split_by_h1, unique, GenerateError, Source,
};

#[test]
fn default_names() {
    let llms = |u: &str| Source::Llms { url: u.into() }.default_name();
    assert_eq!(llms("https://svelte.dev"), "svelte");
    assert_eq!(llms("https://orm.drizzle.team/llms-full.txt"), "orm-drizzle");
    assert_eq!(llms("https://tanstack.com/query/latest/llms.txt"), "tanstack-query");
    assert_eq!(llms("https://docs.astro.build/"), "astro");
    let repo = |u: &str| {
        Source::Repo {
            url: u.into(),
            git_ref: None,
        }
        .default_name()
    };
    assert_eq!(repo("https://github.com/withastro/docs.git"), "docs");
    assert_eq!(repo("git@github.com:honojs/website"), "website");
    let c7 = Source::Context7 {
        library_id: "/sveltejs/svelte".into(),
        topics: vec![],
    };
    assert_eq!(c7.default_name(), "svelte-context7");
}

#[test]
fn llms_full_splits_on_h1_outside_fences() {
    let pages = split_by_h1("preamble\n# Intro\ntext\n```md\n# not a page\n```\n# Intro\nagain\n");
    let paths: Vec<&str> = pages.iter().map(|p| p.path.as_str()).collect();
    assert_eq!(paths, ["index.md", "intro.md", "intro-2.md"]);
    assert!(pages[1].markdown.contains("# not a page"));
}

#[test]
fn page_stems_from_urls() {
    assert_eq!(page_stem("/query/latest/docs/overview.md"), "query/latest/docs/overview");
    assert_eq!(page_stem("/"), "index");
    assert_eq!(page_stem("/Guide/Getting Started.html"), "guide/getting-started");
}

#[test]
fn sources_know_their_kind_and_origin() {
    let d = Source::Dir { path: "/home/u/notes/".into() };
    assert_eq!(d.kind(), "dir");
    assert_eq!(d.origin(), "/home/u/notes/");
    assert_eq!(d.default_name(), "notes");
    let l = Source::Llms { url: "not a url".into() };
    assert_eq!(l.default_name(), "not-a-url");
}

#[test]
fn names_are_numbered_when_taken() {
    let mut used = Vec::new();
    assert_eq!(unique(&mut used, "intro", "md"), "intro.md");
    assert_eq!(unique(&mut used, "intro", "md"), "intro-2.md");
    assert_eq!(unique(&mut used, "intro", "md"), "intro-3.md");
    assert_eq!(used.len(), 3);
}

#[test]
fn blank_sections_are_dropped() {
    let pages = split_by_h1("\n  \n# B\nb\n");
    let paths: Vec<&str> = pages.iter().map(|p| p.path.as_str()).collect();
    assert_eq!(paths, ["b.md"]);
    assert_eq!(pages[0].markdown, "# B\nb\n");
}

#[test]
fn page_files() {
    assert_eq!(safe_rel("guide/intro.md"), Ok(()));
    assert_eq!(safe_rel(""), Err(GenerateError::UnsafePath));
    assert_eq!(safe_rel("../x.md"), Err(GenerateError::UnsafePath));
    assert_eq!(safe_rel("/etc/x.md"), Err(GenerateError::UnsafePath));
    assert!(is_markdown("guide/intro.MDX"));
    assert!(!is_markdown("guide/img/a.png"));
    assert!(is_asset("guide/img/a.PNG"));
    assert!(!is_asset("guide/intro.md"));
    assert!(skip_entry(".git") && skip_entry("node_modules"));
    assert!(!skip_entry("guide"));
    assert_eq!(rel_path("/src", "/src/guide/intro.mdx"), "guide/intro.mdx");
    assert_eq!(rel_path("/other", "a/b"), "a/b");
}

#[test]
fn llms_sources() {
    assert_eq!(
        llms_candidates("https://svelte.dev/"),
        ["https://svelte.dev/llms-full.txt", "https://svelte.dev/llms.txt"]
    );
    assert_eq!(llms_candidates("https://x.dev/llms.txt"), ["https://x.dev/llms.txt"]);
    assert!(is_full_text("https://svelte.dev/llms-full.txt"));
    assert!(!is_full_text("https://svelte.dev/llms.txt"));
    assert!(is_html_type(Some("text/html; charset=utf-8")));
    assert!(!is_html_type(Some("text/plain")));
    assert!(!is_html_type(None));
    assert!(usable_index(true, Some("text/plain"), "# Docs"));
    assert!(!usable_index(true, Some("text/html"), "# Docs"));
    assert!(!usable_index(false, None, "# Docs"));
    assert!(!usable_index(true, None, " \n "));
}

#[test]
fn index_links_same_host_once() {
    let index = "# Docs\n- [Overview](/docs/overview.md)\n- [Again](/docs/overview.md#top)\n- [Ext](https://other.dev/x)\n- [Rel](guide.md) []() [x](a b)";
    let got = link_targets("https://tanstack.com/query/llms.txt", index).unwrap();
    let items: Vec<(&str, &str, &str)> = got.iter().map(|(t, u, p)| (t.as_str(), u.as_str(), p.as_str())).collect();
    assert_eq!(
        items,
        [
            ("Overview", "https://tanstack.com/docs/overview.md", "/docs/overview.md"),
            ("Rel", "https://tanstack.com/query/guide.md", "/query/guide.md"),
        ]
    );
    assert!(link_targets("not a url", index).is_none());
}

#[test]
fn linked_pages_get_titles_and_names() {
    let fetched = vec![
        ("Overview".to_string(), "/docs/overview.md".to_string(), "body".to_string()),
        ("Other".to_string(), "/docs/overview.md".to_string(), "# Own\nx".to_string()),
    ];
    let pages = linked_pages("index text", &fetched);
    let paths: Vec<&str> = pages.iter().map(|p| p.path.as_str()).collect();
    assert_eq!(paths, ["index.md", "docs/overview.md", "docs/overview-2.md"]);
    assert_eq!(pages[0].markdown, "index text");
    assert_eq!(pages[1].markdown, "# Overview\n\nbody");
    assert_eq!(pages[2].markdown, "# Own\nx");
}

#[test]
fn context7_topics_become_pages() {
    let topics = context7_topics(&vec![]);
    assert_eq!(topics.len(), 4);
    assert_eq!(topics[0], "getting started and installation");
    let pages = context7_pages(&vec!["Routing".to_string(), "routing".to_string()], &vec!["a".to_string(), "b".to_string()]);
    let paths: Vec<&str> = pages.iter().map(|p| p.path.as_str()).collect();
    assert_eq!(paths, ["routing.md", "routing-2.md"]);
    assert_eq!(pages[0].markdown, "# Routing\n\na");
}

#[test]
fn dates_are_padded() {
    assert_eq!(date_string(2026, 9, 4), "2026-09-04");
    assert_eq!(date_string(987, 12, 31), "0987-12-31");
    assert_eq!(date_string(-5, 1, 2), "-005-01-02");
}

#[test]
fn repo_docs_put_the_readme_first() {
    assert_eq!(docs_dirs(), ["docs", "doc", "documentation", "website/docs", "content/docs"]);
    assert_eq!(readme_names(), ["README.md", "readme.md", "Readme.md"]);
    let page = |p: &str| GeneratedPage { path: p.into(), markdown: format!("# {p}") };
    let docs = Generated {
        version: String::new(),
        pages: vec![page("docs/a.md"), page("docs/b.md")],
        assets: vec![("docs/img/x.png".into(), "/tmp/x.png".into())],
    };
    let site = Generated { version: String::new(), pages: vec![page("website/docs/c.md")], assets: vec![] };
    let g = docs_from_folders("abc123".into(), Some("# Hi".into()), vec![docs, site]);
    assert_eq!(g.version, "abc123");
    let paths: Vec<&str> = g.pages.iter().map(|p| p.path.as_str()).collect();
    assert_eq!(paths, ["README.md", "docs/a.md", "docs/b.md", "website/docs/c.md"]);
    assert_eq!(g.pages[0].markdown, "# Hi");
    assert_eq!(g.assets, [("docs/img/x.png".to_string(), "/tmp/x.png".to_string())]);
    let none = docs_from_folders("v".into(), None, vec![]);
    assert!(none.pages.is_empty() && none.assets.is_empty());
    assert!(matches!(with_pages(none), Err(GenerateError::NoPages)));
    assert!(with_pages(g).is_ok());
}
