use dai::normalize::{chunk_markdown, html_to_markdown, main_content, Chunk};

#[test]
fn chunks_by_heading_trail() {
    let md = "intro\n# A\none\n## B\ntwo\n# C\nthree\n";
    let got: Vec<(String, String)> = chunk_markdown(md)
        .into_iter()
        .map(|c| (c.heading, c.body))
        .collect();
    assert_eq!(
        got,
        vec![
            ("".to_string(), "intro".to_string()),
            ("A".to_string(), "one".to_string()),
            ("A > B".to_string(), "two".to_string()),
            ("C".to_string(), "three".to_string()),
        ]
    );
}

#[test]
fn ignores_headings_in_code_fences() {
    let md = "# A\n```sh\n# not a heading\n```\n";
    let chunks = chunk_markdown(md);
    assert_eq!(chunks.len(), 1);
    assert!(chunks[0].body.contains("# not a heading"));
}

#[test]
fn empty_sections_keep_trail() {
    let chunks = chunk_markdown("# A\n## B\nbody\n");
    assert_eq!(
        chunks,
        vec![Chunk {
            heading: "A > B".into(),
            body: "body".into()
        }]
    );
}

#[test]
fn converts_html() {
    let md = html_to_markdown("<h1>Title</h1><p>Hello <code>x</code></p><script>bad()</script>")
        .unwrap();
    assert!(md.contains("# Title"));
    assert!(md.contains("`x`"));
    assert!(!md.contains("bad()"));
}

#[test]
fn main_content_prefers_article_then_body() {
    let page = "<html><body><nav>menu</nav><main><aside>toc</aside>\
                <article><h1>Title</h1><p>text</p></article></main><footer>f</footer></body></html>";
    let main = main_content(page);
    assert!(main.contains("<h1>Title</h1>") && !main.contains("menu") && !main.contains("toc"));

    let plain = main_content("<html><body><p>just body</p></body></html>");
    assert_eq!(plain.trim(), "<p>just body</p>");
}

#[test]
fn strips_empty_permalinks() {
    let md = html_to_markdown(
        r##"<h2>Reference<a href="#reference" title="Link for Reference"></a></h2>"##,
    )
    .unwrap();
    assert_eq!(md.trim(), "## Reference");
}

#[test]
fn chunk_bodies_and_headings_are_trimmed() {
    let chunks = chunk_markdown("  # Spaced  \n\n  text  \n\n");
    for c in &chunks {
        assert_eq!(c.heading, c.heading.trim());
        assert_eq!(c.body, c.body.trim());
    }
    assert_eq!(chunks[0].heading, "Spaced");
    assert_eq!(chunks[0].body, "text");
}

#[test]
fn headings_without_space_are_text() {
    let chunks = chunk_markdown("#tag\n####### seven\n");
    assert_eq!(chunks.len(), 1);
    assert_eq!(chunks[0].heading, "");
}
