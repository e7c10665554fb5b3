use dai::markdown::{headings, strip_inline_vec, title};

fn heads(md: &str) -> Vec<(usize, String)> {
    headings(md)
        .into_iter()
        .map(|(l, t)| (l, t.into_iter().collect()))
        .collect()
}

#[test]
fn headings_outside_fences_with_markup_stripped() {
    let md = "# Guide\n\n## Getting `started`\n\ntext\n\n## Getting started\n\n### [Linked](x.md) part\n\n```\n## not a heading\n```\n";
    assert_eq!(
        heads(md),
        vec![
            (1, "Guide".to_string()),
            (2, "Getting started".to_string()),
            (2, "Getting started".to_string()),
            (3, "Linked part".to_string()),
        ]
    );
}

#[test]
fn titles_are_the_first_level_one_heading() {
    assert_eq!(title("intro\n## Sub\n# Main *title*\n# Second"), Some("Main title".to_string()));
    assert_eq!(title("no headings"), None);
    assert_eq!(title("```\n# fenced\n```\n"), None);
}

#[test]
fn inline_markup() {
    let s = |t: &str| -> String { strip_inline_vec(&t.chars().collect::<Vec<_>>()).into_iter().collect() };
    assert_eq!(s("**bold** and _it_"), "bold and it");
    assert_eq!(s("[a](b) [c] (d)"), "a [c] (d)");
    assert_eq!(s("[**x**](y)"), "**x**");
    assert_eq!(s("[open"), "[open");
}

#[test]
fn mdx_components_and_imports_are_stripped() {
    let mdx = "import { Tabs } from 'x';\n\n# Title\n\n<Tabs items={['a']}>\n<Tab>\nInside **tab**\n</Tab>\n</Tabs>\n\
               {/* hidden */}\n<Callout type=\"warn\">Careful</Callout>\n\n```jsx\nimport React from 'react';\n<App />\n```\n";
    let md = dai::markdown::clean_mdx(mdx);
    assert!(!md.contains("import { Tabs }"));
    assert!(!md.contains("<Tab") && !md.contains("hidden"));
    assert!(md.contains("Inside **tab**") && md.contains("Careful"));
    assert!(
        md.contains("import React from 'react';\n<App />"),
        "code fences untouched: {md}"
    );
}

#[test]
fn section_entries_follow_headings() {
    let md = "# Guide\n\n## Getting `started`\n\ntext\n\n## Getting started\n\n### [Linked](x.md) part\n\n```\n## not a heading\n```\n";
    let entries = dai::markdown::entries("guide.md", md, "fallback");
    let paths: Vec<&str> = entries.iter().map(|e| e.path.as_str()).collect();
    assert_eq!(
        paths,
        [
            "guide.md",
            "guide.md#getting-started",
            "guide.md#getting-started-1",
            "guide.md#linked-part"
        ]
    );
    assert_eq!(entries[0].name, "Guide");
    assert_eq!(entries[0].kind, "Guide");
    assert_eq!(entries[1].name, "Getting started - Guide");
    assert_eq!(entries[1].kind, "Section");
    let untitled = dai::markdown::entries("p.md", "## Only\n", "fallback");
    assert_eq!(untitled[0].name, "fallback");
    assert_eq!(untitled[1].name, "Only - fallback");
}

#[test]
fn mdx_lines_left_blank_are_dropped() {
    assert_eq!(dai::markdown::clean_mdx("<Note />\n\nplain\n"), "\nplain\n");
    assert_eq!(dai::markdown::clean_mdx("a {/* c */} b <X.Y>z</X.Y>"), "a  b z\n");
    assert_eq!(dai::markdown::clean_mdx("<lower>keep</lower>"), "<lower>keep</lower>\n");
}
