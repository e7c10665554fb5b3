use dai::snippets::{
    candidate, first_free,
    from_input, kept_created, normalize_newlines, render, slugify, snippet_from_parts, split_code,
    split_frontmatter, validate, Frontmatter, Snippet, SnippetError, SnippetInput, SnippetStore,
};

fn input(title: &str, code: &str) -> SnippetInput {
    SnippetInput {
        title: title.into(),
        language: "TypeScript".into(),
        tags: vec!["React".into(), " hooks ".into()],
        description: "Delays a value.".into(),
        code: code.into(),
        notes: "Use with *care*.".into(),
    }
}

fn snippet(id: &str, code: &str) -> Snippet {
    from_input(id.into(), input("T", code), "c".into(), "u".into())
}

/// Reads a snippet file as the application does: the library splits it, and
/// the YAML frontmatter is read here (into a generic value, field by field).
fn parse(id: &str, text: &str) -> Snippet {
    let unix = normalize_newlines(text);
    let (front, body) = split_frontmatter(&unix);
    let value: Option<serde_json::Value> =
        front.and_then(|f| serde_saphyr::from_str::<serde_json::Value>(&f).ok());
    let field = |name: &str| -> String {
        value
            .as_ref()
            .and_then(|v| v.get(name))
            .and_then(|v| v.as_str())
            .unwrap_or_default()
            .to_string()
    };
    let tags: Vec<String> = value
        .as_ref()
        .and_then(|v| v.get("tags"))
        .and_then(|v| v.as_array())
        .map(|a| a.iter().filter_map(|t| t.as_str().map(String::from)).collect())
        .unwrap_or_default();
    let fm = Frontmatter {
        title: field("title"),
        language: field("language"),
        tags,
        description: field("description"),
        created: field("created"),
        updated: field("updated"),
    };
    snippet_from_parts(id, fm, &body)
}

#[test]
fn render_parse_round_trip() {
    let s = from_input(
        "x".into(),
        input("Debounce: \"hook\"", "const a = 1;\n"),
        "c".into(),
        "u".into(),
    );
    let parsed = parse("x", &render(&s));
    assert_eq!(parsed.title, "Debounce: \"hook\"");
    assert_eq!(parsed.language, "typescript");
    assert_eq!(parsed.tags, ["react", "hooks"]);
    assert_eq!(parsed.code, "const a = 1;");
    assert_eq!(parsed.notes, "Use with *care*.");
    assert_eq!((parsed.created.as_str(), parsed.updated.as_str()), ("c", "u"));
}

#[test]
fn code_containing_fences_gets_a_longer_fence() {
    let code = "```js\nx\n```";
    let s = from_input("x".into(), input("t", code), String::new(), String::new());
    assert_eq!(parse("x", &render(&s)).code, code);
}

#[test]
fn hand_written_files_still_load() {
    let s = parse("quick-note", "Some notes\n\n```sh\nls -la\n```\nafter");
    assert_eq!(s.title, "quick-note");
    assert_eq!(s.language, "sh");
    assert_eq!(s.code, "ls -la");
    assert_eq!(s.notes, "Some notes\n\nafter");

    let bad_yaml = parse("b", "---\ntitle: [unclosed\n---\n```\ncode\n```");
    assert_eq!((bad_yaml.title.as_str(), bad_yaml.code.as_str()), ("b", "code"));
}

#[test]
fn windows_newlines_are_read_as_unix() {
    assert_eq!(normalize_newlines("a\r\nb\r\n\rc"), "a\nb\n\rc");
    let s = parse("w", "---\r\ntitle: \"W\"\r\n---\r\n```sh\r\nls\r\n```\r\n");
    assert_eq!((s.title.as_str(), s.code.as_str()), ("W", "ls"));
}

#[test]
fn slugs() {
    assert_eq!(slugify("Debounce Hook (React)!"), "debounce-hook-react");
    assert_eq!(slugify("???"), "snippet");
}

#[test]
fn slugs_are_cut_at_sixty_chars() {
    let long = "a".repeat(70);
    assert_eq!(slugify(&long).chars().count(), 60);
    assert_eq!(slugify("  Ünïcödé  Words "), "ünïcödé-words");
}

#[test]
fn inputs_are_cleaned() {
    let s = from_input("x".into(), input("  Debounce  ", "c"), "c".into(), "u".into());
    assert_eq!(s.title, "Debounce");
    assert_eq!(s.language, "typescript");
    assert_eq!(s.tags, ["react", "hooks"]);
    assert_eq!((s.created.as_str(), s.updated.as_str()), ("c", "u"));
}

#[test]
fn blank_title_or_code_is_refused() {
    assert_eq!(validate(&input("  ", "x")), Err(SnippetError::MissingTitle));
    assert_eq!(validate(&input("t", " \n")), Err(SnippetError::MissingCode));
    assert_eq!(validate(&input("t", "x")), Ok(()));
}

#[test]
fn rendered_code_comes_back_from_the_body() {
    let s = from_input("x".into(), input("Debounce: \"hook\"", "const a = 1;\n"), "c".into(), "u".into());
    let text = render(&s);
    assert!(text.starts_with("---\ntitle: \"Debounce: \\\"hook\\\"\"\n"));
    let (front, body) = split_frontmatter(&text);
    assert!(front.unwrap().contains("tags: [\"react\",\"hooks\"]"));
    let (lang, code, notes) = split_code(&body);
    assert_eq!(lang, "typescript");
    assert_eq!(code, "const a = 1;");
    assert_eq!(notes, "Use with *care*.");
}

#[test]
fn code_with_fences_gets_a_longer_fence() {
    let code = "```js\nx\n```";
    let s = from_input("x".into(), input("t", code), String::new(), String::new());
    let text = render(&s);
    assert!(text.contains("````typescript\n"));
    let (_, body) = split_frontmatter(&text);
    assert_eq!(split_code(&body).1, code);
}

#[test]
fn hand_written_bodies_still_split() {
    let (front, body) = split_frontmatter("Some notes\n\n```sh\nls -la\n```\nafter");
    assert!(front.is_none());
    let s = snippet_from_parts(
        "quick-note",
        Frontmatter {
            title: String::new(),
            language: String::new(),
            tags: vec![],
            description: String::new(),
            created: String::new(),
            updated: String::new(),
        },
        &body,
    );
    assert_eq!(s.title, "quick-note");
    assert_eq!(s.language, "sh");
    assert_eq!(s.code, "ls -la");
    assert_eq!(s.notes, "Some notes\n\nafter");
}

#[test]
fn edits_keep_the_created_time() {
    assert_eq!(kept_created("c".into(), "now".into()), "c");
    assert_eq!(kept_created(String::new(), "now".into()), "now");
}

#[test]
fn store_keeps_snippets_by_id_in_order() {
    let mut store = SnippetStore::new("/snips".into());
    store.replace_all(vec![snippet("top", "1"), snippet("rust/async/retry", "2"), snippet("top", "3")]);
    let ids: Vec<&str> = store.all().iter().map(|s| s.id.as_str()).collect();
    assert_eq!(ids, ["rust/async/retry", "top"]);
    assert_eq!(store.get("top").unwrap().code, "3");
    assert!(store.get("nope").is_none());
    store.insert(snippet("a", "4"));
    assert_eq!(store.all()[0].id, "a");
    assert!(store.contains("a"));
    assert_eq!(store.dir(), "/snips");
}

#[test]
fn ids_and_paths_of_files() {
    let store = SnippetStore::new("/snips".into());
    assert_eq!(store.path("rust/retry"), "/snips/rust/retry.md");
    assert_eq!(store.id_for("/snips/rust/retry.md"), Some("rust/retry".to_string()));
    assert_eq!(store.id_for("/snips/top.md"), Some("top".to_string()));
    assert_eq!(store.id_for("/elsewhere/top.md"), None);
    assert!(store.is_snippet_change("/snips/rust/new.md", false, true));
    assert!(!store.is_snippet_change("/snips/.git/index", false, true));
    assert!(!store.is_snippet_change("/snips/notes.txt", false, true));
    assert!(store.is_snippet_change("/snips/notes.txt", false, false));
    assert!(store.is_snippet_change("/snips/rust", true, true));
    assert!(!store.is_snippet_change("/other/a.md", false, true));
}

#[test]
fn new_snippets_take_the_first_free_name() {
    let dir = tempfile::tempdir().unwrap();
    let root = dir.path().to_string_lossy().into_owned();
    let store = SnippetStore::new(root);
    let a = store.new_snippet(input("Same title", "a"), "now".into()).unwrap();
    assert_eq!(a.id, "same-title");
    assert_eq!(a.created, "now");
    let _taken = tempfile::Builder::new()
        .prefix("same-title")
        .suffix(".md")
        .rand_bytes(0)
        .tempfile_in(dir.path())
        .unwrap();
    let b = store.new_snippet(input("Same title", "b"), "now".into()).unwrap();
    assert_eq!(b.id, "same-title-2");
    assert_eq!(
        store.new_snippet(input("  ", "x"), "now".into()).unwrap_err(),
        SnippetError::MissingTitle
    );
}

#[test]
fn edits_need_an_existing_snippet() {
    let mut store = SnippetStore::new("/snips".into());
    let mut first = snippet("same-title", "a");
    first.created = "then".into();
    store.insert(first);
    let e = store.edited("same-title", input("Renamed", "a2"), "now".into()).unwrap();
    assert_eq!(e.id, "same-title");
    assert_eq!(e.created, "then");
    assert_eq!(e.updated, "now");
    assert_eq!(e.code, "a2");
    assert_eq!(
        store.edited("missing", input("R", "x"), "now".into()).unwrap_err(),
        SnippetError::NotFound
    );
}

#[test]
fn new_ids_take_the_first_untaken_candidate() {
    assert_eq!(candidate("same-title", 1), "same-title");
    assert_eq!(candidate("same-title", 2), "same-title-2");
    assert_eq!(first_free("same-title", &vec![false]), Some("same-title".to_string()));
    assert_eq!(first_free("same-title", &vec![true, false]), Some("same-title-2".to_string()));
    assert_eq!(first_free("same-title", &vec![true, true, false]), Some("same-title-3".to_string()));
    assert_eq!(first_free("same-title", &vec![true, true]), None);
}

#[test]
fn create_never_overwrites_and_update_keeps_created() {
    let dir = tempfile::tempdir().unwrap();
    let mut store = SnippetStore::new(dir.path().to_string_lossy().into_owned());
    let a = store.create(input("Same title", "a")).unwrap();
    assert_eq!(a.id, "same-title");
    assert_eq!(a.language, "typescript");
    assert_eq!(a.tags, ["react", "hooks"]);
    assert_eq!(a.notes, "Use with *care*.");
    assert_eq!(a.created, a.updated);
    // What the application writes for `a`.
    let _file = tempfile::Builder::new()
        .prefix("same-title")
        .suffix(".md")
        .rand_bytes(0)
        .tempfile_in(dir.path())
        .unwrap();
    store.insert(a.clone());
    let b = store.create(input("Same title", "b")).unwrap();
    assert_eq!(b.id, "same-title-2");
    store.insert(b);
    assert_eq!(store.all().len(), 2);
    assert_eq!(store.get("same-title").unwrap().code, "a");

    let u = store.update("same-title", input("Renamed", "a2")).unwrap();
    assert_eq!(u.id, "same-title");
    assert_eq!(u.created, a.created);
    assert_eq!(u.title, "Renamed");
    assert_eq!(u.code, "a2");
    assert_eq!(store.update("nope", input("x", "y")).unwrap_err(), SnippetError::NotFound);
}
