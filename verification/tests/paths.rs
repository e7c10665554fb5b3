use dai::paths::{components_vec, expand_home, join_path_vec, stem_vec, extension_vec};

fn chars(s: &str) -> Vec<char> {
    s.chars().collect()
}

fn text(v: &[char]) -> String {
    v.iter().collect()
}

#[test]
fn configured_paths_expand_the_home_folder() {
    assert_eq!(expand_home("~", "/home/u"), "/home/u");
    assert_eq!(expand_home("~/code/snippets", "/home/u"), "/home/u/code/snippets");
    assert_eq!(expand_home("~/code", "/home/u/"), "/home/u/code");
    assert_eq!(expand_home("/abs/snippets", "/home/u"), "/abs/snippets");
    assert_eq!(expand_home("~other/x", "/home/u"), "~other/x");
}

#[test]
fn paths_split_and_join_like_std() {
    let parts: Vec<String> = components_vec(&chars("/a//b/./c.md")).iter().map(|c| text(c)).collect();
    assert_eq!(parts, ["/", "a", "b", "c.md"]);
    assert_eq!(text(&join_path_vec(&chars("/x"), &chars("y/z"))), "/x/y/z");
    assert_eq!(text(&join_path_vec(&chars("/x"), &chars("/abs"))), "/abs");
    assert_eq!(text(&stem_vec(&chars("retry.md"))), "retry");
    assert_eq!(extension_vec(&chars("retry.md")).map(|e| text(&e)), Some("md".to_string()));
    assert_eq!(extension_vec(&chars(".hidden")), None);
}
