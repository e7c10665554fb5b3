use dai::library::CatalogEntry;
use dai::project::{
    analyze, dedup_dependencies, dependency_keys, docset_key, go_dependencies, npm_dependencies,
    parse_version, pep508, pick_locked, python_dependencies, suggest, toolchain_version,
    version_matches, cargo_dependencies, CargoDep, CargoManifest, Dependency, NpmManifest,
    ProjectReport, PyProject, first_root, manifest_files, root_search_dirs,
};
use dai::store::Docset;

fn dep(eco: &str, name: &str, spec: &str, resolved: Option<String>) -> Dependency {
    Dependency {
        ecosystem: eco.into(),
        name: name.into(),
        spec: spec.trim().into(),
        resolved,
    }
}

fn ds(id: &str, version: &str) -> Docset {
    Docset {
        id: id.into(),
        name: id.into(),
        source: String::new(),
        version: version.into(),
        release: String::new(),
        mtime: 0,
        installed_at: 0,
    }
}

fn key(id: &str) -> Option<String> {
    docset_key(id)
}

fn keys(eco: &str, name: &str) -> Vec<String> {
    dependency_keys(&dep(eco, name, "", None))
}

#[test]
fn versions_parse_from_specs() {
    assert_eq!(parse_version("^18.2.0"), Some(vec![18, 2, 0]));
    assert_eq!(parse_version(">=3.12,<4"), Some(vec![3, 12]));
    assert_eq!(parse_version("v1.21.0"), Some(vec![1, 21, 0]));
    assert_eq!(parse_version("latest"), None);
}

#[test]
fn docset_names_normalize() {
    assert_eq!(key("react~18").as_deref(), Some("react"));
    assert_eq!(key("node~22_lts").as_deref(), Some("node"));
    assert_eq!(key("dash:NodeJS").as_deref(), Some("node"));
    assert_eq!(key("dash:next.js_Contrib").as_deref(), Some("next"));
    assert_eq!(key("nextjs").as_deref(), Some("next"));
    assert_eq!(key("dash:React@18.3.1").as_deref(), Some("react"));
    assert_eq!(key("dash:Python_3").as_deref(), Some("python"));
    assert_eq!(key("angularjs~1.8").as_deref(), Some("angularjs"));
    assert_eq!(
        key("md:tanstack-query-context7").as_deref(),
        Some("tanstackquery")
    );
    assert_eq!(key("dash:Ack_Cheatsheet"), None);
}

#[test]
fn dependency_names_map_to_docset_names() {
    let has = |eco: &str, name: &str, k: &str| keys(eco, name).iter().any(|x| x == k);
    assert!(has("npm", "@tanstack/react-query", "tanstackquery"));
    assert!(has("npm", "@angular/core", "angular"));
    assert!(has("npm", "@types/node", "node"));
    assert!(has("npm", "react-dom", "react"));
    assert!(has("npm", "vue-router", "vuerouter"));
    assert_eq!(key("vue_router~4").as_deref(), Some("vuerouter"));
    assert!(has("go", "github.com/labstack/echo/v4", "echo"));
    assert!(has("pypi", "Django", "django"));
}

#[test]
fn version_matching_by_pin_precision() {
    let m = |v: &[u64], id: &str, ver: &str| version_matches(&v.to_vec(), id, ver);
    assert_eq!(m(&[18, 3, 1], "react~18", "18"), Some(true));
    assert_eq!(m(&[18, 3, 1], "react", "19.2"), Some(false));
    assert_eq!(
        m(&[19, 1, 0], "react", "19.2"),
        Some(true),
        "latest docsets compare majors"
    );
    assert_eq!(m(&[3, 12], "python~3.12", "3.12"), Some(true));
    assert_eq!(m(&[3, 11, 4], "python~3.12", "3.12"), Some(false));
    assert_eq!(m(&[22, 1], "node~22_lts", "22 LTS"), Some(true));
    assert_eq!(m(&[18, 2], "dash:React@18.3.1", "18.3.1"), Some(true));
    assert_eq!(
        m(&[0, 4, 1], "tokio", "0.3"),
        Some(false),
        "0.x compares minors"
    );
    assert_eq!(m(&[1, 0], "md:svelte", "2026-09-24"), None);
}

fn entry(id: &str, version: &str, versions: &[&str]) -> CatalogEntry {
    CatalogEntry {
        id: id.into(),
        name: id.into(),
        source: String::new(),
        version: version.into(),
        size: 0,
        mtime: 0,
        versions: versions.iter().map(|v| v.to_string()).collect(),
    }
}

#[test]
fn suggestions_prefer_matching_versions() {
    let catalog = vec![
        entry("react", "19.2", &[]),
        entry("react~18", "18", &[]),
        entry("vue~3", "3.5", &[]),
        entry("dash:VueJS", "3.5.0", &["2.7.16", "2.6.0"]),
        entry("dash:Express", "5.1.0", &[]),
    ];
    let report = ProjectReport {
        root: String::new(),
        covered: vec![],
        uncovered: vec![
            dep("npm", "react", "^18.2.0", None),
            dep("npm", "vue", "^2.7.0", None),
            dep("npm", "express", "", None),
            dep("npm", "leftpad", "1", None),
        ],
        suggestions: vec![],
    };
    let got: Vec<_> = suggest(&report, &catalog)
        .into_iter()
        .map(|s| (s.dependency, s.id))
        .collect();
    assert_eq!(
        got,
        [
            ("react".to_string(), "react~18".to_string()),
            ("vue".to_string(), "dash:VueJS@2.7.16".to_string()),
            ("express".to_string(), "dash:Express".to_string()),
        ]
    );
}

#[test]
fn go_mod_requires_in_order() {
    let deps = go_dependencies(
        "module x\n\ngo 1.22\n\nrequire (\n\tgithub.com/labstack/echo/v4 v4.11.4\n\tgolang.org/x/net v0.20.0 // indirect\n)\n",
    );
    let names: Vec<_> = deps.iter().map(|d| d.name.as_str()).collect();
    assert_eq!(names, ["go", "github.com/labstack/echo/v4"]);
    assert_eq!(deps[0].resolved.as_deref(), Some("1.22"));
    assert_eq!(deps[1].spec, "v4.11.4");
    assert_eq!(deps[1].resolved.as_deref(), Some("v4.11.4"));
}

#[test]
fn go_single_line_require() {
    let deps = go_dependencies("require github.com/x/y v1.2.3\n");
    assert_eq!(deps, [dep("go", "github.com/x/y", "v1.2.3", Some("v1.2.3".into()))]);
}

#[test]
fn requirements_and_pep508() {
    let p = |s: &str| {
        pep508(&s.chars().collect::<Vec<_>>())
            .map(|(n, v)| (n.into_iter().collect::<String>(), v.into_iter().collect::<String>()))
    };
    assert_eq!(
        p("django[bcrypt]>=5.0; python_version>\"3.10\""),
        Some(("django".to_string(), ">=5.0".to_string()))
    );
    assert_eq!(p("  requests  ==2.31 # pinned"), Some(("requests".to_string(), "==2.31".to_string())));
    assert_eq!(p("-r other.txt"), None);
    let deps = python_dependencies(
        None,
        Some("# deps\nDjango[argon2]>=5.0 ; python_version > '3.10'\n-r other.txt\n"),
    );
    assert_eq!(
        deps,
        [dep("language", "python", "", None), dep("pypi", "Django", ">=5.0", None)]
    );
}

#[test]
fn pyproject_then_requirements() {
    let py = PyProject {
        requires_python: Some(">=3.11".into()),
        poetry_python: None,
        dependencies: vec!["httpx>=0.27".into(), "!bad".into()],
        poetry: vec![("python".into(), Some("^3.11".into())), ("rich".into(), Some("^13".into()))],
    };
    let deps = python_dependencies(Some(&py), Some("flask==3\n"));
    assert_eq!(
        deps,
        [
            dep("language", "python", ">=3.11", None),
            dep("pypi", "httpx", ">=0.27", None),
            dep("pypi", "rich", "^13", None),
            dep("pypi", "flask", "==3", None),
        ]
    );
}

#[test]
fn npm_manifest_dependencies() {
    let m = NpmManifest {
        node: Some(">=22".into()),
        dependencies: vec![("react".into(), Some("^18.2.0".into())), ("x".into(), None)],
    };
    let deps = npm_dependencies(&m, &vec![Some("18.3.1".into()), None]);
    assert_eq!(
        deps,
        [
            dep("language", "node", ">=22", None),
            dep("npm", "react", "^18.2.0", Some("18.3.1".into())),
            dep("npm", "x", "", None),
        ]
    );
}

#[test]
fn cargo_workspace_members_and_lock() {
    let root = CargoManifest {
        rust_version: None,
        workspace_rust_version: Some("1.85".into()),
        members: vec!["crates/*".into()],
        dependencies: vec![],
    };
    let member = CargoManifest {
        dependencies: vec![
            CargoDep { key: "tokio".into(), is_path: false, package: None, version: Some("1".into()) },
            CargoDep { key: "local".into(), is_path: true, package: None, version: None },
        ],
        ..Default::default()
    };
    let lock = vec![
        ("tokio".to_string(), "0.2.25".to_string()),
        ("tokio".to_string(), "1.53.1".to_string()),
    ];
    let deps = cargo_dependencies(&root, &vec![member], None, &lock);
    assert!(deps.contains(&dep("language", "rust", "1.85", None)));
    assert!(deps.contains(&dep("cargo", "tokio", "1", Some("1.53.1".into()))));
    assert!(!deps.iter().any(|d| d.name == "local"));
}

#[test]
fn locked_versions_prefer_compatible() {
    let v = |xs: &[&str]| xs.iter().map(|s| s.to_string()).collect::<Vec<_>>();
    assert_eq!(pick_locked(&v(&["0.2.25", "1.53.1", "1.9.0"]), "1").as_deref(), Some("1.53.1"));
    assert_eq!(pick_locked(&v(&["0.2.25", "1.53.1"]), "0.2").as_deref(), Some("0.2.25"));
    assert_eq!(pick_locked(&v(&["0.3.1", "0.2.0"]), "0.4").as_deref(), Some("0.3.1"));
    assert_eq!(pick_locked(&v(&["x"]), "1"), None);
}

#[test]
fn toolchain_files() {
    assert_eq!(toolchain_version("1.80.0\n", None).as_deref(), Some("1.80.0"));
    assert_eq!(toolchain_version("stable\n", None), None);
    assert_eq!(toolchain_version("", Some("1.79".into())).as_deref(), Some("1.79"));
}

#[test]
fn analyze_ranks_matches_and_excludes_other_versions() {
    let installed = vec![
        ds("react", "19.2"),
        ds("react~18", "18"),
        ds("node~22_lts", "22 LTS"),
        ds("django~4.2", "4.2"),
    ];
    let deps = vec![
        dep("language", "node", ">=22", None),
        dep("npm", "react", "^18.2.0", Some("18.3.1".into())),
        dep("npm", "@tanstack/react-query", "^5", None),
        dep("language", "python", "", None),
        dep("pypi", "Django", ">=5.0", None),
    ];
    let report = analyze("/p".into(), deps, &installed);
    let react = report.covered.iter().find(|d| d.dependency.name == "react").unwrap();
    let ids: Vec<_> = react.installed.iter().map(|m| (m.id.as_str(), m.matches)).collect();
    assert_eq!(ids, [("react~18", Some(true)), ("react", Some(false))]);
    let django = report.covered.iter().find(|d| d.dependency.name == "Django").unwrap();
    assert_eq!(django.installed[0].matches, Some(false));
    assert!(report
        .covered
        .iter()
        .any(|d| d.dependency.name == "node" && d.installed[0].matches == Some(true)));
    assert!(report.uncovered.iter().any(|d| d.name == "@tanstack/react-query"));
    assert_eq!(report.excluded_docsets(), ["react"]);
}

#[test]
fn duplicates_keep_the_first() {
    let deps = dedup_dependencies(vec![
        dep("npm", "a", "1", None),
        dep("npm", "a", "2", None),
        dep("pypi", "a", "3", None),
    ]);
    assert_eq!(deps, [dep("npm", "a", "1", None), dep("pypi", "a", "3", None)]);
}

#[test]
fn project_roots_are_searched_upwards() {
    assert_eq!(root_search_dirs("/home/u/app/src", false), ["/home/u/app/src", "/home/u/app", "/home/u", "/home", "/"]);
    assert_eq!(root_search_dirs("/home/u/app/Cargo.toml", true), ["/home/u/app", "/home/u", "/home", "/"]);
    assert_eq!(root_search_dirs("app/src", false), ["app/src", "app", ""]);
    assert_eq!(root_search_dirs("/", true), ["/"]);
    assert_eq!(
        manifest_files("/p"),
        ["/p/package.json", "/p/Cargo.toml", "/p/go.mod", "/p/pyproject.toml", "/p/requirements.txt"]
    );
    let dirs: Vec<String> = vec!["/a/b".into(), "/a".into(), "/".into()];
    assert_eq!(first_root(&dirs, &vec![false, true]), Some("/a".to_string()));
    assert_eq!(first_root(&dirs, &vec![false, false, false]), None);
    assert_eq!(first_root(&dirs, &vec![true]), Some("/a/b".to_string()));
}
