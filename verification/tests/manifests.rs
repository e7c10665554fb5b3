use dai::manifests::{
    cargo_members, python_from_texts, read_cargo_manifest, read_lock, read_npm_manifest,
    read_package_version, read_toolchain,
};
use dai::project::{cargo_dependencies, npm_dependencies, Dependency};

fn dependency(eco: &str, name: &str, spec: &str, resolved: Option<&str>) -> Dependency {
    Dependency {
        ecosystem: eco.into(),
        name: name.into(),
        spec: spec.into(),
        resolved: resolved.map(String::from),
    }
}

#[test]
fn cargo_workspace_manifests_are_read() {
    let root = read_cargo_manifest(
        "[workspace]\nmembers = [\"crates/*\", 3]\n[workspace.package]\nrust-version = \"1.85\"\n",
    )
    .unwrap();
    assert_eq!(root.members, ["crates/*"]);
    assert_eq!(root.workspace_rust_version.as_deref(), Some("1.85"));
    assert_eq!(root.rust_version, None);
    assert!(read_cargo_manifest("[broken").is_none());

    let members = cargo_members(&vec![
        "[package]\nname = \"app\"\n[dependencies]\ntokio = { version = \"1\", features = [\"full\"] }\nlocal = { path = \"../local\" }\nfoo = { package = \"bar\", version = \"2\" }\n[dev-dependencies]\nserde = \"1.0\"\n".to_string(),
        "not = = toml".to_string(),
    ]);
    assert_eq!(members.len(), 1);
    let keys: Vec<(&str, bool, Option<&str>, Option<&str>)> = members[0]
        .dependencies
        .iter()
        .map(|d| (d.key.as_str(), d.is_path, d.package.as_deref(), d.version.as_deref()))
        .collect();
    assert_eq!(
        keys,
        [
            ("foo", false, Some("bar"), Some("2")),
            ("local", true, None, None),
            ("tokio", false, None, Some("1")),
            ("serde", false, None, Some("1.0")),
        ]
    );

    let lock = read_lock(
        "[[package]]\nname = \"tokio\"\nversion = \"0.2.25\"\n\n[[package]]\nname = \"tokio\"\nversion = \"1.53.1\"\n",
    );
    assert_eq!(
        lock,
        [("tokio".to_string(), "0.2.25".to_string()), ("tokio".to_string(), "1.53.1".to_string())]
    );
    assert!(read_lock("[[package]]\nname = \"x\"\n").is_empty());
    assert!(read_lock("nonsense [").is_empty());

    let deps = cargo_dependencies(&root, &members, None, &lock);
    assert!(deps.contains(&dependency("language", "rust", "1.85", None)));
    assert!(deps.contains(&dependency("cargo", "tokio", "1", Some("1.53.1"))));
    assert!(deps.contains(&dependency("cargo", "bar", "2", None)));
    assert!(!deps.iter().any(|d| d.name == "local"));
}

#[test]
fn toolchain_files_are_read() {
    assert_eq!(read_toolchain("[toolchain]\nchannel = \"1.82.0\"\n").as_deref(), Some("1.82.0"));
    assert_eq!(read_toolchain("1.80\n").as_deref(), Some("1.80"));
    assert_eq!(read_toolchain("stable\n"), None);
}

#[test]
fn package_json_is_read() {
    let m = read_npm_manifest(
        r#"{"engines":{"node":">=22"},"dependencies":{"react":"^18.2.0","x":{}},"devDependencies":{"leftpad":"1"}}"#,
    )
    .unwrap();
    assert_eq!(m.node.as_deref(), Some(">=22"));
    assert_eq!(
        m.dependencies,
        [
            ("react".to_string(), Some("^18.2.0".to_string())),
            ("x".to_string(), None),
            ("leftpad".to_string(), Some("1".to_string())),
        ]
    );
    assert!(read_npm_manifest("{nope").is_none());
    assert_eq!(read_package_version(r#"{"version":"18.3.1"}"#).as_deref(), Some("18.3.1"));
    assert_eq!(read_package_version(r#"{"version":1}"#), None);
    let resolved = vec![Some("18.3.1".to_string()), None, None];
    let deps = npm_dependencies(&m, &resolved);
    assert_eq!(deps[0], dependency("language", "node", ">=22", None));
    assert_eq!(deps[1], dependency("npm", "react", "^18.2.0", Some("18.3.1")));
}

#[test]
fn python_manifests_are_read() {
    let deps = python_from_texts(
        Some("[project]\nrequires-python = \">=3.11\"\ndependencies = [\"Django[argon2]>=5.0\"]\n[tool.poetry.dependencies]\npython = \"^3.11\"\nrequests = { version = \"2.31\" }\n"),
        None,
    )
    .unwrap();
    assert!(deps.contains(&dependency("language", "python", ">=3.11", None)));
    assert!(deps.contains(&dependency("pypi", "Django", ">=5.0", None)));
    assert!(deps.contains(&dependency("pypi", "requests", "2.31", None)));
    assert!(!deps.iter().any(|d| d.ecosystem == "pypi" && d.name == "python"));
    assert!(python_from_texts(Some("[project"), Some("flask\n")).is_none());
    let only_requirements = python_from_texts(None, Some("flask==3.0\n")).unwrap();
    assert!(only_requirements.contains(&dependency("pypi", "flask", "==3.0", None)));
}
