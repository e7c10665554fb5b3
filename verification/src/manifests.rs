//! Reading project manifests: `Cargo.toml`, `Cargo.lock`,
//! `rust-toolchain.toml`, `pyproject.toml` (TOML) and `package.json` (JSON)
//! are parsed into a plain document value, and the fields the dependency
//! scan needs are picked out of it.

use vstd::prelude::*;
use crate::project::{
    opt_view, python_spec, toolchain_spec, toolchain_version, dep_views, python_dependencies,
    CargoDep, CargoManifest, Dependency, NpmManifest, PyProject,
};
use crate::text::{eq_str, to_chars};

verus! {

/// A parsed TOML or JSON value, as far as manifests are read: strings,
/// arrays, tables (JSON objects) with their keys in order, and anything
/// else (numbers, booleans, dates, null).
#[derive(Debug)]
pub enum DocValue {
    Str(String),
    Array(Vec<DocValue>),
    Table(Vec<(String, DocValue)>),
    Other,
}

/// `toml::Value`.
#[verifier::external_type_specification]
#[verifier::external_body]
pub struct ExTomlValue(toml::Value);

/// `serde_json::Value`.
#[verifier::external_type_specification]
#[verifier::external_body]
pub struct ExJsonValue(serde_json::Value);

/// What `toml::from_str::<toml::Table>` makes of a text, as a document
/// value (`None` when it is no TOML document).
pub uninterp spec fn toml_document(text: Seq<char>) -> Option<DocValue>;

/// What `serde_json::from_str::<serde_json::Value>` makes of a text, as a
/// document value (`None` when it is no JSON).
pub uninterp spec fn json_document(text: Seq<char>) -> Option<DocValue>;

/// Converts a `toml::Value`, variant for variant.
#[verifier::external_body]
fn from_toml(v: &toml::Value) -> (r: DocValue) {
    match v {
        toml::Value::String(s) => DocValue::Str(s.clone()),
        toml::Value::Array(a) => DocValue::Array(a.iter().map(from_toml).collect()),
        toml::Value::Table(t) => DocValue::Table(
            t.iter().map(|(k, x)| (k.clone(), from_toml(x))).collect(),
        ),
        _ => DocValue::Other,
    }
}

/// Converts a `serde_json::Value`, variant for variant.
#[verifier::external_body]
fn from_json(v: &serde_json::Value) -> (r: DocValue) {
    match v {
        serde_json::Value::String(s) => DocValue::Str(s.clone()),
        serde_json::Value::Array(a) => DocValue::Array(a.iter().map(from_json).collect()),
        serde_json::Value::Object(o) => DocValue::Table(
            o.iter().map(|(k, x)| (k.clone(), from_json(x))).collect(),
        ),
        _ => DocValue::Other,
    }
}

/// Calls `toml::from_str::<toml::Table>` on `text`. Trusted: the result is
/// the parsed document (a table), a function of `text` alone, or `None`
/// when the text does not parse.
#[verifier::external_body]
fn parse_toml(text: &str) -> (r: Option<DocValue>)
    ensures
        r == toml_document(text@),
{
    match toml::from_str::<toml::Table>(text) {
        Ok(t) => Some(from_toml(&toml::Value::Table(t))),
        Err(_) => None,
    }
}

/// Calls `serde_json::from_str::<serde_json::Value>` on `text`. Trusted:
/// the result is the parsed value, a function of `text` alone, or `None`
/// when the text does not parse.
#[verifier::external_body]
fn parse_json(text: &str) -> (r: Option<DocValue>)
    ensures
        r == json_document(text@),
{
    match serde_json::from_str::<serde_json::Value>(text) {
        Ok(v) => Some(from_json(&v)),
        Err(_) => None,
    }
}

// ---------------------------------------------------------------------------
// Looking things up

/// The value of the first entry with key `key`.
pub open spec fn entry_of(es: Seq<(String, DocValue)>, key: Seq<char>) -> Option<DocValue>
    decreases es.len(),
{
    if es.len() == 0 {
        None
    } else if es[0].0@ == key {
        Some(es[0].1)
    } else {
        entry_of(es.drop_first(), key)
    }
}

/// `value.get(key)`: the entry `key` of a table.
pub open spec fn get(v: Option<DocValue>, key: Seq<char>) -> Option<DocValue> {
    match v {
        Some(DocValue::Table(es)) => entry_of(es@, key),
        _ => None,
    }
}

/// `value.as_str()`.
pub open spec fn as_str(v: Option<DocValue>) -> Option<String> {
    match v {
        Some(DocValue::Str(s)) => Some(s),
        _ => None,
    }
}

/// The value itself when it is a string, else its `version` entry when
/// that is one.
pub open spec fn str_or_version(v: DocValue) -> Option<String> {
    match v {
        DocValue::Str(s) => Some(s),
        _ => as_str(get(Some(v), "version"@)),
    }
}

/// The strings among `items`, in order.
pub open spec fn strings_in(items: Seq<DocValue>) -> Seq<String>
    decreases items.len(),
{
    if items.len() == 0 {
        seq![]
    } else {
        strings_in(items.drop_last()) + match items.last() {
            DocValue::Str(s) => seq![s],
            _ => Seq::<String>::empty(),
        }
    }
}

/// The strings of an array value, in order (none for anything else).
pub open spec fn string_array(v: Option<DocValue>) -> Seq<String> {
    match v {
        Some(DocValue::Array(items)) => strings_in(items@),
        _ => seq![],
    }
}

pub open spec fn deref(o: Option<&DocValue>) -> Option<DocValue> {
    match o {
        Some(x) => Some(*x),
        None => None,
    }
}

fn get_in<'a>(v: Option<&'a DocValue>, key: &str) -> (r: Option<&'a DocValue>)
    ensures
        deref(r) == get(deref(v), key@),
{
    match v {
        Some(DocValue::Table(es)) => {
            let mut i: usize = 0;
            assert(es@.skip(0) == es@);
            assert(get(deref(v), key@) == entry_of(es@, key@));
            while i < es.len()
                invariant
                    i <= es@.len(),
                    get(deref(v), key@) == entry_of(es@, key@),
                    entry_of(es@, key@) == entry_of(es@.skip(i as int), key@),
                decreases es@.len() - i,
            {
                assert(es@.skip(i as int)[0] == es@[i as int]);
                let k = to_chars(es[i].0.as_str());
                if eq_str(k.as_slice(), key) {
                    assert(es@[i as int].0@ == key@);
                    assert(entry_of(es@.skip(i as int), key@) == Some(es@[i as int].1));
                    let r = &es[i].1;
                    assert(*r == es@[i as int].1);
                    return Some(r);
                }
                assert(es@.skip(i as int).drop_first() == es@.skip(i + 1));
                i = i + 1;
            }
            None
        },
        _ => None,
    }
}

fn str_in(v: Option<&DocValue>) -> (r: Option<String>)
    ensures
        r == as_str(deref(v)),
{
    match v {
        Some(DocValue::Str(s)) => Some(s.clone()),
        _ => None,
    }
}

fn str_or_version_of(v: &DocValue) -> (r: Option<String>)
    ensures
        r == str_or_version(*v),
{
    match v {
        DocValue::Str(s) => Some(s.clone()),
        _ => str_in(get_in(Some(v), "version")),
    }
}

fn string_array_in(v: Option<&DocValue>) -> (r: Vec<String>)
    ensures
        r@ == string_array(deref(v)),
{
    let mut out: Vec<String> = Vec::new();
    match v {
        Some(DocValue::Array(items)) => {
            let mut i: usize = 0;
            while i < items.len()
                invariant
                    i <= items@.len(),
                    out@ == strings_in(items@.take(i as int)),
                decreases items@.len() - i,
            {
                assert(items@.take(i + 1).drop_last() == items@.take(i as int));
                assert(items@.take(i + 1).last() == items@[i as int]);
                match &items[i] {
                    DocValue::Str(s) => {
                        out.push(s.clone());
                    },
                    _ => {},
                }
                i = i + 1;
            }
            assert(items@.take(items@.len() as int) == items@);
        },
        _ => {},
    }
    out
}

// ---------------------------------------------------------------------------
// Cargo.toml

/// One entry of a Cargo dependency table: its key, whether it has a `path`,
/// its `package` (a rename) and its version (see `str_or_version`).
pub open spec fn cargo_dep_spec(e: (String, DocValue)) -> CargoDep {
    CargoDep {
        key: e.0,
        is_path: get(Some(e.1), "path"@) is Some,
        package: as_str(get(Some(e.1), "package"@)),
        version: str_or_version(e.1),
    }
}

/// The entries of a dependency section that is a table (none otherwise).
pub open spec fn section_deps(s: Option<DocValue>) -> Seq<CargoDep> {
    match s {
        Some(DocValue::Table(es)) => es@.map_values(|e: (String, DocValue)| cargo_dep_spec(e)),
        _ => seq![],
    }
}

/// `dependencies`, `dev-dependencies`, `build-dependencies`, then
/// `workspace.dependencies`.
pub open spec fn cargo_deps_spec(v: Option<DocValue>) -> Seq<CargoDep> {
    section_deps(get(v, "dependencies"@)) + section_deps(get(v, "dev-dependencies"@))
        + section_deps(get(v, "build-dependencies"@)) + section_deps(
        get(get(v, "workspace"@), "dependencies"@),
    )
}

/// `m` holds what the Cargo manifest `v` says: `package.rust-version`,
/// `workspace.package.rust-version`, the `workspace.members` strings and the
/// dependency entries.
pub open spec fn cargo_manifest_is(m: CargoManifest, v: Option<DocValue>) -> bool {
    &&& m.rust_version == as_str(get(get(v, "package"@), "rust-version"@))
    &&& m.workspace_rust_version == as_str(
        get(get(get(v, "workspace"@), "package"@), "rust-version"@),
    )
    &&& m.members@ == string_array(get(get(v, "workspace"@), "members"@))
    &&& m.dependencies@ == cargo_deps_spec(v)
}

fn push_section(out: &mut Vec<CargoDep>, s: Option<&DocValue>)
    ensures
        final(out)@ == old(out)@ + section_deps(deref(s)),
{
    match s {
        Some(DocValue::Table(es)) => {
            let ghost start = out@;
            let mut i: usize = 0;
            while i < es.len()
                invariant
                    i <= es@.len(),
                    section_deps(deref(s)) == es@.map_values(
                        |e: (String, DocValue)| cargo_dep_spec(e),
                    ),
                    out@ == start + es@.take(i as int).map_values(
                        |e: (String, DocValue)| cargo_dep_spec(e),
                    ),
                decreases es@.len() - i,
            {
                let value = &es[i].1;
                let d = CargoDep {
                    key: es[i].0.clone(),
                    is_path: get_in(Some(value), "path").is_some(),
                    package: str_in(get_in(Some(value), "package")),
                    version: str_or_version_of(value),
                };
                assert(d == cargo_dep_spec(es@[i as int]));
                out.push(d);
                assert(es@.take(i + 1).map_values(|e: (String, DocValue)| cargo_dep_spec(e))
                    =~= es@.take(i as int).map_values(|e: (String, DocValue)| cargo_dep_spec(e)).push(
                    cargo_dep_spec(es@[i as int]),
                ));
                i = i + 1;
            }
            assert(es@.take(es@.len() as int) == es@);
        },
        _ => {
            assert(old(out)@ + section_deps(deref(s)) =~= old(out)@);
        },
    }
}

/// What a parsed `Cargo.toml` says about dependencies (see
/// `cargo_manifest_is`).
pub fn cargo_manifest_of(v: &DocValue) -> (r: CargoManifest)
    ensures
        cargo_manifest_is(r, Some(*v)),
{
    let doc = Some(v);
    let workspace = get_in(doc, "workspace");
    let mut dependencies: Vec<CargoDep> = Vec::new();
    push_section(&mut dependencies, get_in(doc, "dependencies"));
    push_section(&mut dependencies, get_in(doc, "dev-dependencies"));
    push_section(&mut dependencies, get_in(doc, "build-dependencies"));
    push_section(&mut dependencies, get_in(workspace, "dependencies"));
    CargoManifest {
        rust_version: str_in(get_in(get_in(doc, "package"), "rust-version")),
        workspace_rust_version: str_in(get_in(get_in(workspace, "package"), "rust-version")),
        members: string_array_in(get_in(workspace, "members")),
        dependencies,
    }
}

/// Reads a `Cargo.toml` text: `None` when it is no TOML document.
pub fn read_cargo_manifest(text: &str) -> (r: Option<CargoManifest>)
    ensures
        match r {
            Some(m) => toml_document(text@) is Some && cargo_manifest_is(m, toml_document(text@)),
            None => toml_document(text@) is None,
        },
{
    match parse_toml(text) {
        Some(v) => Some(cargo_manifest_of(&v)),
        None => None,
    }
}

/// The documents among `texts` that parse as TOML, in order.
pub open spec fn toml_docs(texts: Seq<Seq<char>>) -> Seq<DocValue>
    decreases texts.len(),
{
    if texts.len() == 0 {
        seq![]
    } else {
        toml_docs(texts.drop_last()) + match toml_document(texts.last()) {
            Some(d) => seq![d],
            None => Seq::<DocValue>::empty(),
        }
    }
}

/// Reads the `Cargo.toml` texts of workspace members; those that do not
/// parse are left out.
pub fn cargo_members(texts: &Vec<String>) -> (r: Vec<CargoManifest>)
    ensures
        r@.len() == toml_docs(crate::text::strs(texts@)).len(),
        forall|i: int|
            0 <= i < r@.len() ==> cargo_manifest_is(
                #[trigger] r@[i],
                Some(toml_docs(crate::text::strs(texts@))[i]),
            ),
{
    let ghost ts = crate::text::strs(texts@);
    let mut out: Vec<CargoManifest> = Vec::new();
    let mut i: usize = 0;
    while i < texts.len()
        invariant
            i <= texts@.len(),
            ts == crate::text::strs(texts@),
            out@.len() == toml_docs(ts.take(i as int)).len(),
            forall|j: int|
                0 <= j < out@.len() ==> cargo_manifest_is(
                    #[trigger] out@[j],
                    Some(toml_docs(ts.take(i as int))[j]),
                ),
        decreases texts@.len() - i,
    {
        assert(ts.take(i + 1).drop_last() == ts.take(i as int));
        assert(ts.take(i + 1).last() == texts@[i as int]@);
        let ghost before = toml_docs(ts.take(i as int));
        match parse_toml(texts[i].as_str()) {
            Some(v) => {
                let m = cargo_manifest_of(&v);
                out.push(m);
                assert(toml_docs(ts.take(i + 1)) == before.push(v));
                assert forall|j: int| 0 <= j < out@.len() implies cargo_manifest_is(
                    #[trigger] out@[j],
                    Some(toml_docs(ts.take(i + 1))[j]),
                ) by {
                    if j < before.len() {
                        assert(toml_docs(ts.take(i + 1))[j] == before[j]);
                    }
                }
            },
            None => {
                assert(toml_docs(ts.take(i + 1)) =~= before);
            },
        }
        i = i + 1;
    }
    assert(ts.take(texts@.len() as int) == ts);
    out
}

// ---------------------------------------------------------------------------
// pyproject.toml

/// `tool.poetry.dependencies`.
pub open spec fn poetry_table(v: Option<DocValue>) -> Option<DocValue> {
    get(get(get(v, "tool"@), "poetry"@), "dependencies"@)
}

/// The poetry entries of a table: name and version (see `str_or_version`).
pub open spec fn poetry_entries(t: Option<DocValue>) -> Seq<(String, Option<String>)> {
    match t {
        Some(DocValue::Table(es)) => es@.map_values(
            |e: (String, DocValue)| (e.0, str_or_version(e.1)),
        ),
        _ => seq![],
    }
}

/// `p` holds what the `pyproject.toml` document `v` says:
/// `project.requires-python`, `tool.poetry.dependencies.python`, the
/// `project.dependencies` strings and the poetry entries.
pub open spec fn pyproject_is(p: PyProject, v: Option<DocValue>) -> bool {
    &&& p.requires_python == as_str(get(get(v, "project"@), "requires-python"@))
    &&& p.poetry_python == as_str(get(poetry_table(v), "python"@))
    &&& p.dependencies@ == string_array(get(get(v, "project"@), "dependencies"@))
    &&& p.poetry@ == poetry_entries(poetry_table(v))
}

/// What a parsed `pyproject.toml` says about dependencies (see
/// `pyproject_is`).
pub fn pyproject_of(v: &DocValue) -> (r: PyProject)
    ensures
        pyproject_is(r, Some(*v)),
{
    let doc = Some(v);
    let project = get_in(doc, "project");
    let poetry = get_in(get_in(get_in(doc, "tool"), "poetry"), "dependencies");
    let mut entries: Vec<(String, Option<String>)> = Vec::new();
    match poetry {
        Some(DocValue::Table(es)) => {
            let mut i: usize = 0;
            while i < es.len()
                invariant
                    i <= es@.len(),
                    poetry_entries(deref(poetry)) == es@.map_values(
                        |e: (String, DocValue)| (e.0, str_or_version(e.1)),
                    ),
                    entries@ == es@.take(i as int).map_values(
                        |e: (String, DocValue)| (e.0, str_or_version(e.1)),
                    ),
                decreases es@.len() - i,
            {
                let e = (es[i].0.clone(), str_or_version_of(&es[i].1));
                entries.push(e);
                assert(es@.take(i + 1).map_values(
                    |e: (String, DocValue)| (e.0, str_or_version(e.1)),
                ) =~= es@.take(i as int).map_values(
                    |e: (String, DocValue)| (e.0, str_or_version(e.1)),
                ).push((es@[i as int].0, str_or_version(es@[i as int].1))));
                i = i + 1;
            }
            assert(es@.take(es@.len() as int) == es@);
        },
        _ => {
            assert(entries@ =~= poetry_entries(deref(poetry)));
        },
    }
    PyProject {
        requires_python: str_in(get_in(project, "requires-python")),
        poetry_python: str_in(get_in(poetry, "python")),
        dependencies: string_array_in(get_in(project, "dependencies")),
        poetry: entries,
    }
}

/// The Python dependencies of a project from its `pyproject.toml` and
/// `requirements.txt` texts (each when the file is there). `None` when the
/// `pyproject.toml` is no TOML document: then neither file is read.
pub fn python_from_texts(pyproject: Option<&str>, requirements: Option<&str>) -> (r: Option<
    Vec<Dependency>,
>)
    ensures
        match r {
            None => pyproject matches Some(t) && toml_document(t@) is None,
            Some(ds) => match pyproject {
                Some(t) => toml_document(t@) is Some && exists|p: PyProject|
                    pyproject_is(p, toml_document(t@)) && dep_views(ds@) == python_spec(
                        Some(p),
                        match requirements {
                            Some(q) => Some(q@),
                            None => None,
                        },
                    ),
                None => dep_views(ds@) == python_spec(
                    None,
                    match requirements {
                        Some(q) => Some(q@),
                        None => None,
                    },
                ),
            },
        },
{
    match pyproject {
        Some(t) => match parse_toml(t) {
            Some(v) => {
                let p = pyproject_of(&v);
                let ds = python_dependencies(Some(&p), requirements);
                Some(ds)
            },
            None => None,
        },
        None => Some(python_dependencies(None, requirements)),
    }
}

// ---------------------------------------------------------------------------
// package.json

/// The entries of an object value with their values as strings (when
/// they are).
pub open spec fn string_entries(t: Option<DocValue>) -> Seq<(String, Option<String>)> {
    match t {
        Some(DocValue::Table(es)) => es@.map_values(
            |e: (String, DocValue)| (e.0, as_str(Some(e.1))),
        ),
        _ => seq![],
    }
}

fn push_string_entries(out: &mut Vec<(String, Option<String>)>, t: Option<&DocValue>)
    ensures
        final(out)@ == old(out)@ + string_entries(deref(t)),
{
    match t {
        Some(DocValue::Table(es)) => {
            let ghost start = out@;
            let mut i: usize = 0;
            while i < es.len()
                invariant
                    i <= es@.len(),
                    string_entries(deref(t)) == es@.map_values(
                        |e: (String, DocValue)| (e.0, as_str(Some(e.1))),
                    ),
                    out@ == start + es@.take(i as int).map_values(
                        |e: (String, DocValue)| (e.0, as_str(Some(e.1))),
                    ),
                decreases es@.len() - i,
            {
                let e = (es[i].0.clone(), str_in(Some(&es[i].1)));
                out.push(e);
                assert(es@.take(i + 1).map_values(|e: (String, DocValue)| (e.0, as_str(Some(e.1))))
                    =~= es@.take(i as int).map_values(
                    |e: (String, DocValue)| (e.0, as_str(Some(e.1))),
                ).push((es@[i as int].0, as_str(Some(es@[i as int].1)))));
                i = i + 1;
            }
            assert(es@.take(es@.len() as int) == es@);
        },
        _ => {
            assert(old(out)@ + string_entries(deref(t)) =~= old(out)@);
        },
    }
}

/// `m` holds what the `package.json` value `v` says: `engines.node`, then
/// `dependencies` and `devDependencies` with their specs.
pub open spec fn npm_manifest_is(m: NpmManifest, v: Option<DocValue>) -> bool {
    &&& m.node == as_str(get(get(v, "engines"@), "node"@))
    &&& m.dependencies@ == string_entries(get(v, "dependencies"@)) + string_entries(
        get(v, "devDependencies"@),
    )
}

/// Reads a `package.json` text: `None` when it is no JSON.
pub fn read_npm_manifest(text: &str) -> (r: Option<NpmManifest>)
    ensures
        match r {
            Some(m) => json_document(text@) is Some && npm_manifest_is(m, json_document(text@)),
            None => json_document(text@) is None,
        },
{
    match parse_json(text) {
        Some(v) => {
            let doc = Some(&v);
            let mut dependencies: Vec<(String, Option<String>)> = Vec::new();
            push_string_entries(&mut dependencies, get_in(doc, "dependencies"));
            push_string_entries(&mut dependencies, get_in(doc, "devDependencies"));
            Some(
                NpmManifest {
                    node: str_in(get_in(get_in(doc, "engines"), "node")),
                    dependencies,
                },
            )
        },
        None => None,
    }
}

/// The `version` an installed package's `package.json` gives, when it is
/// JSON with a string `version`.
pub fn read_package_version(text: &str) -> (r: Option<String>)
    ensures
        r == as_str(get(json_document(text@), "version"@)),
{
    match parse_json(text) {
        Some(v) => str_in(get_in(Some(&v), "version")),
        None => None,
    }
}

// ---------------------------------------------------------------------------
// Cargo.lock and rust-toolchain

/// A `[[package]]` entry of a lock file with a string `name` and `version`.
pub open spec fn lock_package_ok(p: DocValue) -> bool {
    as_str(get(Some(p), "name"@)) is Some && as_str(get(Some(p), "version"@)) is Some
}

/// The `(name, version)` of a well-formed package entry.
pub open spec fn lock_package(p: DocValue) -> (String, String) {
    (as_str(get(Some(p), "name"@))->Some_0, as_str(get(Some(p), "version"@))->Some_0)
}

/// The packages of a lock file: none when it does not parse, when
/// `package` is missing, or when `package` is not a list of entries that
/// all have a string `name` and `version`.
pub open spec fn lock_spec(v: Option<DocValue>) -> Seq<(String, String)> {
    match get(v, "package"@) {
        Some(DocValue::Array(items)) => if forall|i: int|
            0 <= i < items@.len() ==> lock_package_ok(#[trigger] items@[i]) {
            items@.map_values(|p: DocValue| lock_package(p))
        } else {
            seq![]
        },
        _ => seq![],
    }
}

/// Reads a `Cargo.lock` text into its `(name, version)` packages.
pub fn read_lock(text: &str) -> (r: Vec<(String, String)>)
    ensures
        r@ == lock_spec(toml_document(text@)),
{
    let mut out: Vec<(String, String)> = Vec::new();
    let doc = parse_toml(text);
    match &doc {
        Some(v) => match get_in(Some(v), "package") {
            Some(DocValue::Array(items)) => {
                let mut i: usize = 0;
                while i < items.len()
                    invariant
                        i <= items@.len(),
                        doc == toml_document(text@),
                        get(doc, "package"@) == Some(DocValue::Array(*items)),
                        forall|j: int| 0 <= j < i ==> lock_package_ok(#[trigger] items@[j]),
                        out@ == items@.take(i as int).map_values(|p: DocValue| lock_package(p)),
                    decreases items@.len() - i,
                {
                    let item = &items[i];
                    let name = str_in(get_in(Some(item), "name"));
                    let version = str_in(get_in(Some(item), "version"));
                    match (name, version) {
                        (Some(n), Some(ver)) => {
                            out.push((n, ver));
                            assert(items@.take(i + 1).map_values(|p: DocValue| lock_package(p))
                                =~= items@.take(i as int).map_values(
                                |p: DocValue| lock_package(p),
                            ).push(lock_package(items@[i as int])));
                        },
                        _ => {
                            assert(!lock_package_ok(items@[i as int]));
                            return Vec::new();
                        },
                    }
                    i = i + 1;
                }
                assert(items@.take(items@.len() as int) == items@);
            },
            _ => {},
        },
        None => {},
    }
    out
}

/// The Rust version a `rust-toolchain(.toml)` text pins: its
/// `toolchain.channel`, or the whole text when that is not TOML with one
/// (see `toolchain_spec`).
pub fn read_toolchain(text: &str) -> (r: Option<String>)
    ensures
        opt_view(r) == toolchain_spec(
            text@,
            as_str(get(get(toml_document(text@), "toolchain"@), "channel"@)),
        ),
{
    let doc = parse_toml(text);
    let channel = match &doc {
        Some(v) => str_in(get_in(get_in(Some(v), "toolchain"), "channel")),
        None => None,
    };
    toolchain_version(text, channel)
}

} // verus!
