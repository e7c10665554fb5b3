use dai::devdocs::{db_url, index_url, page_url, CatalogDoc};

#[test]
fn devdocs_addresses() {
    assert_eq!(page_url("react", "reference/react/useeffect"), "https://devdocs.io/react/reference/react/useeffect");
    let d = CatalogDoc {
        name: "React".into(),
        slug: "react".into(),
        version: String::new(),
        release: "19.1".into(),
        mtime: 1700000000,
        db_size: 0,
    };
    assert_eq!(index_url(&d), "https://documents.devdocs.io/react/index.json?1700000000");
    assert_eq!(db_url(&d), "https://documents.devdocs.io/react/db.json?1700000000");
    let neg = CatalogDoc { mtime: -5, ..d };
    assert_eq!(index_url(&neg), "https://documents.devdocs.io/react/index.json?-5");
}
