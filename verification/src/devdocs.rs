//! DevDocs (https://devdocs.io): catalog entries, document indexes, and the
//! addresses they are fetched from.

use vstd::prelude::*;
use crate::store::Entry;
use crate::text::{decimal, from_chars, push_signed_decimal, push_str, signed_decimal};

verus! {

/// One documentation set of the DevDocs catalog.
#[derive(Debug, Clone)]
pub struct CatalogDoc {
    pub name: String,
    pub slug: String,
    pub version: String,
    pub release: String,
    pub mtime: i64,
    pub db_size: u64,
}

/// A documentation set's `index.json`: its named entries.
#[derive(Debug, Clone)]
pub struct DocIndex {
    pub entries: Vec<Entry>,
}

/// Where a page of a documentation set is shown on the web.
pub fn page_url(slug: &str, path: &str) -> (r: String)
    ensures
        r@ == "https://devdocs.io/"@ + slug@ + "/"@ + path@,
{
    let mut out: Vec<char> = Vec::new();
    push_str(&mut out, "https://devdocs.io/");
    push_str(&mut out, slug);
    push_str(&mut out, "/");
    push_str(&mut out, path);
    from_chars(&out)
}

/// `https://documents.devdocs.io/<slug>/<file>?<mtime>`: the mtime busts
/// caches when the set changes.
pub open spec fn document_url(slug: Seq<char>, file: Seq<char>, mtime: i64) -> Seq<char> {
    "https://documents.devdocs.io/"@ + slug + "/"@ + file + "?"@ + signed_decimal(mtime as int)
}

fn document_url_exec(doc: &CatalogDoc, file: &str) -> (r: String)
    ensures
        r@ == document_url(doc.slug@, file@, doc.mtime),
{
    let mut out: Vec<char> = Vec::new();
    push_str(&mut out, "https://documents.devdocs.io/");
    push_str(&mut out, doc.slug.as_str());
    push_str(&mut out, "/");
    push_str(&mut out, file);
    push_str(&mut out, "?");
    push_signed_decimal(&mut out, doc.mtime);
    from_chars(&out)
}

/// Where a documentation set's entry index is downloaded from.
pub fn index_url(doc: &CatalogDoc) -> (r: String)
    ensures
        r@ == document_url(doc.slug@, "index.json"@, doc.mtime),
{
    document_url_exec(doc, "index.json")
}

/// Where a documentation set's pages (path to HTML) are downloaded from.
pub fn db_url(doc: &CatalogDoc) -> (r: String)
    ensures
        r@ == document_url(doc.slug@, "db.json"@, doc.mtime),
{
    document_url_exec(doc, "db.json")
}

} // verus!
