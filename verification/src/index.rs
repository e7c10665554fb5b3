//! What goes into the full-text index for a docset, and how a search is
//! scoped.

use vstd::prelude::*;
use crate::snippets::{lowercase_str, str_lowercase};
use crate::text::{from_chars, is_ws, strs, to_chars, trim, trim_vec};

verus! {

/// Pseudo-docset that holds snippets. Doc searches skip it unless it's asked for.
pub const SNIPPETS_DOCSET: &'static str = "snippets";

/// What gets added to the index for one docset.
pub enum IndexDoc<'a> {
    /// A named symbol/page from the docset's own index.
    Entry { name: &'a str, entry_type: &'a str, path: &'a str },
    /// A heading-scoped slice of a page's markdown.
    Chunk { path: &'a str, title: &'a str, heading: &'a str, body: &'a str },
    /// A code snippet. Searchable by title, tags, and text.
    Snippet { id: &'a str, title: &'a str, language: &'a str, tags: &'a str, text: &'a str },
}

/// The fields of one indexed document; a field that is `None` is left out.
pub struct IndexRecord {
    pub docset: String,
    /// `entry`, `chunk`, or `snippet`.
    pub kind: String,
    pub name: Option<String>,
    /// The name lowercased, matched whole for exact-name hits.
    pub name_exact: Option<String>,
    pub entry_type: Option<String>,
    pub path: Option<String>,
    pub title: Option<String>,
    pub heading: Option<String>,
    pub body: Option<String>,
}

pub open spec fn opt_view(o: Option<String>) -> Option<Seq<char>> {
    match o {
        Some(s) => Some(s@),
        None => None,
    }
}

/// The fields each kind of document fills: entries by name, type and path;
/// chunks by path, title, heading and body; snippets with the title as name,
/// the language as type, the id as path, the tags as heading and the text as
/// body.
pub open spec fn record_fields(doc: IndexDoc) -> (Seq<char>, Option<Seq<char>>, Option<Seq<char>>, Option<Seq<char>>, Option<Seq<char>>, Option<Seq<char>>, Option<Seq<char>>, Option<Seq<char>>) {
    match doc {
        IndexDoc::Entry { name, entry_type, path } => (
            "entry"@,
            Some(name@),
            Some(str_lowercase(name@)),
            Some(entry_type@),
            Some(path@),
            None,
            None,
            None,
        ),
        IndexDoc::Chunk { path, title, heading, body } => (
            "chunk"@,
            None,
            None,
            None,
            Some(path@),
            Some(title@),
            Some(heading@),
            Some(body@),
        ),
        IndexDoc::Snippet { id, title, language, tags, text } => (
            "snippet"@,
            Some(title@),
            Some(str_lowercase(title@)),
            Some(language@),
            Some(id@),
            None,
            Some(tags@),
            Some(text@),
        ),
    }
}

fn owned(s: &str) -> (r: String)
    ensures
        r@ == s@,
{
    from_chars(&to_chars(s))
}

/// The record indexed for `doc` in `docset`.
pub fn index_record(docset: &str, doc: &IndexDoc) -> (r: IndexRecord)
    ensures
        r.docset@ == docset@,
        (r.kind@, opt_view(r.name), opt_view(r.name_exact), opt_view(r.entry_type), opt_view(
            r.path,
        ), opt_view(r.title), opt_view(r.heading), opt_view(r.body)) == record_fields(*doc),
{
    match doc {
        IndexDoc::Entry { name, entry_type, path } => IndexRecord {
            docset: owned(docset),
            kind: owned("entry"),
            name: Some(owned(name)),
            name_exact: Some(lowercase_str(name)),
            entry_type: Some(owned(entry_type)),
            path: Some(owned(path)),
            title: None,
            heading: None,
            body: None,
        },
        IndexDoc::Chunk { path, title, heading, body } => IndexRecord {
            docset: owned(docset),
            kind: owned("chunk"),
            name: None,
            name_exact: None,
            entry_type: None,
            path: Some(owned(path)),
            title: Some(owned(title)),
            heading: Some(owned(heading)),
            body: Some(owned(body)),
        },
        IndexDoc::Snippet { id, title, language, tags, text } => IndexRecord {
            docset: owned(docset),
            kind: owned("snippet"),
            name: Some(owned(title)),
            name_exact: Some(lowercase_str(title)),
            entry_type: Some(owned(language)),
            path: Some(owned(id)),
            title: None,
            heading: Some(owned(tags)),
            body: Some(owned(text)),
        },
    }
}

/// The docsets a search leaves out: those excluded, and the snippets
/// pseudo-docset unless the search names its docsets.
pub open spec fn search_exclusions_spec(docsets: Seq<Seq<char>>, exclude: Seq<Seq<char>>) -> Seq<
    Seq<char>,
> {
    if docsets.len() == 0 {
        exclude.push("snippets"@)
    } else {
        exclude
    }
}

pub fn search_exclusions(docsets: &Vec<String>, exclude: &Vec<String>) -> (r: Vec<String>)
    ensures
        strs(r@) == search_exclusions_spec(strs(docsets@), strs(exclude@)),
{
    let mut out: Vec<String> = Vec::new();
    let mut i: usize = 0;
    while i < exclude.len()
        invariant
            i <= exclude@.len(),
            strs(out@) == strs(exclude@).take(i as int),
        decreases exclude@.len() - i,
    {
        let s = owned(exclude[i].as_str());
        let ghost before = strs(out@);
        out.push(s);
        assert(strs(out@) == before.push(s@));
        assert(strs(exclude@).take(i + 1) == strs(exclude@).take(i as int).push(exclude@[i as int]@));
        i = i + 1;
    }
    assert(strs(exclude@).take(exclude@.len() as int) == strs(exclude@));
    if docsets.len() == 0 {
        let s = owned(SNIPPETS_DOCSET);
        let ghost before = strs(out@);
        out.push(s);
        assert(strs(out@) == before.push(s@));
    }
    out
}

/// A query without whitespace inside is a symbol being typed (`usest`,
/// `Vec::pu`): its last name term is also matched as a prefix.
pub fn is_symbol_query(query: &str) -> (r: bool)
    ensures
        r == !(exists|i: int| 0 <= i < trim(query@).len() && is_ws(#[trigger] trim(query@)[i])),
{
    let t = trim_vec(&to_chars(query));
    let mut i: usize = 0;
    while i < t.len()
        invariant
            i <= t@.len(),
            t@ == trim(query@),
            forall|j: int| 0 <= j < i ==> !is_ws(#[trigger] t@[j]),
        decreases t@.len() - i,
    {
        if crate::text::is_ws_char(t[i]) {
            return false;
        }
        i = i + 1;
    }
    true
}

/// The query as an exact name: trimmed and lowercased.
pub fn exact_query(query: &str) -> (r: String)
    ensures
        r@ == str_lowercase(trim(query@)),
{
    let t = from_chars(&trim_vec(&to_chars(query)));
    lowercase_str(t.as_str())
}

/// A search hit as the tools report it (the score stays with the index).
#[derive(Debug, Clone)]
pub struct HitView {
    pub docset: String,
    /// `entry`, `chunk`, or `snippet`.
    pub kind: String,
    pub name: String,
    pub entry_type: String,
    pub path: String,
    pub heading: String,
    pub snippet: String,
}

/// The field a query clause matches.
#[derive(Debug, Clone, Copy, PartialEq, Eq)]
pub enum SearchField {
    /// The whole lowercased name.
    NameExact,
    /// The tokenized name.
    Name,
    /// The heading trail.
    Heading,
    /// The body text.
    Body,
}

/// One optional clause of a search: a term in a field, weighted by `boost`;
/// `prefix` matches names that start with the term.
#[derive(Debug, Clone)]
pub struct Clause {
    pub field: SearchField,
    pub term: String,
    pub boost: u32,
    pub prefix: bool,
}

/// How a search runs: any of the clauses, within `docsets` (all when
/// empty), none of `exclude`.
#[derive(Debug, Clone)]
pub struct SearchPlan {
    pub should: Vec<Clause>,
    pub docsets: Vec<String>,
    pub exclude: Vec<String>,
}

pub open spec fn clause_view(c: Clause) -> (SearchField, Seq<char>, u32, bool) {
    (c.field, c.term@, c.boost, c.prefix)
}

pub open spec fn clause_views(v: Seq<Clause>) -> Seq<(SearchField, Seq<char>, u32, bool)> {
    v.map_values(|c: Clause| clause_view(c))
}

/// Name-term clauses: each term, and for a symbol query the last term again
/// as a prefix, weighted above body text.
pub open spec fn name_clauses(terms: Seq<Seq<char>>, n: int, symbol: bool) -> Seq<(SearchField, Seq<char>, u32, bool)>
    decreases terms.len(),
{
    if terms.len() == 0 {
        seq![]
    } else {
        let prev = name_clauses(terms.drop_last(), n, symbol);
        let t = terms.last();
        let with = prev.push((SearchField::Name, t, 4u32, false));
        if symbol && terms.len() == n {
            with.push((SearchField::Name, t, 30u32, true))
        } else {
            with
        }
    }
}

pub open spec fn term_clauses(terms: Seq<Seq<char>>, field: SearchField, boost: u32) -> Seq<(SearchField, Seq<char>, u32, bool)> {
    terms.map_values(|t: Seq<char>| (field, t, boost, false))
}

/// Exact-name matches win, then name terms (with the last term as a prefix
/// for type-ahead), then headings, then body text.
pub open spec fn plan_clauses(
    query: Seq<char>,
    name_terms: Seq<Seq<char>>,
    heading_terms: Seq<Seq<char>>,
    body_terms: Seq<Seq<char>>,
) -> Seq<(SearchField, Seq<char>, u32, bool)> {
    let exact = str_lowercase(trim(query));
    let symbol = !(exists|i: int| 0 <= i < trim(query).len() && is_ws(#[trigger] trim(query)[i]));
    let first: Seq<(SearchField, Seq<char>, u32, bool)> = if exact.len() > 0 {
        seq![(SearchField::NameExact, exact, 10u32, false)]
    } else {
        seq![]
    };
    first + name_clauses(name_terms, name_terms.len() as int, symbol) + term_clauses(
        heading_terms,
        SearchField::Heading,
        2,
    ) + term_clauses(body_terms, SearchField::Body, 1)
}

proof fn lemma_name_clauses_prefix(terms: Seq<Seq<char>>, n: int, symbol: bool)
    ensures
        forall|k: int|
            0 <= k < name_clauses(terms, n, symbol).len() && (#[trigger] name_clauses(
                terms,
                n,
                symbol,
            )[k]).3 ==> symbol && 1 <= n <= terms.len() && name_clauses(terms, n, symbol)[k].0
                == SearchField::Name && name_clauses(terms, n, symbol)[k].1 == terms[n - 1]
                && name_clauses(terms, n, symbol)[k].2 == 30,
        forall|k1: int, k2: int|
            0 <= k1 < name_clauses(terms, n, symbol).len() && 0 <= k2 < name_clauses(
                terms,
                n,
                symbol,
            ).len() && (#[trigger] name_clauses(terms, n, symbol)[k1]).3 && (
            #[trigger] name_clauses(terms, n, symbol)[k2]).3 ==> k1 == k2,
        symbol && 1 <= n <= terms.len() ==> exists|k: int|
            0 <= k < name_clauses(terms, n, symbol).len() && (#[trigger] name_clauses(
                terms,
                n,
                symbol,
            )[k]).3,
    decreases terms.len(),
{
    if terms.len() > 0 {
        let prev = name_clauses(terms.drop_last(), n, symbol);
        lemma_name_clauses_prefix(terms.drop_last(), n, symbol);
        let nc = name_clauses(terms, n, symbol);
        assert forall|k: int| 0 <= k < prev.len() implies #[trigger] nc[k] == prev[k] by {}
        assert forall|k: int| 0 <= k < nc.len() && (#[trigger] nc[k]).3 implies symbol && 1 <= n
            <= terms.len() && nc[k].0 == SearchField::Name && nc[k].1 == terms[n - 1] && nc[k].2
            == 30 by {
            if k < prev.len() {
                assert(nc[k] == prev[k]);
                assert(terms.drop_last()[n - 1] == terms[n - 1]);
            }
        }
        if symbol && 1 <= n <= terms.len() {
            if n == terms.len() {
                assert(nc[nc.len() - 1].3);
            } else {
                let k = choose|k: int| 0 <= k < prev.len() && (#[trigger] prev[k]).3;
                assert(nc[k] == prev[k]);
            }
        }
    }
}

/// A search plan holds a prefix clause (for type-ahead) exactly when the
/// query has no inner whitespace and there are name terms; then it holds
/// exactly one, weighted 30, and its term is the last name term. No other
/// clause is a prefix clause.
pub proof fn lemma_one_prefix_clause(
    query: Seq<char>,
    name_terms: Seq<Seq<char>>,
    heading_terms: Seq<Seq<char>>,
    body_terms: Seq<Seq<char>>,
)
    ensures
        ({
            let cs = plan_clauses(query, name_terms, heading_terms, body_terms);
            let symbol = !(exists|i: int|
                0 <= i < trim(query).len() && is_ws(#[trigger] trim(query)[i]));
            &&& forall|k: int|
                0 <= k < cs.len() && (#[trigger] cs[k]).3 ==> cs[k].0 == SearchField::Name
                    && cs[k].1 == name_terms.last() && cs[k].2 == 30
            &&& forall|k1: int, k2: int|
                0 <= k1 < cs.len() && 0 <= k2 < cs.len() && (#[trigger] cs[k1]).3 && (
                #[trigger] cs[k2]).3 ==> k1 == k2
            &&& (exists|k: int| 0 <= k < cs.len() && (#[trigger] cs[k]).3) <==> (symbol
                && name_terms.len() > 0)
        }),
{
    let cs = plan_clauses(query, name_terms, heading_terms, body_terms);
    let exact = str_lowercase(trim(query));
    let symbol = !(exists|i: int| 0 <= i < trim(query).len() && is_ws(#[trigger] trim(query)[i]));
    let first: Seq<(SearchField, Seq<char>, u32, bool)> = if exact.len() > 0 {
        seq![(SearchField::NameExact, exact, 10u32, false)]
    } else {
        seq![]
    };
    let n = name_terms.len() as int;
    let nc = name_clauses(name_terms, n, symbol);
    let h = term_clauses(heading_terms, SearchField::Heading, 2);
    let b = term_clauses(body_terms, SearchField::Body, 1);
    assert(cs == first + nc + h + b);
    lemma_name_clauses_prefix(name_terms, n, symbol);
    let f = first.len();
    assert forall|k: int| 0 <= k < cs.len() && (#[trigger] cs[k]).3 implies f <= k < f + nc.len()
        && cs[k] == nc[k - f] by {
        if k < f {
            assert(cs[k] == first[k]);
        } else if k < f + nc.len() {
            assert(cs[k] == nc[k - f]);
        } else if k < f + nc.len() + h.len() {
            assert(cs[k] == h[k - f - nc.len()]);
        } else {
            assert(cs[k] == b[k - f - nc.len() - h.len()]);
        }
    }
    if symbol && n > 0 {
        let k = choose|k: int| 0 <= k < nc.len() && (#[trigger] nc[k]).3;
        assert(cs[k + f] == nc[k]);
    }
}

proof fn lemma_name_clauses_terms(terms: Seq<Seq<char>>, n: int, symbol: bool)
    ensures
        name_clauses(terms, n, symbol).filter(
            |c: (SearchField, Seq<char>, u32, bool)| c.0 == SearchField::Name && !c.3,
        ) == terms.map_values(|t: Seq<char>| (SearchField::Name, t, 4u32, false)),
    decreases terms.len(),
{
    let p = |c: (SearchField, Seq<char>, u32, bool)| c.0 == SearchField::Name && !c.3;
    if terms.len() > 0 {
        lemma_name_clauses_terms(terms.drop_last(), n, symbol);
        let prev = name_clauses(terms.drop_last(), n, symbol);
        let t = terms.last();
        let with = prev.push((SearchField::Name, t, 4u32, false));
        prev.lemma_filter_push((SearchField::Name, t, 4u32, false), p);
        with.lemma_filter_push((SearchField::Name, t, 30u32, true), p);
        assert(terms.map_values(|t: Seq<char>| (SearchField::Name, t, 4u32, false))
            =~= terms.drop_last().map_values(|t: Seq<char>| (SearchField::Name, t, 4u32, false)).push(
            (SearchField::Name, t, 4u32, false),
        ));
    } else {
        reveal(Seq::filter);
        assert(terms.map_values(|t: Seq<char>| (SearchField::Name, t, 4u32, false)) =~= seq![]);
    }
}

proof fn lemma_no_name_filter(terms: Seq<Seq<char>>, field: SearchField, boost: u32)
    requires
        field != SearchField::Name,
    ensures
        term_clauses(terms, field, boost).filter(
            |c: (SearchField, Seq<char>, u32, bool)| c.0 == SearchField::Name && !c.3,
        ) == Seq::<(SearchField, Seq<char>, u32, bool)>::empty(),
    decreases terms.len(),
{
    let p = |c: (SearchField, Seq<char>, u32, bool)| c.0 == SearchField::Name && !c.3;
    reveal(Seq::filter);
    if terms.len() > 0 {
        lemma_no_name_filter(terms.drop_last(), field, boost);
        let tc = term_clauses(terms, field, boost);
        assert(tc.drop_last() =~= term_clauses(terms.drop_last(), field, boost));
    }
}

/// Every name term is looked for in the name field, weighted 4, once and in
/// order; apart from the one prefix clause, no other clause of the plan is
/// on the name field.
pub proof fn lemma_name_terms_in_plan(
    query: Seq<char>,
    name_terms: Seq<Seq<char>>,
    heading_terms: Seq<Seq<char>>,
    body_terms: Seq<Seq<char>>,
)
    ensures
        plan_clauses(query, name_terms, heading_terms, body_terms).filter(
            |c: (SearchField, Seq<char>, u32, bool)| c.0 == SearchField::Name && !c.3,
        ) == name_terms.map_values(|t: Seq<char>| (SearchField::Name, t, 4u32, false)),
{
    let p = |c: (SearchField, Seq<char>, u32, bool)| c.0 == SearchField::Name && !c.3;
    let exact = str_lowercase(trim(query));
    let symbol = !(exists|i: int| 0 <= i < trim(query).len() && is_ws(#[trigger] trim(query)[i]));
    let first: Seq<(SearchField, Seq<char>, u32, bool)> = if exact.len() > 0 {
        seq![(SearchField::NameExact, exact, 10u32, false)]
    } else {
        seq![]
    };
    let n = name_terms.len() as int;
    let nc = name_clauses(name_terms, n, symbol);
    let h = term_clauses(heading_terms, SearchField::Heading, 2);
    let b = term_clauses(body_terms, SearchField::Body, 1);
    assert(plan_clauses(query, name_terms, heading_terms, body_terms) == first + nc + h + b);
    Seq::filter_distributes_over_add(first + nc + h, b, p);
    Seq::filter_distributes_over_add(first + nc, h, p);
    Seq::filter_distributes_over_add(first, nc, p);
    lemma_name_clauses_terms(name_terms, n, symbol);
    lemma_no_name_filter(heading_terms, SearchField::Heading, 2);
    lemma_no_name_filter(body_terms, SearchField::Body, 1);
    assert(first.filter(p) =~= seq![]) by {
        reveal(Seq::filter);
        if exact.len() > 0 {
            let e: Seq<(SearchField, Seq<char>, u32, bool)> = seq![];
            assert(first =~= e.push((SearchField::NameExact, exact, 10u32, false)));
            e.lemma_filter_push((SearchField::NameExact, exact, 10u32, false), p);
        }
    }
    assert(first.filter(p) + nc.filter(p) + h.filter(p) + b.filter(p) =~= nc.filter(p));
}

fn push_terms(out: &mut Vec<Clause>, terms: &Vec<String>, field: SearchField, boost: u32)
    ensures
        clause_views(final(out)@) == clause_views(old(out)@) + term_clauses(strs(terms@), field, boost),
{
    let ghost start = clause_views(out@);
    let mut i: usize = 0;
    while i < terms.len()
        invariant
            i <= terms@.len(),
            clause_views(out@) == start + term_clauses(strs(terms@).take(i as int), field, boost),
        decreases terms@.len() - i,
    {
        let c = Clause { field, term: owned(terms[i].as_str()), boost, prefix: false };
        let ghost before = clause_views(out@);
        out.push(c);
        assert(clause_views(out@) == before.push(clause_view(c)));
        assert(term_clauses(strs(terms@).take(i + 1), field, boost) == term_clauses(
            strs(terms@).take(i as int),
            field,
            boost,
        ).push((field, terms@[i as int]@, boost, false)));
        i = i + 1;
    }
    assert(strs(terms@).take(terms@.len() as int) == strs(terms@));
}

/// The plan of a search for `query`, whose terms the index's tokenizers
/// gave for the name, heading and body fields; `None` when there is nothing
/// to look for.
pub fn search_plan(
    query: &str,
    name_terms: &Vec<String>,
    heading_terms: &Vec<String>,
    body_terms: &Vec<String>,
    docsets: &Vec<String>,
    exclude: &Vec<String>,
) -> (r: Option<SearchPlan>)
    ensures
        ({
            let cs = plan_clauses(query@, strs(name_terms@), strs(heading_terms@), strs(body_terms@));
            match r {
                Some(p) => cs.len() > 0 && clause_views(p.should@) == cs && strs(p.docsets@) == strs(
                    docsets@,
                ) && strs(p.exclude@) == search_exclusions_spec(strs(docsets@), strs(exclude@)),
                None => cs.len() == 0,
            }
        }),
{
    let mut should: Vec<Clause> = Vec::new();
    let exact = exact_query(query);
    if to_chars(exact.as_str()).len() > 0 {
        should.push(Clause { field: SearchField::NameExact, term: exact, boost: 10, prefix: false });
    }
    let ghost head = clause_views(should@);
    let symbol = is_symbol_query(query);
    let n = name_terms.len();
    let mut i: usize = 0;
    while i < n
        invariant
            i <= n == name_terms@.len(),
            clause_views(should@) == head + name_clauses(strs(name_terms@).take(i as int), n as int, symbol),
        decreases n - i,
    {
        assert(strs(name_terms@).take(i + 1).drop_last() == strs(name_terms@).take(i as int));
        assert(strs(name_terms@).take(i + 1).last() == name_terms@[i as int]@);
        let c = Clause { field: SearchField::Name, term: owned(name_terms[i].as_str()), boost: 4, prefix: false };
        let ghost before = clause_views(should@);
        should.push(c);
        assert(clause_views(should@) == before.push(clause_view(c)));
        if symbol && i + 1 == n {
            let p = Clause { field: SearchField::Name, term: owned(name_terms[i].as_str()), boost: 30, prefix: true };
            let ghost before2 = clause_views(should@);
            should.push(p);
            assert(clause_views(should@) == before2.push(clause_view(p)));
        }
        i = i + 1;
    }
    assert(strs(name_terms@).take(n as int) == strs(name_terms@));
    push_terms(&mut should, heading_terms, SearchField::Heading, 2);
    push_terms(&mut should, body_terms, SearchField::Body, 1);
    assert(clause_views(should@) == plan_clauses(
        query@,
        strs(name_terms@),
        strs(heading_terms@),
        strs(body_terms@),
    ));
    if should.len() == 0 {
        assert(clause_views(should@).len() == 0);
        return None;
    }
    let mut ds: Vec<String> = Vec::new();
    let mut k: usize = 0;
    while k < docsets.len()
        invariant
            k <= docsets@.len(),
            strs(ds@) == strs(docsets@).take(k as int),
        decreases docsets@.len() - k,
    {
        let s = owned(docsets[k].as_str());
        let ghost before = strs(ds@);
        ds.push(s);
        assert(strs(ds@) == before.push(s@));
        assert(strs(docsets@).take(k + 1) == strs(docsets@).take(k as int).push(docsets@[k as int]@));
        k = k + 1;
    }
    assert(strs(docsets@).take(docsets@.len() as int) == strs(docsets@));
    Some(SearchPlan { should, docsets: ds, exclude: search_exclusions(docsets, exclude) })
}

/// A hit from an indexed document's stored fields: chunks are named by
/// their page's title and carry the matching text; entries and snippets
/// by their name, without text.
pub fn make_hit(
    docset: String,
    kind: String,
    name: String,
    title: String,
    entry_type: String,
    path: String,
    heading: String,
    fragment: String,
) -> (r: HitView)
    ensures
        r.docset == docset,
        r.kind == kind,
        r.name == if kind@ == "chunk"@ {
            title
        } else {
            name
        },
        r.entry_type == entry_type,
        r.path == path,
        r.heading == heading,
        r.snippet@ == if kind@ == "chunk"@ {
            fragment@
        } else {
            Seq::<char>::empty()
        },
{
    let chunk = crate::text::eq_str(to_chars(kind.as_str()).as_slice(), "chunk");
    HitView {
        docset,
        name: if chunk {
            title
        } else {
            name
        },
        kind,
        entry_type,
        path,
        heading,
        snippet: if chunk {
            fragment
        } else {
            from_chars(&Vec::new())
        },
    }
}

} // verus!
