//! What an import has learned of the disk so far, and what it asks for next.
//!
//! An import is a function of these facts: where one is missing it stops and
//! names it, and its caller looks it up and starts again.

use vstd::prelude::*;
use crate::manifest::{CargoImportError, CargoManifest, ImportFault};
use crate::model::{RegistryEdge, RegistryEdgeView};
use crate::strmap::StrMap;

verus! {

/// An entry of a directory.
#[derive(Debug)]
pub struct DirEntry {
    /// Its name.
    pub name: String,
    /// Whether it is a directory.
    pub is_dir: bool,
}

/// Facts about the disk, by path.
pub struct Disk {
    /// The canonical form of a path, or why there is none.
    pub canonical: StrMap<Result<String, String>>,
    /// The manifest in a directory, or why there is none.
    pub manifests: StrMap<Result<CargoManifest, CargoImportError>>,
    /// Whether a path is a file.
    pub files: StrMap<bool>,
    /// The entries of a directory, or why it cannot be read.
    pub listings: StrMap<Result<Vec<DirEntry>, String>>,
    /// By target triple, whether a `cfg(...)` expression holds there, or what
    /// is wrong with it.
    pub cfgs: StrMap<StrMap<Result<bool, String>>>,
}

/// A fact to look up.
#[derive(Debug)]
pub enum Query {
    /// The canonical form of a path.
    Canonical(String),
    /// The manifest in a directory.
    Manifest(String),
    /// Whether a path is a file.
    IsFile(String),
    /// The entries of a directory.
    List(String),
    /// Whether a `cfg(...)` expression holds on a target triple.
    Cfg { key: String, triple: String },
    /// What the lockfile has for a registry edge.
    Lock(RegistryEdge),
}

/// What a query holds.
pub enum QueryView {
    Canonical(Seq<char>),
    Manifest(Seq<char>),
    IsFile(Seq<char>),
    List(Seq<char>),
    Cfg { key: Seq<char>, triple: Seq<char> },
    Lock(RegistryEdgeView),
}

impl View for Query {
    type V = QueryView;

    open spec fn view(&self) -> QueryView {
        match *self {
            Query::Canonical(path) => QueryView::Canonical(path@),
            Query::Manifest(path) => QueryView::Manifest(path@),
            Query::IsFile(path) => QueryView::IsFile(path@),
            Query::List(path) => QueryView::List(path@),
            Query::Cfg { key, triple } => QueryView::Cfg { key: key@, triple: triple@ },
            Query::Lock(edge) => QueryView::Lock(edge@),
        }
    }
}

/// Why an import stopped.
#[derive(Debug)]
pub enum ImportStop {
    /// A fact is missing.
    Need(Query),
    /// The import failed.
    Failed(CargoImportError),
}

/// What a stop holds.
pub enum StopView {
    Need(QueryView),
    Failed(ImportFault),
}

impl View for ImportStop {
    type V = StopView;

    open spec fn view(&self) -> StopView {
        match *self {
            ImportStop::Need(query) => StopView::Need(query@),
            ImportStop::Failed(e) => StopView::Failed(e@),
        }
    }
}

/// What queries hold.
pub open spec fn queries_view(v: Seq<Query>) -> Seq<QueryView> {
    v.map_values(|q: Query| q@)
}

/// Appends a query.
pub fn push_query(out: &mut Vec<Query>, query: Query)
    ensures
        queries_view(final(out)@) == queries_view(old(out)@).push(query@),
{
    let ghost before = out@;
    out.push(query);
    assert(queries_view(out@) =~= queries_view(before).push(query@));
}

impl Disk {
    /// Nothing known yet.
    pub fn new() -> (r: Disk)
        ensures
            r.canonical@ == Map::<Seq<char>, Result<String, String>>::empty(),
            r.manifests@ == Map::<Seq<char>, Result<CargoManifest, CargoImportError>>::empty(),
            r.files@ == Map::<Seq<char>, bool>::empty(),
            r.listings@ == Map::<Seq<char>, Result<Vec<DirEntry>, String>>::empty(),
            r.cfgs@ == Map::<Seq<char>, StrMap<Result<bool, String>>>::empty(),
    {
        Disk {
            canonical: StrMap::new(),
            manifests: StrMap::new(),
            files: StrMap::new(),
            listings: StrMap::new(),
            cfgs: StrMap::new(),
        }
    }

    /// Whether a path is known to be a file.
    pub open spec fn has_file(self, path: Seq<char>) -> bool {
        self.files@.contains_key(path) && self.files@[path]
    }

    /// The known entries of a directory that can be read.
    pub open spec fn entries_of(self, path: Seq<char>) -> Seq<DirEntry> {
        if self.listings@.contains_key(path) && self.listings@[path] is Ok {
            self.listings@[path]->Ok_0@
        } else {
            Seq::empty()
        }
    }

    /// Whether a fact about files or directories is known.
    pub open spec fn knows(self, query: QueryView) -> bool {
        match query {
            QueryView::Canonical(path) => self.canonical@.contains_key(path),
            QueryView::Manifest(path) => self.manifests@.contains_key(path),
            QueryView::IsFile(path) => self.files@.contains_key(path),
            QueryView::List(path) => self.listings@.contains_key(path),
            QueryView::Cfg { key, triple } => self.cfgs@.contains_key(triple)
                && self.cfgs@[triple]@.contains_key(key),
            QueryView::Lock(_) => false,
        }
    }

    /// Whether a path is known to be a file.
    pub fn is_file(&self, path: &str) -> (r: bool)
        ensures
            r == self.has_file(path@),
    {
        match self.files.get(path) {
            Some(b) => *b,
            None => false,
        }
    }

    /// Whether a fact is known.
    pub fn is_known(&self, query: &Query) -> (r: bool)
        ensures
            r == self.knows(query@),
    {
        match query {
            Query::Canonical(path) => self.canonical.contains_key(path.as_str()),
            Query::Manifest(path) => self.manifests.contains_key(path.as_str()),
            Query::IsFile(path) => self.files.contains_key(path.as_str()),
            Query::List(path) => self.listings.contains_key(path.as_str()),
            Query::Cfg { key, triple } => match self.cfgs.get(triple.as_str()) {
                Some(keys) => keys.contains_key(key.as_str()),
                None => false,
            },
            Query::Lock(_) => false,
        }
    }
}

/// The first of these facts that is not known, from a position on.
pub open spec fn first_missing(disk: Disk, queries: Seq<QueryView>, from: int) -> Option<QueryView>
    decreases queries.len() - from,
{
    if from < 0 || from >= queries.len() {
        None
    } else if disk.knows(queries[from]) {
        first_missing(disk, queries, from + 1)
    } else {
        Some(queries[from])
    }
}

/// Takes the first of these facts that is not known.
pub fn take_missing(disk: &Disk, queries: Vec<Query>) -> (r: Option<Query>)
    ensures
        (match r {
            Some(q) => Some(q@),
            None => None,
        }) == first_missing(*disk, queries_view(queries@), 0),
{
    let ghost all = queries_view(queries@);
    let mut rest = queries;
    let n: usize = rest.len();
    let mut i: usize = 0;
    while i < n
        invariant
            i <= n,
            n == rest@.len(),
            rest@ == queries@,
            all == queries_view(queries@),
            first_missing(*disk, all, 0) == first_missing(*disk, all, i as int),
        decreases n - i,
    {
        assert(all[i as int] == rest@[i as int]@);
        if !disk.is_known(&rest[i]) {
            return Some(rest.swap_remove(i));
        }
        i += 1;
    }
    None
}

} // verus!
