//! The rules of the local content-addressed store.
//!
//! ```text
//! <root>/
//!   blobs/<hex[0..2]>/<hex[2..]>   file contents
//!   trees/<hex[0..2]>/<hex[2..]>   canonical tree encodings
//!   tmp/                           in-progress writes
//! ```
//!
//! Identity comes exclusively from digests. What the store holds is looked up
//! by the caller: each function works on the facts that are known, and names the
//! one that it lacks.

use vstd::prelude::*;
use vstd::seq_lib::seq_to_set_is_finite;
use vstd::string::*;
use crate::digest::{
    digest_hex, digest_of, digests_round_trip, lemma_digests_distinct, Digest, DigestMap,
    DigestSet,
};
use crate::paths::{joined, path_join};
use crate::strmap::{
    ascending, ascending_of, lemma_ascending_of, lemma_ascending_unique, lt, StrMap, StrSet,
};
use crate::text::{cat, cat4, owned, push_text, same, slice, texts, to_chars};
use crate::tokens::{push_token, tokens_view, Token, TokenView};

verus! {

/// An entry of a tree.
#[derive(Debug)]
pub enum TreeEntry {
    /// A file.
    File {
        /// Its contents.
        digest: Digest,
        /// Whether it is executable.
        executable: bool,
    },
    /// A directory, by the digest of its tree.
    Directory(Digest),
    /// A symbolic link.
    Symlink {
        /// What it points to.
        target: String,
    },
}

/// What an entry is.
pub enum EntryView {
    File { digest: Digest, executable: bool },
    Directory(Digest),
    Symlink { target: Seq<char> },
}

impl View for TreeEntry {
    type V = EntryView;

    open spec fn view(&self) -> EntryView {
        match *self {
            TreeEntry::File { digest, executable } => EntryView::File { digest, executable },
            TreeEntry::Directory(d) => EntryView::Directory(d),
            TreeEntry::Symlink { target } => EntryView::Symlink { target: target@ },
        }
    }
}

/// What a tree is: its entries by name.
pub open spec fn tree_view(t: StrMap<TreeEntry>) -> Map<Seq<char>, EntryView> {
    Map::new(|k: Seq<char>| t@.contains_key(k), |k: Seq<char>| t@[k]@)
}

pub(crate) fn copy_entry(e: &TreeEntry) -> (r: TreeEntry)
    ensures
        r@ == e@,
{
    match e {
        TreeEntry::File { digest, executable } => TreeEntry::File {
            digest: *digest,
            executable: *executable,
        },
        TreeEntry::Directory(d) => TreeEntry::Directory(*d),
        TreeEntry::Symlink { target } => TreeEntry::Symlink { target: target.clone() },
    }
}

pub(crate) fn same_entry(a: &TreeEntry, b: &TreeEntry) -> (r: bool)
    ensures
        r == (a@ == b@),
{
    match (a, b) {
        (
            TreeEntry::File { digest: d, executable: x },
            TreeEntry::File { digest: e, executable: y },
        ) => *d == *e && *x == *y,
        (TreeEntry::Directory(d), TreeEntry::Directory(e)) => *d == *e,
        (TreeEntry::Symlink { target: s }, TreeEntry::Symlink { target: t }) => same(s, t),
        _ => false,
    }
}

pub(crate) fn copy_tree(t: &StrMap<TreeEntry>) -> (r: StrMap<TreeEntry>)
    ensures
        tree_view(r) == tree_view(*t),
{
    let mut out: StrMap<TreeEntry> = StrMap::new();
    let n = t.len();
    let mut i: usize = 0;
    while i < n
        invariant
            i <= n,
            n == t.keys().len(),
            ascending(t.keys()),
            forall|k: Seq<char>| #[trigger] t@.contains_key(k) <==> t.keys().contains(k),
            forall|k: Seq<char>| #[trigger]
                out@.contains_key(k) <==> t.keys().take(i as int).contains(k),
            forall|k: Seq<char>| #[trigger]
                out@.contains_key(k) ==> t@.contains_key(k) && out@[k]@ == t@[k]@,
        decreases n - i,
    {
        let ghost before = out@;
        let key = t.key(i);
        let e = copy_entry(t.value(i));
        out.insert(key.clone(), e);
        proof {
            let b = t.keys().take(i as int);
            let c = t.keys().take(i as int + 1);
            assert(c =~= b.push(key@));
            assert forall|k: Seq<char>| #[trigger] out@.contains_key(k) <==> c.contains(k) by {
                if b.contains(k) {
                    let j = choose|j: int| 0 <= j < b.len() && b[j] == k;
                    assert(c[j] == k);
                }
                if c.contains(k) {
                    let j = choose|j: int| 0 <= j < c.len() && c[j] == k;
                    if j < i {
                        assert(b[j] == k);
                    }
                }
                assert(c[i as int] == key@);
                assert(before.contains_key(k) <==> b.contains(k));
            }
        }
        i += 1;
    }
    assert(t.keys().take(n as int) =~= t.keys());
    assert(tree_view(out) =~= tree_view(*t));
    out
}

pub(crate) fn same_tree(a: &StrMap<TreeEntry>, b: &StrMap<TreeEntry>) -> (r: bool)
    ensures
        r == (tree_view(*a) == tree_view(*b)),
{
    let n = a.len();
    let m = b.len();
    let ghost x = tree_view(*a);
    let ghost y = tree_view(*b);
    let mut i: usize = 0;
    while i < n
        invariant
            i <= n,
            n == a.keys().len(),
            x == tree_view(*a),
            y == tree_view(*b),
            forall|k: Seq<char>| #[trigger] a@.contains_key(k) <==> a.keys().contains(k),
            forall|j: int|
                0 <= j < i ==> y.contains_key(#[trigger] a.keys()[j]) && x[a.keys()[j]]
                    == y[a.keys()[j]],
        decreases n - i,
    {
        let key = a.key(i);
        assert(a.keys()[i as int] == key@);
        assert(a.keys().contains(key@));
        assert(x.contains_key(key@));
        let e = a.value(i);
        match b.get(key) {
            None => {
                assert(!y.contains_key(key@));
                return false;
            },
            Some(f) => {
                if !same_entry(e, f) {
                    assert(x[key@] != y[key@]);
                    return false;
                }
            },
        }
        i += 1;
    }
    let mut k: usize = 0;
    while k < m
        invariant
            k <= m,
            m == b.keys().len(),
            x == tree_view(*a),
            y == tree_view(*b),
            forall|z: Seq<char>| #[trigger] b@.contains_key(z) <==> b.keys().contains(z),
            forall|j: int| 0 <= j < k ==> x.contains_key(#[trigger] b.keys()[j]),
        decreases m - k,
    {
        let key = b.key(k);
        assert(b.keys()[k as int] == key@);
        assert(b.keys().contains(key@));
        assert(y.contains_key(key@));
        if !a.contains_key(key) {
            assert(!x.contains_key(key@));
            return false;
        }
        k += 1;
    }
    proof {
        assert forall|z: Seq<char>| x.contains_key(z) <==> y.contains_key(z) by {
            if x.contains_key(z) {
                assert(a.keys().contains(z));
                let j = choose|j: int| 0 <= j < a.keys().len() && a.keys()[j] == z;
                assert(y.contains_key(a.keys()[j]));
            }
            if y.contains_key(z) {
                assert(b.keys().contains(z));
                let j = choose|j: int| 0 <= j < b.keys().len() && b.keys()[j] == z;
                assert(x.contains_key(b.keys()[j]));
            }
        }
        assert forall|z: Seq<char>| x.contains_key(z) implies x[z] == y[z] by {
            assert(a.keys().contains(z));
            let j = choose|j: int| 0 <= j < a.keys().len() && a.keys()[j] == z;
            assert(x[a.keys()[j]] == y[a.keys()[j]]);
        }
        assert(x =~= y);
    }
    true
}

// ---- What is known of the store ----------------------------------------------------------

/// What is known of a store.
pub struct StoreFacts {
    /// The trees that were read, `None` where the store has none.
    pub trees: DigestMap<Option<StrMap<TreeEntry>>>,
    /// Which blobs are present.
    pub blobs: DigestMap<bool>,
    /// The trees that were stored, with their digests.
    pub stored: Vec<(StrMap<TreeEntry>, Digest)>,
}

/// A tree: its entries by name.
pub type Entries = Map<Seq<char>, EntryView>;

/// What the facts of a store are.
pub struct FactsView {
    pub trees: Map<Digest, Option<Entries>>,
    pub blobs: Map<Digest, bool>,
    pub stored: Seq<(Entries, Digest)>,
}

/// What a tree that there may be is.
pub open spec fn tree_opt(t: Option<StrMap<TreeEntry>>) -> Option<Entries> {
    match t {
        Some(m) => Some(tree_view(m)),
        None => None,
    }
}

impl View for StoreFacts {
    type V = FactsView;

    open spec fn view(&self) -> FactsView {
        FactsView {
            trees: Map::new(
                |d: Digest| self.trees@.contains_key(d),
                |d: Digest| tree_opt(self.trees@[d]),
            ),
            blobs: self.blobs@,
            stored: self.stored@.map_values(
                |p: (StrMap<TreeEntry>, Digest)| (tree_view(p.0), p.1),
            ),
        }
    }
}

impl StoreFacts {
    /// No facts.
    pub fn new() -> (r: StoreFacts)
        ensures
            r@.trees == Map::<Digest, Option<Entries>>::empty(),
            r@.blobs == Map::<Digest, bool>::empty(),
            r@.stored == Seq::<(Entries, Digest)>::empty(),
    {
        let r = StoreFacts { trees: DigestMap::new(), blobs: DigestMap::new(), stored: Vec::new() };
        assert(r@.trees =~= Map::<Digest, Option<Entries>>::empty());
        assert(r@.stored =~= Seq::<(Entries, Digest)>::empty());
        r
    }
}

// ---- Closures ----------------------------------------------------------------------------

/// Why the closure of a tree cannot be told.
#[derive(Clone, Copy, Debug, PartialEq, Eq, Structural)]
pub enum ClosureStop {
    /// It is not known whether the store has a tree, and which.
    NeedTree(Digest),
    /// It is not known whether the store has a blob.
    NeedBlob(Digest),
    /// A tree contains itself.
    Cycle(Digest),
}

/// The text of a cycle's error.
pub open spec fn cycle_text(d: Digest) -> Seq<char> {
    "tree closure contains a cycle at "@ + digest_hex(d)
}

/// Describes a cycle.
pub fn cycle_message(d: &Digest) -> (r: String)
    ensures
        r@ == cycle_text(*d),
{
    cat("tree closure contains a cycle at ", &d.to_hex())
}

/// Whether the closure of a tree is present, looking at entries in the order of
/// their names, below the trees that are being visited.
pub open spec fn closure(f: FactsView, d: Digest, visiting: Seq<Digest>, fuel: nat) -> Result<
    bool,
    ClosureStop,
>
    decreases fuel, 1nat, 0nat,
{
    if visiting.contains(d) {
        Err(ClosureStop::Cycle(d))
    } else if !f.trees.contains_key(d) {
        Err(ClosureStop::NeedTree(d))
    } else {
        match f.trees[d] {
            None => Ok(false),
            Some(t) => {
                let names = ascending_of(t.dom());
                entries_present(f, t, names, names.len() as nat, visiting.push(d), fuel)
            },
        }
    }
}

/// Whether the closures of a tree's first `n` entries are present.
pub open spec fn entries_present(
    f: FactsView,
    t: Entries,
    names: Seq<Seq<char>>,
    n: nat,
    visiting: Seq<Digest>,
    fuel: nat,
) -> Result<bool, ClosureStop>
    decreases fuel, 0nat, n,
{
    if n == 0 {
        Ok(true)
    } else {
        match entries_present(f, t, names, (n - 1) as nat, visiting, fuel) {
            Ok(true) => match t[names[n - 1]] {
                EntryView::File { digest, executable } => if f.blobs.contains_key(digest) {
                    Ok(f.blobs[digest])
                } else {
                    Err(ClosureStop::NeedBlob(digest))
                },
                EntryView::Directory(sub) => if fuel == 0 {
                    Err(ClosureStop::Cycle(sub))
                } else {
                    closure(f, sub, visiting, (fuel - 1) as nat)
                },
                EntryView::Symlink { target } => Ok(true),
            },
            other => other,
        }
    }
}

/// Whether a tree's closure is present, within `n` levels.
pub open spec fn complete_in(f: FactsView, d: Digest, n: nat) -> bool
    decreases n, 0nat,
{
    &&& n > 0
    &&& f.trees.contains_key(d)
    &&& f.trees[d] is Some
    &&& forall|name: Seq<char>| #[trigger]
        f.trees[d]->0.contains_key(name) ==> entry_complete(f, f.trees[d]->0[name], (n - 1) as nat)
}

/// Whether an entry's closure is present, within `n` levels.
pub open spec fn entry_complete(f: FactsView, e: EntryView, n: nat) -> bool
    decreases n, 1nat,
{
    match e {
        EntryView::File { digest, executable } => f.blobs.contains_key(digest) && f.blobs[digest],
        EntryView::Directory(sub) => complete_in(f, sub, n),
        EntryView::Symlink { target } => true,
    }
}

/// Whether a tree and its complete transitive closure of blobs and subtrees are
/// present.
pub open spec fn complete(f: FactsView, d: Digest) -> bool {
    exists|n: nat| complete_in(f, d, n)
}

/// Whether a tree has another as a subdirectory.
pub open spec fn edge(f: FactsView, d: Digest, sub: Digest) -> bool {
    &&& f.trees.contains_key(d)
    &&& f.trees[d] is Some
    &&& exists|name: Seq<char>| #[trigger]
        f.trees[d]->0.contains_key(name) && f.trees[d]->0[name] == EntryView::Directory(sub)
}

/// Whether each tree has the next as a subdirectory.
pub open spec fn chain(f: FactsView, c: Seq<Digest>) -> bool {
    forall|i: int| 0 <= i < c.len() - 1 ==> edge(f, #[trigger] c[i], c[i + 1])
}

proof fn lemma_edge_complete(f: FactsView, d: Digest, sub: Digest, n: nat)
    requires
        complete_in(f, d, n),
        edge(f, d, sub),
    ensures
        n > 0,
        complete_in(f, sub, (n - 1) as nat),
{
    let name = choose|name: Seq<char>| #[trigger]
        f.trees[d]->0.contains_key(name) && f.trees[d]->0[name] == EntryView::Directory(sub);
    assert(entry_complete(f, f.trees[d]->0[name], (n - 1) as nat));
}

proof fn lemma_chain_complete(f: FactsView, c: Seq<Digest>, n: nat, k: int)
    requires
        c.len() > 0,
        chain(f, c),
        complete_in(f, c[0], n),
        0 <= k < c.len(),
    ensures
        k < n,
        complete_in(f, c[k], (n - k) as nat),
    decreases k,
{
    if k > 0 {
        lemma_chain_complete(f, c, n, k - 1);
        assert(edge(f, c[k - 1], c[k - 1 + 1]));
        lemma_edge_complete(f, c[k - 1], c[k], (n - (k - 1)) as nat);
    }
}

proof fn lemma_complete_acyclic(f: FactsView, c: Seq<Digest>, n: nat)
    requires
        c.len() > 1,
        chain(f, c),
        complete_in(f, c[0], n),
    ensures
        c[0] != c.last(),
    decreases n,
{
    let k = c.len() - 1;
    lemma_chain_complete(f, c, n, k);
    if c[0] == c.last() {
        lemma_complete_acyclic(f, c, (n - k) as nat);
    }
}

/// The trees that are being visited: each is known and has the next as a
/// subdirectory, and none stands there twice.
pub open spec fn visited_path(f: FactsView, visiting: Seq<Digest>) -> bool {
    &&& visiting.no_duplicates()
    &&& chain(f, visiting)
    &&& forall|i: int| 0 <= i < visiting.len() ==> f.trees.contains_key(#[trigger] visiting[i])
}

proof fn lemma_visited_len(f: FactsView, visiting: Seq<Digest>)
    requires
        visited_path(f, visiting),
        f.trees.dom().finite(),
    ensures
        visiting.len() <= f.trees.dom().len(),
{
    visiting.unique_seq_to_set();
    assert(visiting.to_set().subset_of(f.trees.dom()));
    vstd::set_lib::lemma_len_subset(visiting.to_set(), f.trees.dom());
}

proof fn lemma_path_push(f: FactsView, visiting: Seq<Digest>, d: Digest)
    requires
        visited_path(f, visiting),
        visiting.len() > 0 ==> edge(f, visiting.last(), d),
        !visiting.contains(d),
        f.trees.contains_key(d),
        f.trees.dom().finite(),
    ensures
        visited_path(f, visiting.push(d)),
        visiting.len() < f.trees.dom().len(),
{
    let v = visiting.push(d);
    assert forall|i: int| 0 <= i < v.len() - 1 implies edge(f, #[trigger] v[i], v[i + 1]) by {
        if i == visiting.len() - 1 {
            assert(v[i] == visiting.last());
        } else {
            assert(edge(f, visiting[i], visiting[i + 1]));
        }
    }
    lemma_visited_len(f, v);
}

/// A complete tree is found complete from every path that leads to it.
proof fn lemma_complete_found(f: FactsView, d: Digest, visiting: Seq<Digest>, n: nat)
    requires
        complete_in(f, d, n),
        visited_path(f, visiting),
        visiting.len() > 0 ==> edge(f, visiting.last(), d),
        f.trees.dom().finite(),
        finite_trees(f),
    ensures
        visiting.len() <= f.trees.dom().len(),
        closure(f, d, visiting, (f.trees.dom().len() - visiting.len()) as nat) == Ok::<
            bool,
            ClosureStop,
        >(true),
    decreases n, 1nat, 0nat,
{
    lemma_visited_len(f, visiting);
    if visiting.contains(d) {
        let i = choose|i: int| 0 <= i < visiting.len() && visiting[i] == d;
        let c = visiting.skip(i).push(d);
        assert forall|k: int| 0 <= k < c.len() - 1 implies edge(f, #[trigger] c[k], c[k + 1]) by {
            if k == visiting.len() - 1 - i {
                assert(c[k] == visiting.last());
            } else {
                assert(edge(f, visiting[i + k], visiting[i + k + 1]));
            }
        }
        assert(c[0] == d);
        lemma_complete_acyclic(f, c, n);
    }
    lemma_path_push(f, visiting, d);
    let t = f.trees[d]->0;
    lemma_ascending_of(t.dom());
    let names = ascending_of(t.dom());
    lemma_entries_found(f, d, names, names.len() as nat, visiting.push(d), n);
}

proof fn lemma_entries_found(
    f: FactsView,
    d: Digest,
    names: Seq<Seq<char>>,
    k: nat,
    visiting: Seq<Digest>,
    n: nat,
)
    requires
        complete_in(f, d, n),
        visited_path(f, visiting),
        visiting.len() > 0,
        visiting.last() == d,
        f.trees.dom().finite(),
        finite_trees(f),
        k <= names.len(),
        forall|i: int| 0 <= i < names.len() ==> f.trees[d]->0.contains_key(#[trigger] names[i]),
    ensures
        visiting.len() <= f.trees.dom().len(),
        entries_present(
            f,
            f.trees[d]->0,
            names,
            k,
            visiting,
            (f.trees.dom().len() - visiting.len() + 1) as nat,
        ) == Ok::<bool, ClosureStop>(true),
    decreases n, 0nat, k,
{
    lemma_visited_len(f, visiting);
    if k > 0 {
        lemma_entries_found(f, d, names, (k - 1) as nat, visiting, n);
        let t = f.trees[d]->0;
        let name = names[k - 1];
        assert(t.contains_key(name));
        assert(entry_complete(f, t[name], (n - 1) as nat));
        if let EntryView::Directory(sub) = t[name] {
            assert(edge(f, d, sub));
            lemma_complete_found(f, sub, visiting, (n - 1) as nat);
        }
    }
}

/// Whether every known tree has finitely many entries.
pub open spec fn finite_trees(f: FactsView) -> bool {
    forall|d: Digest| #[trigger]
        f.trees.contains_key(d) && f.trees[d] is Some ==> f.trees[d]->0.dom().finite()
}

/// A tree that is found complete is.
pub proof fn lemma_found_complete(f: FactsView, d: Digest, visiting: Seq<Digest>, fuel: nat)
    requires
        closure(f, d, visiting, fuel) == Ok::<bool, ClosureStop>(true),
        finite_trees(f),
    ensures
        complete_in(f, d, fuel + 1),
    decreases fuel, 1nat, 0nat,
{
    let t = f.trees[d]->0;
    lemma_ascending_of(t.dom());
    let names = ascending_of(t.dom());
    assert forall|name: Seq<char>| #[trigger] t.contains_key(name) implies entry_complete(
        f,
        t[name],
        fuel,
    ) by {
        assert(names.contains(name));
        let i = choose|i: int| 0 <= i < names.len() && names[i] == name;
        lemma_found_entry(f, t, names, names.len() as nat, visiting.push(d), fuel, i);
    }
}

proof fn lemma_found_entry(
    f: FactsView,
    t: Entries,
    names: Seq<Seq<char>>,
    n: nat,
    visiting: Seq<Digest>,
    fuel: nat,
    i: int,
)
    requires
        entries_present(f, t, names, n, visiting, fuel) == Ok::<bool, ClosureStop>(true),
        finite_trees(f),
        0 <= i < n <= names.len(),
    ensures
        entry_complete(f, t[names[i]], fuel),
    decreases fuel, 0nat, n,
{
    if i == n - 1 {
        if let EntryView::Directory(sub) = t[names[i]] {
            lemma_found_complete(f, sub, visiting, (fuel - 1) as nat);
        }
    } else {
        lemma_found_entry(f, t, names, (n - 1) as nat, visiting, fuel, i);
    }
}

/// Whether a tree's closure is present.
pub open spec fn closure_present(f: FactsView, root: Digest) -> Result<bool, ClosureStop> {
    closure(f, root, Seq::empty(), f.trees.dom().len())
}

/// A tree's closure is reported present exactly where the tree is there and every
/// file and subdirectory below it too.
pub proof fn closures_are_complete(f: FactsView, root: Digest)
    requires
        f.trees.dom().finite(),
        finite_trees(f),
    ensures
        closure_present(f, root) == Ok::<bool, ClosureStop>(true) <==> complete(f, root),
{
    if complete(f, root) {
        let n = choose|n: nat| complete_in(f, root, n);
        lemma_complete_found(f, root, Seq::empty(), n);
    }
    if closure_present(f, root) == Ok::<bool, ClosureStop>(true) {
        lemma_found_complete(f, root, Seq::empty(), f.trees.dom().len());
    }
}

/// Build-scoped memoization for the validation of closures.
///
/// Stored objects are immutable. Once a blob or a complete tree closure has been
/// observed during one build, every later result that references it can reuse
/// that observation.
pub struct ClosureVerifier {
    blobs: DigestSet,
    trees: DigestSet,
}

impl ClosureVerifier {
    /// The blobs that were observed.
    pub closed spec fn blobs(self) -> Set<Digest> {
        self.blobs@
    }

    /// The trees whose closures were observed.
    pub closed spec fn trees(self) -> Set<Digest> {
        self.trees@
    }

    /// Whether what was observed holds of the facts.
    pub open spec fn holds(self, f: FactsView) -> bool {
        &&& forall|d: Digest| #[trigger]
            self.blobs().contains(d) ==> f.blobs.contains_key(d) && f.blobs[d]
        &&& forall|d: Digest| #[trigger] self.trees().contains(d) ==> complete(f, d)
    }

    /// Whether it has observed all that another one has.
    pub open spec fn extends(self, other: ClosureVerifier) -> bool {
        other.blobs().subset_of(self.blobs()) && other.trees().subset_of(self.trees())
    }
}

impl Default for ClosureVerifier {
    /// A verifier that has observed nothing.
    fn default() -> (r: ClosureVerifier)
        ensures
            r.blobs() == Set::<Digest>::empty(),
            r.trees() == Set::<Digest>::empty(),
    {
        ClosureVerifier { blobs: DigestSet::new(), trees: DigestSet::new() }
    }
}

/// Whether a blob is present.
pub open spec fn blob_present(f: FactsView, d: Digest) -> Result<bool, ClosureStop> {
    if f.blobs.contains_key(d) {
        Ok(f.blobs[d])
    } else {
        Err(ClosureStop::NeedBlob(d))
    }
}

/// Returns whether a blob is present, and remembers it when it is.
pub fn has_blob_cached(
    facts: &StoreFacts,
    digest: &Digest,
    verifier: &mut ClosureVerifier,
) -> (r: Result<bool, ClosureStop>)
    requires
        old(verifier).holds(facts@),
    ensures
        r == blob_present(facts@, *digest),
        final(verifier).holds(facts@),
        final(verifier).extends(*old(verifier)),
        final(verifier).trees() == old(verifier).trees(),
        r == Ok::<bool, ClosureStop>(true) ==> final(verifier).blobs().contains(*digest),
{
    if verifier.blobs.contains(digest) {
        assert(verifier.blobs().contains(*digest));
        return Ok(true);
    }
    match facts.blobs.get(digest) {
        Some(present) => {
            if *present {
                let ghost before = *verifier;
                verifier.blobs.insert(*digest);
                assert forall|d: Digest| #[trigger] verifier.blobs().contains(d) implies (
                facts@.blobs.contains_key(d) && facts@.blobs[d]) by {
                    assert(d == *digest || before.blobs().contains(d));
                }
                assert forall|d: Digest| #[trigger] verifier.trees().contains(d) implies complete(
                    facts@,
                    d,
                ) by {
                    assert(before.trees().contains(d));
                }
            }
            Ok(*present)
        },
        None => Err(ClosureStop::NeedBlob(*digest)),
    }
}

proof fn lemma_facts_finite(facts: &StoreFacts)
    ensures
        facts@.trees.dom().finite(),
        finite_trees(facts@),
{
    let f = facts@;
    seq_to_set_is_finite(facts.trees.keys());
    assert(f.trees.dom() =~= facts.trees.keys().to_set());
    assert forall|d: Digest| #[trigger]
        f.trees.contains_key(d) && f.trees[d] is Some implies f.trees[d]->0.dom().finite() by {
        let t = facts.trees@[d]->0;
        seq_to_set_is_finite(t.keys());
        assert(tree_view(t).dom() =~= t.keys().to_set());
    }
}

fn check_closure(
    facts: &StoreFacts,
    d: &Digest,
    visiting: &mut Vec<Digest>,
    fuel: usize,
    verifier: &mut ClosureVerifier,
) -> (r: Result<bool, ClosureStop>)
    requires
        old(verifier).holds(facts@),
        visited_path(facts@, old(visiting)@),
        old(visiting)@.len() > 0 ==> edge(facts@, old(visiting)@.last(), *d),
        fuel + old(visiting)@.len() == facts@.trees.dom().len(),
    ensures
        r == closure(facts@, *d, old(visiting)@, fuel as nat),
        final(visiting)@ == old(visiting)@,
        final(verifier).holds(facts@),
        final(verifier).extends(*old(verifier)),
        r == Ok::<bool, ClosureStop>(true) ==> final(verifier).trees().contains(*d),
    decreases fuel,
{
    let ghost f = facts@;
    let ghost path = visiting@;
    let ghost first = *verifier;
    proof {
        lemma_facts_finite(facts);
    }
    if verifier.trees.contains(d) {
        proof {
            assert(verifier.trees().contains(*d));
            let n = choose|n: nat| complete_in(f, *d, n);
            lemma_complete_found(f, *d, path, n);
        }
        return Ok(true);
    }
    let mut i: usize = 0;
    while i < visiting.len()
        invariant
            i <= visiting@.len(),
            visiting@ == path,
            path == old(visiting)@,
            f == facts@,
            *verifier == first,
            first == *old(verifier),
            first.holds(f),
            forall|k: int| 0 <= k < i ==> path[k] != *d,
        decreases visiting@.len() - i,
    {
        if visiting[i] == *d {
            assert(path[i as int] == *d);
            assert(path.contains(*d));
            return Err(ClosureStop::Cycle(*d));
        }
        i += 1;
    }
    assert(!path.contains(*d));
    let tree = match facts.trees.get(d) {
        None => {
            assert(!f.trees.contains_key(*d));
            return Err(ClosureStop::NeedTree(*d));
        },
        Some(t) => t,
    };
    assert(f.trees.contains_key(*d) && f.trees[*d] == tree_opt(*tree));
    let tree = match tree {
        None => return Ok(false),
        Some(t) => t,
    };
    let ghost t = tree_view(*tree);
    let ghost inner = path.push(*d);
    proof {
        lemma_path_push(f, path, *d);
        assert(fuel > 0);
        lemma_ascending_of(t.dom());
    }
    visiting.push(*d);
    let n = tree.len();
    let ghost names = tree.keys();
    proof {
        assert forall|k: Seq<char>| names.contains(k) <==> ascending_of(t.dom()).contains(k) by {
            assert(t.dom().contains(k) <==> tree@.contains_key(k));
        }
        lemma_ascending_unique(names, ascending_of(t.dom()));
    }
    let mut k: usize = 0;
    while k < n
        invariant
            k <= n,
            n == names.len(),
            names == tree.keys(),
            t == tree_view(*tree),
            f == facts@,
            f.trees.contains_key(*d),
            f.trees[*d] == Some(t),
            names == ascending_of(t.dom()),
            path == old(visiting)@,
            first == *old(verifier),
            inner == path.push(*d),
            visiting@ == inner,
            visited_path(f, inner),
            fuel > 0,
            fuel + path.len() == f.trees.dom().len(),
            closure(f, *d, path, fuel as nat) == entries_present(
                f,
                t,
                names,
                n as nat,
                inner,
                fuel as nat,
            ),
            verifier.holds(f),
            verifier.extends(first),
            entries_present(f, t, names, k as nat, inner, fuel as nat) == Ok::<bool, ClosureStop>(
                true,
            ),
        decreases n - k,
    {
        let ghost so_far = *verifier;
        let key = tree.key(k);
        let entry = tree.value(k);
        assert(names[k as int] == key@);
        assert(t.contains_key(key@) && t[key@] == entry@);
        let present = match entry {
            TreeEntry::File { digest, executable } => has_blob_cached(facts, digest, verifier),
            TreeEntry::Directory(sub) => {
                assert(edge(f, *d, *sub)) by {
                    assert(f.trees[*d]->0.contains_key(key@));
                }
                check_closure(facts, sub, visiting, fuel - 1, verifier)
            },
            TreeEntry::Symlink { target } => Ok(true),
        };
        assert(entries_present(f, t, names, (k + 1) as nat, inner, fuel as nat) == present);
        match present {
            Ok(true) => {},
            other => {
                proof {
                    lemma_present_stays(f, t, names, (k + 1) as nat, n as nat, inner, fuel as nat);
                }
                visiting.pop();
                assert(visiting@ =~= path);
                return other;
            },
        }
        k += 1;
    }
    visiting.pop();
    assert(visiting@ =~= path);
    let ghost before = *verifier;
    proof {
        lemma_found_complete(f, *d, path, fuel as nat);
        assert(complete(f, *d));
    }
    verifier.trees.insert(*d);
    assert forall|x: Digest| #[trigger] verifier.trees().contains(x) implies complete(f, x) by {
        assert(x == *d || before.trees().contains(x));
    }
    assert forall|x: Digest| #[trigger] verifier.blobs().contains(x) implies f.blobs.contains_key(x)
        && f.blobs[x] by {
        assert(before.blobs().contains(x));
    }
    Ok(true)
}

proof fn lemma_present_stays(
    f: FactsView,
    t: Entries,
    names: Seq<Seq<char>>,
    k: nat,
    n: nat,
    visiting: Seq<Digest>,
    fuel: nat,
)
    requires
        k <= n,
        entries_present(f, t, names, k, visiting, fuel) != Ok::<bool, ClosureStop>(true),
    ensures
        entries_present(f, t, names, n, visiting, fuel) == entries_present(
            f,
            t,
            names,
            k,
            visiting,
            fuel,
        ),
    decreases n,
{
    if k < n {
        lemma_present_stays(f, t, names, k, (n - 1) as nat, visiting, fuel);
    }
}

/// Returns whether a tree closure is present, reusing what was observed earlier
/// in the same build. What was observed changes the work, not the answer.
pub fn has_tree_closure_cached(
    facts: &StoreFacts,
    root: &Digest,
    verifier: &mut ClosureVerifier,
) -> (r: Result<bool, ClosureStop>)
    requires
        old(verifier).holds(facts@),
    ensures
        r == closure_present(facts@, *root),
        final(verifier).holds(facts@),
        final(verifier).extends(*old(verifier)),
        r == Ok::<bool, ClosureStop>(true) ==> final(verifier).trees().contains(*root),
{
    let n = facts.trees.len();
    let mut visiting: Vec<Digest> = Vec::new();
    proof {
        lemma_digests_distinct(facts.trees.keys());
        facts.trees.keys().unique_seq_to_set();
        assert(facts@.trees.dom() =~= facts.trees.keys().to_set());
        assert(visiting@ =~= Seq::empty());
    }
    check_closure(facts, root, &mut visiting, n, verifier)
}

/// Returns whether a tree and its complete transitive closure of blobs and
/// subtrees are present. Cache hits use this before exposing a recorded result
/// to downstream actions.
pub fn has_tree_closure(facts: &StoreFacts, root: &Digest) -> (r: Result<bool, ClosureStop>)
    ensures
        r == closure_present(facts@, *root),
{
    let mut verifier = ClosureVerifier::default();
    has_tree_closure_cached(facts, root, &mut verifier)
}

/// Whether all that is known in `f` is known in `g`.
pub open spec fn facts_grow(f: FactsView, g: FactsView) -> bool {
    &&& forall|d: Digest| #[trigger]
        f.trees.contains_key(d) ==> g.trees.contains_key(d) && g.trees[d] == f.trees[d]
    &&& forall|d: Digest| #[trigger]
        f.blobs.contains_key(d) ==> g.blobs.contains_key(d) && g.blobs[d] == f.blobs[d]
}

proof fn lemma_complete_grows(f: FactsView, g: FactsView, d: Digest, n: nat)
    requires
        facts_grow(f, g),
        complete_in(f, d, n),
    ensures
        complete_in(g, d, n),
    decreases n,
{
    assert forall|name: Seq<char>| #[trigger] g.trees[d]->0.contains_key(name) implies (
    entry_complete(g, g.trees[d]->0[name], (n - 1) as nat)) by {
        assert(f.trees[d]->0.contains_key(name));
        assert(entry_complete(f, f.trees[d]->0[name], (n - 1) as nat));
        if let EntryView::Directory(sub) = f.trees[d]->0[name] {
            lemma_complete_grows(f, g, sub, (n - 1) as nat);
        }
    }
}

/// What a verifier has observed stays true when more becomes known of the store.
pub proof fn observations_stay(v: ClosureVerifier, f: FactsView, g: FactsView)
    requires
        v.holds(f),
        facts_grow(f, g),
    ensures
        v.holds(g),
{
    assert forall|d: Digest| #[trigger] v.trees().contains(d) implies complete(g, d) by {
        let n = choose|n: nat| complete_in(f, d, n);
        lemma_complete_grows(f, g, d, n);
    }
}

// ---- Layout ------------------------------------------------------------------------------

/// The file of an object in a directory: `<dir>/<hex[0..2]>/<hex[2..]>`.
pub open spec fn sharded(dir: Seq<char>, d: Digest) -> Seq<char> {
    joined(joined(dir, digest_hex(d).take(2)), digest_hex(d).skip(2))
}

/// The file of an object in a directory.
pub fn sharded_path(dir: &str, d: &Digest) -> (r: String)
    ensures
        r@ == sharded(dir@, *d),
{
    let hex = to_chars(&d.to_hex());
    proof {
        digests_round_trip(*d);
    }
    let shard = slice(&hex, 0, 2);
    let rest = slice(&hex, 2, hex.len());
    assert(shard@ =~= digest_hex(*d).take(2));
    assert(rest@ =~= digest_hex(*d).skip(2));
    path_join(&path_join(dir, &shard), &rest)
}

/// The digest that the names of a shard and of a file in it stand for: together
/// they are its 64 hex digits, two of them the shard's.
pub open spec fn digest_named(shard: Seq<char>, name: Seq<char>) -> Option<Digest> {
    if name.len() == 62 && shard.len() == 2 {
        digest_of(shard + name)
    } else {
        None
    }
}

/// Parses a sharded digest file name.
pub fn digest_from_name(shard: &str, name: &str) -> (r: Option<Digest>)
    ensures
        r == digest_named(shard@, name@),
{
    if to_chars(name).len() != 62 || to_chars(shard).len() != 2 {
        return None;
    }
    Digest::from_hex(&cat(shard, name))
}

/// The names under which an object is stored stand for its digest.
pub proof fn object_names_round_trip(d: Digest)
    ensures
        digest_named(digest_hex(d).take(2), digest_hex(d).skip(2)) == Some(d),
{
    digests_round_trip(d);
    assert(digest_hex(d).take(2) + digest_hex(d).skip(2) =~= digest_hex(d));
}

/// A local content-addressed store.
#[derive(Clone, Debug)]
pub struct Cas {
    root: String,
}

impl Cas {
    /// The store's root.
    pub closed spec fn view(self) -> Seq<char> {
        self.root@
    }

    /// The store at `root`.
    pub fn open(root: &str) -> (r: Cas)
        ensures
            r@ == root@,
    {
        Cas { root: owned(root) }
    }

    /// Returns the store root.
    pub fn root(&self) -> (r: String)
        ensures
            r@ == self@,
    {
        owned(&self.root)
    }

    /// The file of an object of a namespace.
    pub fn object_path(&self, namespace: &str, digest: &Digest) -> (r: String)
        ensures
            r@ == sharded(joined(self@, namespace@), *digest),
    {
        sharded_path(&path_join(&self.root, namespace), digest)
    }

    /// The file of a blob, if it is present.
    pub fn blob_path(&self, facts: &StoreFacts, digest: &Digest) -> (r: Result<
        Option<String>,
        ClosureStop,
    >)
        ensures
            match r {
                Err(e) => blob_present(facts@, *digest) == Err::<bool, ClosureStop>(e),
                Ok(None) => blob_present(facts@, *digest) == Ok::<bool, ClosureStop>(false),
                Ok(Some(path)) => {
                    &&& blob_present(facts@, *digest) == Ok::<bool, ClosureStop>(true)
                    &&& path@ == sharded(joined(self@, "blobs"@), *digest)
                },
            },
    {
        match facts.blobs.get(digest) {
            None => Err(ClosureStop::NeedBlob(*digest)),
            Some(present) => if *present {
                Ok(Some(self.object_path("blobs", digest)))
            } else {
                Ok(None)
            },
        }
    }

    /// The file of the snapshot whose key has a digest.
    pub fn snapshot_path(&self, key: &Digest) -> (r: String)
        ensures
            r@ == joined(joined(self@, "snapshots"@), digest_hex(*key) + ".snapshot"@),
    {
        path_join(&path_join(&self.root, "snapshots"), &cat(&key.to_hex(), ".snapshot"))
    }
}

// ---- Storing -----------------------------------------------------------------------------

/// What becomes of an object that was written to a temporary file.
#[derive(Clone, Copy, Debug, PartialEq, Eq, Structural)]
pub enum Placement {
    /// The file has not the length that was written: it is discarded, an error.
    WrongLength,
    /// The object is there already: the file is discarded.
    Duplicate,
    /// An object of another length stands under the digest: the store is
    /// corrupt there, and the file replaces it.
    Replace,
    /// The file becomes the object.
    Fresh,
}

/// An object in its place: none, or one with its length where that can be told.
pub type Existing = Option<Option<u64>>;

/// What becomes of an object that was written to a temporary file.
pub open spec fn placed(expected: Option<u64>, actual: u64, existing: Existing) -> Placement {
    if expected is Some && expected->0 != actual {
        Placement::WrongLength
    } else {
        match existing {
            None => Placement::Fresh,
            Some(len) => if expected is Some && len != expected {
                Placement::Replace
            } else {
                Placement::Duplicate
            },
        }
    }
}

/// Decides what becomes of an object that was written to a temporary file.
pub fn placement(expected: Option<u64>, actual: u64, existing: Option<Option<u64>>) -> (r:
    Placement)
    ensures
        r == placed(expected, actual, existing),
{
    if let Some(len) = expected {
        if len != actual {
            return Placement::WrongLength;
        }
        match existing {
            None => Placement::Fresh,
            Some(None) => Placement::Replace,
            Some(Some(old_len)) => if old_len != len {
                Placement::Replace
            } else {
                Placement::Duplicate
            },
        }
    } else {
        match existing {
            None => Placement::Fresh,
            Some(_) => Placement::Duplicate,
        }
    }
}

/// The text of the error for an object of the wrong length.
pub open spec fn length_text(d: Digest) -> Seq<char> {
    "length mismatch while storing "@ + digest_hex(d)
}

/// Describes an object of the wrong length.
pub fn length_message(d: &Digest) -> (r: String)
    ensures
        r@ == length_text(*d),
{
    cat("length mismatch while storing ", &d.to_hex())
}

/// The text of the error for bytes that are not those of a digest.
pub open spec fn mismatch_text(expected: Digest, actual: Digest) -> Seq<char> {
    "digest mismatch while storing: expected "@ + digest_hex(expected) + ", wrote "@ + digest_hex(
        actual,
    )
}

/// Holds the digest of what was written against the one that was meant.
pub fn verify_digest(expected: &Digest, actual: &Digest) -> (r: Result<(), String>)
    ensures
        r is Ok <==> *expected == *actual,
        r is Err ==> r->Err_0@ == mismatch_text(*expected, *actual),
{
    if *expected == *actual {
        return Ok(());
    }
    Err(
        cat4(
            "digest mismatch while storing: expected ",
            &expected.to_hex(),
            ", wrote ",
            &actual.to_hex(),
        ),
    )
}

// ---- Capturing ---------------------------------------------------------------------------

/// Schema version of source snapshots.
pub const SOURCE_SNAPSHOT_SCHEMA_VERSION: u32 = 1;

/// The names of known output directories, which are never captured as source
/// content.
pub open spec fn output_names() -> Set<Seq<char>> {
    set![".tong"@, "target"@, ".git"@, ".jj"@]
}

/// Lists the names that are never captured as source content.
pub fn capture_excludes() -> (r: StrSet)
    ensures
        r@ == output_names(),
{
    let mut out = StrSet::new();
    out.insert(owned(".tong"));
    out.insert(owned("target"));
    out.insert(owned(".git"));
    out.insert(owned(".jj"));
    assert(out@ =~= output_names());
    out
}

/// The names of a directory that are captured: at the root all but the excluded
/// ones. Output-directory names remain valid source names below the root (for
/// example, the module directory `src/target/`).
pub open spec fn captured(names: Set<Seq<char>>, excludes: Set<Seq<char>>, root: bool) -> Set<
    Seq<char>,
> {
    if root {
        names.difference(excludes)
    } else {
        names
    }
}

/// Lists the names of a directory that are captured, in order.
pub fn captured_names(names: &StrSet, excludes: &StrSet, root: bool) -> (r: Vec<String>)
    ensures
        texts(r@) == ascending_of(captured(names@, excludes@, root)),
{
    let mut out: Vec<String> = Vec::new();
    let n = names.len();
    let ghost all = names.items();
    let ghost want = captured(names@, excludes@, root);
    let mut i: usize = 0;
    assert(texts(out@) =~= Seq::<Seq<char>>::empty());
    while i < n
        invariant
            i <= n,
            n == all.len(),
            all == names.items(),
            ascending(all),
            forall|k: Seq<char>| names@.contains(k) <==> all.contains(k),
            want == captured(names@, excludes@, root),
            ascending(texts(out@)),
            forall|k: Seq<char>| #[trigger]
                texts(out@).contains(k) <==> all.take(i as int).contains(k) && want.contains(k),
        decreases n - i,
    {
        let name = names.item(i);
        let ghost before = texts(out@);
        let ghost b = all.take(i as int);
        let ghost c = all.take(i as int + 1);
        proof {
            assert(all[i as int] == name@);
            assert(all.contains(name@));
            assert(c =~= b.push(name@));
        }
        if !(root && excludes.contains(name)) {
            push_text(&mut out, name);
            assert forall|x: int, y: int| 0 <= x < y < texts(out@).len() implies lt(
                #[trigger] texts(out@)[x],
                #[trigger] texts(out@)[y],
            ) by {
                if y == before.len() {
                    assert(before.contains(before[x]));
                    assert(b.contains(before[x]));
                    let z = choose|z: int| 0 <= z < b.len() && b[z] == before[x];
                    assert(lt(all[z], all[i as int]));
                } else {
                    assert(lt(before[x], before[y]));
                }
            }
        }
        assert forall|k: Seq<char>| #[trigger]
            texts(out@).contains(k) <==> c.contains(k) && want.contains(k) by {
            if b.contains(k) {
                let z = choose|z: int| 0 <= z < b.len() && b[z] == k;
                assert(c[z] == k);
            }
            if c.contains(k) {
                let z = choose|z: int| 0 <= z < c.len() && c[z] == k;
                if z < i {
                    assert(b[z] == k);
                }
            }
            assert(c[i as int] == name@);
            assert(before.contains(k) <==> b.contains(k) && want.contains(k));
            if want.contains(name@) {
                assert(texts(out@)[before.len() as int] == name@);
                if before.contains(k) {
                    let z = choose|z: int| 0 <= z < before.len() && before[z] == k;
                    assert(texts(out@)[z] == k);
                }
                if texts(out@).contains(k) {
                    let z = choose|z: int| 0 <= z < texts(out@).len() && texts(out@)[z] == k;
                    if z < before.len() {
                        assert(before[z] == k);
                    }
                }
            }
        }
        i += 1;
    }
    proof {
        assert(all.take(n as int) =~= all);
        let got = texts(out@);
        assert(ascending(got) && forall|k: Seq<char>| got.contains(k) <==> want.contains(k));
        lemma_ascending_unique(got, ascending_of(want));
    }
    out
}

/// The values of a snapshot: a fingerprint and the tree that was captured.
pub open spec fn snapshot_tokens(fingerprint: Digest, tree: Digest) -> Seq<TokenView> {
    seq![
        TokenView::U32(SOURCE_SNAPSHOT_SCHEMA_VERSION),
        TokenView::Digest(fingerprint),
        TokenView::Digest(tree),
    ]
}

/// Lists the values of a snapshot.
pub fn encode_snapshot(fingerprint: &Digest, tree: &Digest) -> (r: Vec<Token>)
    ensures
        tokens_view(r@) == snapshot_tokens(*fingerprint, *tree),
{
    let mut out: Vec<Token> = Vec::new();
    push_token(&mut out, Token::U32(SOURCE_SNAPSHOT_SCHEMA_VERSION));
    push_token(&mut out, Token::Digest(*fingerprint));
    push_token(&mut out, Token::Digest(*tree));
    assert(tokens_view(out@) =~= snapshot_tokens(*fingerprint, *tree));
    out
}

/// Reads the tree of a snapshot that was taken under a fingerprint; one of
/// another version or fingerprint counts as none.
pub fn decode_snapshot(t: &Vec<Token>, fingerprint: &Digest) -> (r: Option<Digest>)
    ensures
        match r {
            Some(tree) => tokens_view(t@) == snapshot_tokens(*fingerprint, tree),
            None => forall|tree: Digest|
                tokens_view(t@) != #[trigger] snapshot_tokens(*fingerprint, tree),
        },
{
    let ghost v = tokens_view(t@);
    if t.len() != 3 {
        assert forall|tree: Digest| v != #[trigger] snapshot_tokens(*fingerprint, tree) by {
            assert(snapshot_tokens(*fingerprint, tree).len() == 3);
        }
        return None;
    }
    proof {
        assert(v[0] == t@[0]@);
        assert(v[1] == t@[1]@);
        assert(v[2] == t@[2]@);
        assert forall|tree: Digest| v == #[trigger] snapshot_tokens(*fingerprint, tree) implies (
        v[0] == TokenView::U32(SOURCE_SNAPSHOT_SCHEMA_VERSION) && v[1] == TokenView::Digest(
            *fingerprint,
        ) && v[2] == TokenView::Digest(tree)) by {}
    }
    match (&t[0], &t[1], &t[2]) {
        (Token::U32(version), Token::Digest(recorded), Token::Digest(tree)) => {
            if *version == SOURCE_SNAPSHOT_SCHEMA_VERSION && *recorded == *fingerprint {
                assert(v =~= snapshot_tokens(*fingerprint, *tree));
                Some(*tree)
            } else {
                None
            }
        },
        _ => None,
    }
}

/// The values of a snapshot's key after the first `n` excluded names.
pub open spec fn key_values(path: Seq<char>, excludes: Seq<Seq<char>>, n: int) -> Seq<TokenView>
    decreases n,
{
    if n <= 0 {
        seq![
            TokenView::U32(SOURCE_SNAPSHOT_SCHEMA_VERSION),
            TokenView::Str(path),
            TokenView::U64(excludes.len() as u64),
        ]
    } else {
        key_values(path, excludes, n - 1).push(TokenView::Str(excludes[n - 1]))
    }
}

/// Lists the values of a snapshot's key: the directory and what is excluded.
pub fn snapshot_key(path: &str, excludes: &StrSet) -> (r: Vec<Token>)
    ensures
        tokens_view(r@) == key_values(
            path@,
            excludes.items(),
            excludes.items().len() as int,
        ),
{
    let mut out: Vec<Token> = Vec::new();
    let n = excludes.len();
    push_token(&mut out, Token::U32(SOURCE_SNAPSHOT_SCHEMA_VERSION));
    push_token(&mut out, Token::Str(owned(path)));
    push_token(&mut out, Token::U64(n as u64));
    let mut i: usize = 0;
    assert(tokens_view(out@) =~= key_values(path@, excludes.items(), 0));
    while i < n
        invariant
            i <= n,
            n == excludes.items().len(),
            tokens_view(out@) == key_values(path@, excludes.items(), i as int),
        decreases n - i,
    {
        push_token(&mut out, Token::Str(excludes.item(i).clone()));
        i += 1;
    }
    out
}

/// The identity-bearing metadata of a file.
#[derive(Clone, Copy, Debug, PartialEq, Eq, Structural)]
pub struct FileMeta {
    /// Its length.
    pub len: u64,
    /// When its contents changed, in seconds.
    pub mtime: i64,
    /// The nanoseconds of that.
    pub mtime_nsec: i64,
    /// When its metadata changed, in seconds.
    pub ctime: i64,
    /// The nanoseconds of that.
    pub ctime_nsec: i64,
    /// The device it is on.
    pub dev: u64,
    /// Its inode.
    pub ino: u64,
    /// Its mode.
    pub mode: u32,
}

/// What a captured path is.
#[derive(Debug, PartialEq, Eq)]
pub enum CapturedKind {
    /// A directory.
    Directory,
    /// A regular file.
    File,
    /// A symbolic link, with its target.
    Symlink(String),
}

/// What a captured path is.
pub enum KindView {
    Directory,
    File,
    Symlink(Seq<char>),
}

impl View for CapturedKind {
    type V = KindView;

    open spec fn view(&self) -> KindView {
        match *self {
            CapturedKind::Directory => KindView::Directory,
            CapturedKind::File => KindView::File,
            CapturedKind::Symlink(target) => KindView::Symlink(target@),
        }
    }
}

/// The values of a path in a fingerprint: names, types, modes, symlink targets,
/// and what catches preserved-mtime edits and file replacement.
pub open spec fn meta_tokens(relative: Seq<char>, kind: KindView, m: FileMeta) -> Seq<TokenView> {
    let number: u32 = match kind {
        KindView::Directory => 0,
        KindView::File => 1,
        KindView::Symlink(_) => 2,
    };
    let head = seq![
        TokenView::Str(relative),
        TokenView::U32(number),
        TokenView::U64(m.len),
        TokenView::I64(m.mtime),
        TokenView::I64(m.mtime_nsec),
        TokenView::I64(m.ctime),
        TokenView::I64(m.ctime_nsec),
        TokenView::U64(m.dev),
        TokenView::U64(m.ino),
        TokenView::U32(m.mode),
    ];
    match kind {
        KindView::Symlink(target) => head.push(TokenView::Str(target)),
        _ => head,
    }
}

/// Lists the values of a path in a fingerprint.
pub fn fingerprint_tokens(relative: &str, kind: &CapturedKind, m: &FileMeta) -> (r: Vec<Token>)
    ensures
        tokens_view(r@) == meta_tokens(relative@, kind@, *m),
{
    let mut out: Vec<Token> = Vec::new();
    let number: u32 = match kind {
        CapturedKind::Directory => 0,
        CapturedKind::File => 1,
        CapturedKind::Symlink(_) => 2,
    };
    push_token(&mut out, Token::Str(owned(relative)));
    push_token(&mut out, Token::U32(number));
    push_token(&mut out, Token::U64(m.len));
    push_token(&mut out, Token::I64(m.mtime));
    push_token(&mut out, Token::I64(m.mtime_nsec));
    push_token(&mut out, Token::I64(m.ctime));
    push_token(&mut out, Token::I64(m.ctime_nsec));
    push_token(&mut out, Token::U64(m.dev));
    push_token(&mut out, Token::U64(m.ino));
    push_token(&mut out, Token::U32(m.mode));
    if let CapturedKind::Symlink(target) = kind {
        push_token(&mut out, Token::Str(target.clone()));
    }
    assert(tokens_view(out@) =~= meta_tokens(relative@, kind@, *m));
    out
}

/// A change of a path's length, times, device, inode or mode changes its values
/// in a fingerprint.
pub proof fn fingerprints_see_metadata(
    relative: Seq<char>,
    kind: KindView,
    m: FileMeta,
    n: FileMeta,
)
    requires
        m != n,
    ensures
        meta_tokens(relative, kind, m) != meta_tokens(relative, kind, n),
{
    let a = meta_tokens(relative, kind, m);
    let b = meta_tokens(relative, kind, n);
    if a == b {
        assert(a[2] == b[2] && a[3] == b[3] && a[4] == b[4] && a[5] == b[5]);
        assert(a[6] == b[6] && a[7] == b[7] && a[8] == b[8] && a[9] == b[9]);
        assert(m == n);
    }
}

/// Whether a mode lets anyone execute a file.
pub fn is_executable(mode: u32) -> (r: bool)
    ensures
        r == (mode & 0o111 != 0),
{
    mode & 0o111 != 0
}

} // verus!
