//! Reachability-based garbage collection over the whole store.
//!
//! The root set is the build-state manifests: every digest they reference, and
//! everything that those reach through trees and bundles, is marked; everything
//! else is garbage.
//!
//! Two deletion policies compose:
//!
//! - **Age**: unmarked files older than `older_than` are deleted.
//! - **Budget**: when the store exceeds `max_size`, unmarked files, results and
//!   objects alike, are deleted oldest-first until under budget, but never files
//!   younger than 24h, which protects concurrent in-flight builds whose manifests
//!   are not written yet. An object that results hold waits until they are gone.
//!
//! Results are swept before objects, and what a result that stays references
//! stays with it, so no result ever references a swept object. Stale temporary
//! files older than 24h are always deleted.

use vstd::prelude::*;
use vstd::string::*;
use crate::cas::{tree_opt, Entries, EntryView, TreeEntry};
use crate::digest::{digests_ascending, lemma_digests_distinct, Digest, DigestMap, DigestSet};
use crate::strmap::StrMap;
use crate::text::{cat3, decimal, u64_text};

verus! {

/// Files younger than this, in seconds, are never deleted by a budget sweep, and
/// temporary files not at all.
pub const AGE_FLOOR_SECS: u64 = 86_400;

/// Options of a collection.
#[derive(Clone, Debug)]
pub struct GcOptions {
    /// Age floor, in seconds, for deleting unmarked files. `None` and `Some(0)`
    /// delete all of them regardless of age.
    pub older_than: Option<u64>,
    /// Store size budget in bytes.
    pub max_size: Option<u64>,
    /// Compute and report without deleting.
    pub dry_run: bool,
    /// Reference time (unix seconds) for age comparisons.
    pub now: u64,
}

/// Outcome counts of a collection.
#[derive(Clone, Copy, Debug, PartialEq, Eq, Structural)]
pub struct GcReport {
    /// Marked `results/` entries (live action results).
    pub marked_results: usize,
    /// Marked objects (blobs, trees, bundles, toolchains).
    pub marked_objects: usize,
    /// Deleted `results/` entries.
    pub deleted_results: usize,
    /// Deleted objects (blobs, trees, bundles, toolchains, stale temporary files).
    pub deleted_objects: usize,
    /// Total store size before the sweep, in bytes.
    pub store_bytes: u64,
    /// Bytes freed by the sweep.
    pub freed_bytes: u64,
}

/// The text of a report.
pub open spec fn report_text(r: GcReport) -> Seq<char> {
    "gc: kept "@ + decimal(r.marked_results as nat) + " results, "@ + decimal(
        r.marked_objects as nat,
    ) + " objects; deleted "@ + decimal(r.deleted_results as nat) + " results, "@ + decimal(
        r.deleted_objects as nat,
    ) + " objects ("@ + decimal(r.freed_bytes as nat) + " freed, store "@ + decimal(
        r.store_bytes as nat,
    ) + " bytes)"@
}

impl GcReport {
    /// The report as a line of text.
    pub fn to_text(&self) -> (r: String)
        ensures
            r@ == report_text(*self),
    {
        let s = cat3("gc: kept ", &u64_text(self.marked_results as u64), " results, ");
        let s = cat3(&s, &u64_text(self.marked_objects as u64), " objects; deleted ");
        let s = cat3(&s, &u64_text(self.deleted_results as u64), " results, ");
        let s = cat3(&s, &u64_text(self.deleted_objects as u64), " objects (");
        let s = cat3(&s, &u64_text(self.freed_bytes), " freed, store ");
        cat3(&s, &u64_text(self.store_bytes), " bytes)")
    }
}

// ---- Marking -----------------------------------------------------------------------------

/// Whether a tree and a bundle of one digest link to another digest.
pub open spec fn links_to(tree: Option<Entries>, bundle: Option<Digest>, d: Digest) -> bool {
    ||| bundle == Some(d)
    ||| tree is Some && exists|name: Seq<char>| #[trigger]
        tree->0.contains_key(name) && entry_links(tree->0[name], d)
}

/// Whether an entry links to a digest.
pub open spec fn entry_links(e: EntryView, d: Digest) -> bool {
    match e {
        EntryView::File { digest, executable } => d == digest,
        EntryView::Directory(sub) => d == sub,
        EntryView::Symlink { target } => false,
    }
}

/// Lists what an object links to: a tree's blobs and subtrees, and the files of a
/// bundle.
pub fn links(tree: &Option<StrMap<TreeEntry>>, bundle: &Option<Digest>) -> (r: Vec<Digest>)
    ensures
        forall|d: Digest| r@.contains(d) <==> links_to(tree_opt(*tree), *bundle, d),
{
    let mut out: Vec<Digest> = Vec::new();
    if let Some(t) = tree {
        let n = t.len();
        let ghost names = t.keys();
        let ghost v = tree_opt(*tree)->0;
        let mut i: usize = 0;
        while i < n
            invariant
                i <= n,
                n == names.len(),
                names == t.keys(),
                *tree == Some(*t),
                v == tree_opt(*tree)->0,
                forall|k: Seq<char>| #[trigger] v.contains_key(k) <==> names.contains(k),
                forall|d: Digest| #[trigger]
                    out@.contains(d) <==> linked_first(v, names, i as int, d),
            decreases n - i,
        {
            let ghost before = out@;
            let key = t.key(i);
            let entry = t.value(i);
            assert(names[i as int] == key@);
            assert(v[key@] == entry@);
            match entry {
                TreeEntry::File { digest, executable } => {
                    out.push(*digest);
                    assert(out@[before.len() as int] == *digest);
                },
                TreeEntry::Directory(sub) => {
                    out.push(*sub);
                    assert(out@[before.len() as int] == *sub);
                },
                TreeEntry::Symlink { target } => {},
            }
            assert forall|d: Digest| #[trigger]
                out@.contains(d) <==> linked_first(v, names, i as int + 1, d) by {
                assert(before.contains(d) <==> linked_first(v, names, i as int, d));
                if before.contains(d) {
                    let k = choose|k: int| 0 <= k < before.len() && before[k] == d;
                    assert(out@[k] == d);
                }
                if linked_first(v, names, i as int, d) {
                    let k = choose|k: int|
                        0 <= k < i && entry_links(v[#[trigger] names[k]], d);
                    assert(entry_links(v[names[k]], d));
                }
                if out@.contains(d) && !before.contains(d) {
                    assert(entry_links(v[names[i as int]], d));
                }
            }
            i += 1;
        }
        proof {
            assert forall|d: Digest| #[trigger]
                out@.contains(d) <==> links_to(Some(v), None, d) by {
                if linked_first(v, names, n as int, d) {
                    let k = choose|k: int|
                        0 <= k < n && entry_links(v[#[trigger] names[k]], d);
                    assert(names.contains(names[k]));
                    assert(v.contains_key(names[k]));
                }
                if links_to(Some(v), None, d) {
                    let name = choose|name: Seq<char>| #[trigger]
                        v.contains_key(name) && entry_links(v[name], d);
                    assert(names.contains(name));
                    let k = choose|k: int| 0 <= k < names.len() && names[k] == name;
                    assert(entry_links(v[names[k]], d));
                }
            }
        }
    }
    assert(forall|d: Digest| #[trigger]
        out@.contains(d) <==> links_to(tree_opt(*tree), None, d));
    let ghost before = out@;
    if let Some(files) = bundle {
        out.push(*files);
        assert forall|d: Digest| #[trigger] out@.contains(d) <==> before.contains(d) || d == *files by {
            assert(out@[before.len() as int] == *files);
            if before.contains(d) {
                let k = choose|k: int| 0 <= k < before.len() && before[k] == d;
                assert(out@[k] == d);
            }
        }
    }
    assert forall|d: Digest| out@.contains(d) <==> links_to(tree_opt(*tree), *bundle, d) by {
        assert(before.contains(d) <==> links_to(tree_opt(*tree), None, d));
    }
    out
}

spec fn linked_first(v: Entries, names: Seq<Seq<char>>, n: int, d: Digest) -> bool {
    exists|k: int| 0 <= k < n && entry_links(v[#[trigger] names[k]], d)
}

/// Whether digests are a way along known links that starts at a root.
pub open spec fn way(known: Map<Digest, Vec<Digest>>, roots: Set<Digest>, p: Seq<Digest>) -> bool {
    &&& p.len() > 0
    &&& roots.contains(p[0])
    &&& forall|i: int|
        0 <= i < p.len() - 1 ==> known.contains_key(#[trigger] p[i]) && known[p[i]]@.contains(
            p[i + 1],
        )
}

/// Whether a digest is reachable from the roots along known links.
pub open spec fn reachable(known: Map<Digest, Vec<Digest>>, roots: Set<Digest>, d: Digest) -> bool {
    exists|p: Seq<Digest>| #[trigger] way(known, roots, p) && p.last() == d
}

proof fn lemma_reach_root(known: Map<Digest, Vec<Digest>>, roots: Set<Digest>, d: Digest)
    requires
        roots.contains(d),
    ensures
        reachable(known, roots, d),
{
    let p = seq![d];
    assert(way(known, roots, p));
    assert(p.last() == d);
}

proof fn lemma_reach_step(
    known: Map<Digest, Vec<Digest>>,
    roots: Set<Digest>,
    d: Digest,
    e: Digest,
)
    requires
        reachable(known, roots, d),
        known.contains_key(d),
        known[d]@.contains(e),
    ensures
        reachable(known, roots, e),
{
    let p = choose|p: Seq<Digest>| #[trigger] way(known, roots, p) && p.last() == d;
    let q = p.push(e);
    assert forall|i: int| 0 <= i < q.len() - 1 implies known.contains_key(#[trigger] q[i])
        && known[q[i]]@.contains(q[i + 1]) by {
        if i < p.len() - 1 {
            assert(known.contains_key(p[i]) && known[p[i]]@.contains(p[i + 1]));
        } else {
            assert(q[i] == d);
        }
    }
    assert(way(known, roots, q));
    assert(q.last() == e);
}

proof fn lemma_reach_closed(
    known: Map<Digest, Vec<Digest>>,
    roots: Set<Digest>,
    marked: Set<Digest>,
    p: Seq<Digest>,
    k: int,
)
    requires
        roots.subset_of(marked),
        forall|d: Digest, e: Digest|
            marked.contains(d) && known.contains_key(d) && #[trigger] known[d]@.contains(e)
                ==> marked.contains(e),
        way(known, roots, p),
        0 <= k < p.len(),
    ensures
        marked.contains(p[k]),
    decreases k,
{
    if k > 0 {
        lemma_reach_closed(known, roots, marked, p, k - 1);
        assert(known.contains_key(p[k - 1]) && known[p[k - 1]]@.contains(p[k - 1 + 1]));
    }
}

/// What marking comes to.
pub enum Marking {
    /// The marked digests.
    Marked(DigestSet),
    /// Digests whose links are not known.
    Unknown(Vec<Digest>),
}

/// Marks what is reachable from the roots: trees reach their blobs and subtrees,
/// bundles their trees. Tells which links are missing where they are not all
/// known.
pub fn mark(roots: &DigestSet, known: &DigestMap<Vec<Digest>>) -> (r: Marking)
    ensures
        match r {
            Marking::Marked(set) => {
                &&& forall|d: Digest| #[trigger]
                    set@.contains(d) <==> reachable(known@, roots@, d)
                &&& forall|d: Digest| #[trigger]
                    reachable(known@, roots@, d) ==> known@.contains_key(d)
            },
            Marking::Unknown(list) => {
                &&& list@.len() > 0
                &&& forall|d: Digest| #[trigger]
                    list@.contains(d) <==> reachable(known@, roots@, d) && !known@.contains_key(
                        d,
                    )
            },
        },
{
    let mut marked = DigestSet::new();
    let mut stack: Vec<Digest> = Vec::new();
    let mut unknown: Vec<Digest> = Vec::new();
    let ghost k = known@;
    let ghost top = roots@;
    let n = roots.len();
    let size = known.len();
    let mut i: usize = 0;
    while i < n
        invariant
            i <= n,
            n == roots.items().len(),
            top == roots@,
            k == known@,
            forall|d: Digest| top.contains(d) <==> roots.items().contains(d),
            forall|d: Digest| #[trigger] marked@.contains(d) ==> reachable(k, top, d),
            forall|d: Digest| #[trigger] marked@.contains(d) ==> stack@.contains(d),
            forall|j: int| 0 <= j < stack@.len() ==> marked@.contains(#[trigger] stack@[j]),
            forall|j: int| 0 <= j < i ==> marked@.contains(#[trigger] roots.items()[j]),
            stack@.no_duplicates(),
        decreases n - i,
    {
        let d = roots.item(i);
        let ghost before = stack@;
        proof {
            lemma_reach_root(k, top, d);
        }
        if marked.insert(d) {
            stack.push(d);
            assert forall|x: Digest| #[trigger] marked@.contains(x) implies stack@.contains(x) by {
                if x == d {
                    assert(stack@[before.len() as int] == d);
                } else {
                    assert(before.contains(x));
                    let j = choose|j: int| 0 <= j < before.len() && before[j] == x;
                    assert(stack@[j] == x);
                }
            }
        }
        i += 1;
    }
    assert(top.subset_of(marked@)) by {
        assert forall|d: Digest| top.contains(d) implies marked@.contains(d) by {
            assert(roots.items().contains(d));
            let j = choose|j: int| 0 <= j < roots.items().len() && roots.items()[j] == d;
            assert(marked@.contains(roots.items()[j]));
        }
    }
    let ghost mut done: Seq<Digest> = Seq::empty();
    while stack.len() > 0
        invariant
            k == known@,
            top == roots@,
            size == known.keys().len(),
            digests_ascending(known.keys()),
            forall|d: Digest| k.contains_key(d) <==> known.keys().contains(d),
            top.subset_of(marked@),
            forall|d: Digest| #[trigger] marked@.contains(d) ==> reachable(k, top, d),
            forall|j: int| 0 <= j < stack@.len() ==> marked@.contains(#[trigger] stack@[j]),
            forall|d: Digest| #[trigger]
                marked@.contains(d) ==> stack@.contains(d) || done.contains(d)
                    || unknown@.contains(d),
            forall|d: Digest| #[trigger]
                unknown@.contains(d) ==> marked@.contains(d) && !k.contains_key(d),
            done.no_duplicates(),
            stack@.no_duplicates(),
            forall|d: Digest| #[trigger]
                done.contains(d) ==> marked@.contains(d) && k.contains_key(d)
                    && !stack@.contains(d),
            forall|d: Digest, e: Digest|
                done.contains(d) && #[trigger] k[d]@.contains(e) ==> marked@.contains(e),
            done.len() <= size,
        decreases size - done.len(), stack@.len(),
    {
        let ghost was = stack@;
        let ghost was_marked = marked@;
        let d = stack.pop().unwrap();
        let ghost rest = stack@;
        proof {
            assert(was[was.len() - 1] == d);
            assert(was =~= rest.push(d));
            assert(marked@.contains(d));
            assert(!rest.contains(d)) by {
                if rest.contains(d) {
                    let j = choose|j: int| 0 <= j < rest.len() && rest[j] == d;
                    assert(was[j] == was[was.len() - 1]);
                }
            }
            assert forall|x: Digest| rest.contains(x) implies was.contains(x) by {
                let j = choose|j: int| 0 <= j < rest.len() && rest[j] == x;
                assert(was[j] == x);
            }
            assert forall|x: Digest| was.contains(x) && x != d implies rest.contains(x) by {
                let j = choose|j: int| 0 <= j < was.len() && was[j] == x;
                assert(rest[j] == x);
            }
            assert(was.contains(d));
        }
        match known.get(&d) {
            None => {
                let ghost before = unknown@;
                unknown.push(d);
                proof {
                    assert(unknown@[before.len() as int] == d);
                    assert forall|x: Digest| #[trigger] unknown@.contains(x) <==> before.contains(x)
                        || x == d by {
                        if before.contains(x) {
                            let j = choose|j: int| 0 <= j < before.len() && before[j] == x;
                            assert(unknown@[j] == x);
                        }
                    }
                    assert forall|x: Digest| #[trigger] done.contains(x) implies marked@.contains(
                        x,
                    ) && k.contains_key(x) && !stack@.contains(x) by {}
                }
            },
            Some(children) => {
                let ghost before_done = done;
                proof {
                    done = done.push(d);
                    assert forall|x: Digest| #[trigger] done.contains(x) <==> before_done.contains(
                        x,
                    ) || x == d by {
                        assert(done[before_done.len() as int] == d);
                        if before_done.contains(x) {
                            let j = choose|j: int|
                                0 <= j < before_done.len() && before_done[j] == x;
                            assert(done[j] == x);
                        }
                    }
                    assert(!before_done.contains(d));
                    lemma_within(done, known.keys());
                }
                let mut c: usize = 0;
                while c < children.len()
                    invariant
                        c <= children@.len(),
                        k == known@,
                        k.contains_key(d),
                        k[d] == *children,
                        reachable(k, top, d),
                        marked@.contains(d),
                        top.subset_of(marked@),
                        was_marked.subset_of(marked@),
                        forall|x: Digest| #[trigger] marked@.contains(x) ==> reachable(k, top, x),
                        forall|j: int|
                            0 <= j < stack@.len() ==> marked@.contains(#[trigger] stack@[j]),
                        forall|x: Digest| #[trigger]
                            marked@.contains(x) ==> stack@.contains(x) || done.contains(x)
                                || unknown@.contains(x),
                        forall|x: Digest| #[trigger]
                            unknown@.contains(x) ==> marked@.contains(x) && !k.contains_key(x),
                        stack@.no_duplicates(),
                        forall|x: Digest| #[trigger]
                            done.contains(x) ==> marked@.contains(x) && k.contains_key(x)
                                && !stack@.contains(x),
                        forall|x: Digest, e: Digest|
                            before_done.contains(x) && #[trigger] k[x]@.contains(e)
                                ==> marked@.contains(e),
                        forall|j: int| 0 <= j < c ==> marked@.contains(#[trigger] children@[j]),
                    decreases children@.len() - c,
                {
                    let e = children[c];
                    let ghost before = stack@;
                    let ghost before_marked = marked@;
                    proof {
                        assert(children@[c as int] == e);
                        assert(k[d]@.contains(e));
                        lemma_reach_step(k, top, d, e);
                    }
                    if marked.insert(e) {
                        stack.push(e);
                        proof {
                            assert(stack@[before.len() as int] == e);
                            assert forall|x: Digest| #[trigger]
                                stack@.contains(x) <==> before.contains(x) || x == e by {
                                if before.contains(x) {
                                    let j = choose|j: int| 0 <= j < before.len() && before[j] == x;
                                    assert(stack@[j] == x);
                                }
                            }
                            assert(!before.contains(e)) by {
                                if before.contains(e) {
                                    let j = choose|j: int|
                                        0 <= j < before.len() && before[j] == e;
                                    assert(before_marked.contains(before[j]));
                                }
                            }
                        }
                    }
                    c += 1;
                }
                assert forall|x: Digest, e: Digest|
                    done.contains(x) && #[trigger] k[x]@.contains(e) implies marked@.contains(
                    e,
                ) by {
                    if x == d {
                        let j = choose|j: int| 0 <= j < children@.len() && children@[j] == e;
                        assert(marked@.contains(children@[j]));
                    }
                }
            },
        }
    }
    proof {
        assert forall|d: Digest| #[trigger] reachable(k, top, d) implies marked@.contains(d) by {
            let p = choose|p: Seq<Digest>| #[trigger] way(k, top, p) && p.last() == d;
            lemma_reach_closed(k, top, marked@, p, p.len() - 1);
        }
    }
    if unknown.len() > 0 {
        return Marking::Unknown(unknown);
    }
    Marking::Marked(marked)
}

proof fn lemma_within(a: Seq<Digest>, keys: Seq<Digest>)
    requires
        a.no_duplicates(),
        digests_ascending(keys),
        forall|d: Digest| a.contains(d) ==> keys.contains(d),
    ensures
        a.len() <= keys.len(),
{
    lemma_digests_distinct(keys);
    a.unique_seq_to_set();
    keys.unique_seq_to_set();
    assert(a.to_set().subset_of(keys.to_set()));
    vstd::seq_lib::seq_to_set_is_finite(keys);
    vstd::set_lib::lemma_len_subset(a.to_set(), keys.to_set());
}

} // verus!
