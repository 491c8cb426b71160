//! Assembly of a single tree from mounts.
//!
//! Trees are persistent values: only the directory nodes on mount paths and at
//! actual directory conflicts are overlaid.

use vstd::prelude::*;
use vstd::string::*;
use crate::cas::{
    copy_entry, copy_tree, finite_trees, same_entry, same_tree, tree_opt, tree_view, Entries, EntryView,
    FactsView, StoreFacts, TreeEntry,
};
use crate::digest::{lemma_digests_distinct, Digest};
use crate::paths::tail;
use crate::strmap::{
    ascending, ascending_of, lemma_ascending_distinct, lemma_ascending_of, lemma_ascending_unique,
    StrMap, StrSet,
};
use crate::text::{cat, cat3, owned, quote, quoted, same, split, split_spec, texts};

verus! {

/// Why trees were not assembled.
#[derive(Debug)]
pub enum AssembleStop {
    /// It is not known whether the store has a tree, and which.
    NeedTree(Digest),
    /// The digest of a tree, which is yet to be stored, is not known.
    NeedStored(StrMap<TreeEntry>),
    /// The store does not have a tree.
    NotFound(Digest),
    /// A directory meets something else of its name.
    Conflict(String),
    /// Nothing is mounted.
    Empty,
    /// A tree contains itself.
    Cycle(Digest),
}

/// What a stop is.
pub enum StopView {
    NeedTree(Digest),
    NeedStored(Entries),
    NotFound(Digest),
    Conflict(Seq<char>),
    Empty,
    Cycle(Digest),
}

impl View for AssembleStop {
    type V = StopView;

    open spec fn view(&self) -> StopView {
        match *self {
            AssembleStop::NeedTree(d) => StopView::NeedTree(d),
            AssembleStop::NeedStored(t) => StopView::NeedStored(tree_view(t)),
            AssembleStop::NotFound(d) => StopView::NotFound(d),
            AssembleStop::Conflict(name) => StopView::Conflict(name@),
            AssembleStop::Empty => StopView::Empty,
            AssembleStop::Cycle(d) => StopView::Cycle(d),
        }
    }
}

/// The text of an absent object's error.
pub open spec fn not_found_text(what: Seq<char>) -> Seq<char> {
    what + " not in store"@
}

/// Describes an object that is absent.
pub fn not_found(what: &str) -> (r: String)
    ensures
        r@ == not_found_text(what@),
{
    cat(what, " not in store")
}

/// The text of a conflict's error.
pub open spec fn conflict_text(name: Seq<char>) -> Seq<char> {
    "conflicting entries for "@ + quoted(name) + " while assembling tree"@
}

/// Describes a conflict.
pub fn conflict(name: &str) -> (r: String)
    ensures
        r@ == conflict_text(name@),
{
    cat3("conflicting entries for ", &quote(name), " while assembling tree")
}

/// A tree as it was read.
pub open spec fn loaded(f: FactsView, d: Digest) -> Result<Entries, StopView> {
    if !f.trees.contains_key(d) {
        Err(StopView::NeedTree(d))
    } else {
        match f.trees[d] {
            Some(t) => Ok(t),
            None => Err(StopView::NotFound(d)),
        }
    }
}

/// The digest of a stored tree, looked for from a position on.
pub open spec fn stored_from(stored: Seq<(Entries, Digest)>, t: Entries, k: int) -> Option<Digest>
    decreases stored.len() - k,
{
    if k < 0 || k >= stored.len() {
        None
    } else if stored[k].0 == t {
        Some(stored[k].1)
    } else {
        stored_from(stored, t, k + 1)
    }
}

/// The digest of a tree that is stored.
pub open spec fn kept(f: FactsView, t: Entries) -> Result<Digest, StopView> {
    match stored_from(f.stored, t, 0) {
        Some(d) => Ok(d),
        None => Err(StopView::NeedStored(t)),
    }
}

/// A tree overlaid by another: directories of one name are overlaid in turn,
/// other entries of one name are a conflict unless they are equal.
pub open spec fn merged(f: FactsView, base: Digest, overlay: Digest, fuel: nat) -> Result<
    Digest,
    StopView,
>
    decreases fuel, 1nat, 0nat,
{
    if base == overlay {
        Ok(base)
    } else {
        match loaded(f, base) {
            Err(e) => Err(e),
            Ok(left) => match loaded(f, overlay) {
                Err(e) => Err(e),
                Ok(right) => {
                    let names = ascending_of(right.dom());
                    match overlaid(f, left, right, names, names.len() as nat, fuel) {
                        Err(e) => Err(e),
                        Ok(t) => kept(f, t),
                    }
                },
            },
        }
    }
}

/// The entries of a tree overlaid by the first `n` entries of another.
pub open spec fn overlaid(
    f: FactsView,
    left: Entries,
    right: Entries,
    names: Seq<Seq<char>>,
    n: nat,
    fuel: nat,
) -> Result<Entries, StopView>
    decreases fuel, 0nat, n,
{
    if n == 0 {
        Ok(left)
    } else {
        match overlaid(f, left, right, names, (n - 1) as nat, fuel) {
            Err(e) => Err(e),
            Ok(t) => {
                let name = names[n - 1];
                match combined(f, entry_of(t, name), right[name], name, fuel) {
                    Err(e) => Err(e),
                    Ok(e) => Ok(t.insert(name, e)),
                }
            },
        }
    }
}

/// The entry of a name, if there is one.
pub open spec fn entry_of(t: Entries, name: Seq<char>) -> Option<EntryView> {
    if t.contains_key(name) {
        Some(t[name])
    } else {
        None
    }
}

/// What becomes of an entry that meets another of its name: directories merge,
/// equal entries stay, and anything else is a conflict.
pub open spec fn combined(
    f: FactsView,
    left: Option<EntryView>,
    right: EntryView,
    name: Seq<char>,
    fuel: nat,
) -> Result<EntryView, StopView>
    decreases fuel, 0nat, 0nat,
{
    match (left, right) {
        (Some(EntryView::Directory(l)), EntryView::Directory(r)) => if fuel == 0 {
            Err(StopView::Cycle(r))
        } else {
            match merged(f, l, r, (fuel - 1) as nat) {
                Ok(d) => Ok(EntryView::Directory(d)),
                Err(e) => Err(e),
            }
        },
        (Some(l), r) => if l == r {
            Ok(r)
        } else {
            Err(StopView::Conflict(name))
        },
        (None, e) => Ok(e),
    }
}

/// What an outcome is.
pub open spec fn outcome(r: Result<Digest, AssembleStop>) -> Result<Digest, StopView> {
    match r {
        Ok(d) => Ok(d),
        Err(e) => Err(e@),
    }
}

fn load<'a>(facts: &'a StoreFacts, d: &Digest) -> (r: Result<&'a StrMap<TreeEntry>, AssembleStop>)
    ensures
        match r {
            Ok(t) => loaded(facts@, *d) == Ok::<Entries, StopView>(tree_view(*t)),
            Err(e) => loaded(facts@, *d) == Err::<Entries, StopView>(e@),
        },
{
    match facts.trees.get(d) {
        None => {
            assert(!facts@.trees.contains_key(*d));
            Err(AssembleStop::NeedTree(*d))
        },
        Some(t) => {
            assert(facts@.trees.contains_key(*d) && facts@.trees[*d] == tree_opt(*t));
            match t {
                None => Err(AssembleStop::NotFound(*d)),
                Some(m) => Ok(m),
            }
        },
    }
}

/// What stored trees are.
pub open spec fn stored_view(v: Seq<(StrMap<TreeEntry>, Digest)>) -> Seq<(Entries, Digest)> {
    v.map_values(|p: (StrMap<TreeEntry>, Digest)| (tree_view(p.0), p.1))
}

/// Finds the digest of a stored tree; gives the tree back where it is not stored.
pub fn keep_tree(stored: &Vec<(StrMap<TreeEntry>, Digest)>, t: StrMap<TreeEntry>) -> (r: Result<
    Digest,
    StrMap<TreeEntry>,
>)
    ensures
        match r {
            Ok(d) => stored_from(stored_view(stored@), tree_view(t), 0) == Some(d),
            Err(u) => u == t && stored_from(stored_view(stored@), tree_view(t), 0) is None,
        },
{
    let ghost all = stored_view(stored@);
    let mut k: usize = 0;
    while k < stored.len()
        invariant
            k <= stored@.len(),
            all == stored_view(stored@),
            all.len() == stored@.len(),
            stored_from(all, tree_view(t), 0) == stored_from(all, tree_view(t), k as int),
        decreases stored@.len() - k,
    {
        assert(all[k as int] == (tree_view(stored@[k as int].0), stored@[k as int].1));
        if same_tree(&stored[k].0, &t) {
            return Ok(stored[k].1);
        }
        k += 1;
    }
    Err(t)
}

fn keep(facts: &StoreFacts, t: StrMap<TreeEntry>) -> (r: Result<Digest, AssembleStop>)
    ensures
        outcome(r) == kept(facts@, tree_view(t)),
{
    assert(facts@.stored == stored_view(facts.stored@));
    match keep_tree(&facts.stored, t) {
        Ok(d) => Ok(d),
        Err(u) => Err(AssembleStop::NeedStored(u)),
    }
}

proof fn lemma_overlaid_fails(
    f: FactsView,
    left: Entries,
    right: Entries,
    names: Seq<Seq<char>>,
    k: nat,
    n: nat,
    fuel: nat,
)
    requires
        k <= n,
        overlaid(f, left, right, names, k, fuel) is Err,
    ensures
        overlaid(f, left, right, names, n, fuel) == overlaid(f, left, right, names, k, fuel),
    decreases n,
{
    if k < n {
        lemma_overlaid_fails(f, left, right, names, k, (n - 1) as nat, fuel);
    }
}

fn insert_entry(t: &mut StrMap<TreeEntry>, name: &str, e: TreeEntry)
    ensures
        tree_view(*final(t)) == tree_view(*old(t)).insert(name@, e@),
{
    let ghost before = *t;
    t.insert(owned(name), e);
    assert(tree_view(*t) =~= tree_view(before).insert(name@, e@));
}

fn merge(facts: &StoreFacts, base: &Digest, overlay: &Digest, fuel: usize) -> (r: Result<
    Digest,
    AssembleStop,
>)
    ensures
        outcome(r) == merged(facts@, *base, *overlay, fuel as nat),
    decreases fuel,
{
    if *base == *overlay {
        return Ok(*base);
    }
    let left = match load(facts, base) {
        Ok(t) => t,
        Err(e) => return Err(e),
    };
    let right = match load(facts, overlay) {
        Ok(t) => t,
        Err(e) => return Err(e),
    };
    let ghost f = facts@;
    let ghost l = tree_view(*left);
    let ghost r = tree_view(*right);
    let mut entries = copy_tree(left);
    let n = right.len();
    let ghost names = right.keys();
    proof {
        lemma_tree_names(right);
    }
    let mut k: usize = 0;
    while k < n
        invariant
            k <= n,
            n == names.len(),
            names == right.keys(),
            names == ascending_of(r.dom()),
            r == tree_view(*right),
            f == facts@,
            *base != *overlay,
            loaded(f, *base) == Ok::<Entries, StopView>(l),
            loaded(f, *overlay) == Ok::<Entries, StopView>(r),
            overlaid(f, l, r, names, k as nat, fuel as nat) == Ok::<Entries, StopView>(
                tree_view(entries),
            ),
        decreases n - k,
    {
        let name = right.key(k);
        let incoming = right.value(k);
        let ghost t = tree_view(entries);
        assert(names[k as int] == name@);
        assert(r[name@] == incoming@);
        let next = match (entries.get(name), incoming) {
            (Some(TreeEntry::Directory(x)), TreeEntry::Directory(y)) => {
                if fuel == 0 {
                    Err(AssembleStop::Cycle(*y))
                } else {
                    match merge(facts, x, y, fuel - 1) {
                        Ok(d) => Ok(TreeEntry::Directory(d)),
                        Err(e) => Err(e),
                    }
                }
            },
            (Some(x), y) => if same_entry(x, y) {
                Ok(copy_entry(y))
            } else {
                Err(AssembleStop::Conflict(name.clone()))
            },
            (None, e) => Ok(copy_entry(e)),
        };
        match next {
            Ok(e) => {
                assert(combined(f, entry_of(t, name@), r[name@], name@, fuel as nat) == Ok::<
                    EntryView,
                    StopView,
                >(e@));
                insert_entry(&mut entries, name, e);
            },
            Err(e) => {
                proof {
                    assert(combined(f, entry_of(t, name@), r[name@], name@, fuel as nat) == Err::<
                        EntryView,
                        StopView,
                    >(e@));
                    lemma_overlaid_fails(f, l, r, names, (k + 1) as nat, n as nat, fuel as nat);
                }
                return Err(e);
            },
        }
        k += 1;
    }
    keep(facts, entries)
}

pub proof fn lemma_tree_names(t: &StrMap<TreeEntry>)
    requires
        ascending(t.keys()),
    ensures
        t.keys() == ascending_of(tree_view(*t).dom()),
{
    let v = tree_view(*t);
    vstd::seq_lib::seq_to_set_is_finite(t.keys());
    assert(v.dom() =~= t.keys().to_set());
    lemma_ascending_of(v.dom());
    assert forall|k: Seq<char>| t.keys().contains(k) <==> ascending_of(v.dom()).contains(k) by {
        assert(v.dom().contains(k) <==> t@.contains_key(k));
    }
    lemma_ascending_unique(t.keys(), ascending_of(v.dom()));
}

// ---- Mounts ------------------------------------------------------------------------------

/// A tree at a mount point, the names on the way to it.
pub struct Mount {
    /// The names, from the root.
    pub path: Vec<String>,
    /// The tree.
    pub tree: Digest,
}

/// What mounts are.
pub open spec fn mounts_view(v: Seq<Mount>) -> Seq<(Seq<Seq<char>>, Digest)> {
    v.map_values(|m: Mount| (texts(m.path@), m.tree))
}

/// The names on the way to a mount point: none for `.`.
pub open spec fn mount_path(point: Seq<char>) -> Seq<Seq<char>> {
    if point == "."@ {
        Seq::empty()
    } else {
        split_spec(point, '/')
    }
}

/// The trees that are mounted right here, among the first `n` mounts.
pub open spec fn here(mounts: Seq<(Seq<Seq<char>>, Digest)>, n: int) -> Seq<Digest>
    decreases n,
{
    if n <= 0 {
        Seq::empty()
    } else if mounts[n - 1].0.len() == 0 {
        here(mounts, n - 1).push(mounts[n - 1].1)
    } else {
        here(mounts, n - 1)
    }
}

/// The mounts below a name, as seen from there, among the first `n` mounts.
pub open spec fn below(mounts: Seq<(Seq<Seq<char>>, Digest)>, name: Seq<char>, n: int) -> Seq<
    (Seq<Seq<char>>, Digest),
>
    decreases n,
{
    if n <= 0 {
        Seq::empty()
    } else if mounts[n - 1].0.len() > 0 && mounts[n - 1].0[0] == name {
        below(mounts, name, n - 1).push((mounts[n - 1].0.skip(1), mounts[n - 1].1))
    } else {
        below(mounts, name, n - 1)
    }
}

/// The names below which the first `n` mounts are.
pub open spec fn first_names(mounts: Seq<(Seq<Seq<char>>, Digest)>, n: int) -> Set<Seq<char>>
    decreases n,
{
    if n <= 0 {
        Set::empty()
    } else if mounts[n - 1].0.len() > 0 {
        first_names(mounts, n - 1).insert(mounts[n - 1].0[0])
    } else {
        first_names(mounts, n - 1)
    }
}

/// The length of the longest way among the first `n` mounts.
pub open spec fn deepest(mounts: Seq<(Seq<Seq<char>>, Digest)>, n: int) -> nat
    decreases n,
{
    if n <= 0 {
        0
    } else {
        let before = deepest(mounts, n - 1);
        if mounts[n - 1].0.len() > before {
            mounts[n - 1].0.len()
        } else {
            before
        }
    }
}

/// The first `n` trees overlaid in turn.
pub open spec fn stacked(f: FactsView, roots: Seq<Digest>, n: int, fuel: nat) -> Result<
    Option<Digest>,
    StopView,
>
    decreases n,
{
    if n <= 0 {
        Ok(None)
    } else {
        match stacked(f, roots, n - 1, fuel) {
            Err(e) => Err(e),
            Ok(None) => Ok(Some(roots[n - 1])),
            Ok(Some(base)) => match merged(f, base, roots[n - 1], fuel) {
                Ok(d) => Ok(Some(d)),
                Err(e) => Err(e),
            },
        }
    }
}

/// The tree that mounts make: the trees mounted here overlaid in turn, with what
/// the mounts below each name make overlaid under that name.
pub open spec fn mounted(
    f: FactsView,
    mounts: Seq<(Seq<Seq<char>>, Digest)>,
    depth: nat,
    fuel: nat,
) -> Result<Digest, StopView>
    decreases depth, 1nat, 0nat,
{
    let n = mounts.len() as int;
    let roots = here(mounts, n);
    match stacked(f, roots, roots.len() as int, fuel) {
        Err(e) => Err(e),
        Ok(base) => {
            let names = ascending_of(first_names(mounts, n));
            if names.len() == 0 {
                match base {
                    Some(d) => Ok(d),
                    None => Err(StopView::Empty),
                }
            } else {
                match (match base {
                    Some(d) => loaded(f, d),
                    None => Ok(Map::empty()),
                }) {
                    Err(e) => Err(e),
                    Ok(entries) => match with_children(
                        f,
                        mounts,
                        entries,
                        names,
                        names.len() as nat,
                        depth,
                        fuel,
                    ) {
                        Err(e) => Err(e),
                        Ok(t) => kept(f, t),
                    },
                }
            }
        },
    }
}

/// Entries with what the mounts below the first `n` names make overlaid.
pub open spec fn with_children(
    f: FactsView,
    mounts: Seq<(Seq<Seq<char>>, Digest)>,
    entries: Entries,
    names: Seq<Seq<char>>,
    n: nat,
    depth: nat,
    fuel: nat,
) -> Result<Entries, StopView>
    decreases depth, 0nat, n,
{
    if n == 0 || depth == 0 {
        Ok(entries)
    } else {
        match with_children(f, mounts, entries, names, (n - 1) as nat, depth, fuel) {
            Err(e) => Err(e),
            Ok(t) => {
                let name = names[n - 1];
                match mounted(
                    f,
                    below(mounts, name, mounts.len() as int),
                    (depth - 1) as nat,
                    fuel,
                ) {
                    Err(e) => Err(e),
                    Ok(child) => match entry_of(t, name) {
                        None => Ok(t.insert(name, EntryView::Directory(child))),
                        Some(EntryView::Directory(existing)) => match merged(
                            f,
                            existing,
                            child,
                            fuel,
                        ) {
                            Ok(d) => Ok(t.insert(name, EntryView::Directory(d))),
                            Err(e) => Err(e),
                        },
                        Some(other) => Err(StopView::Conflict(name)),
                    },
                }
            },
        }
    }
}

/// The tree that mounts make.
pub open spec fn assembled(f: FactsView, mounts: Seq<(Seq<Seq<char>>, Digest)>) -> Result<
    Digest,
    StopView,
> {
    mounted(f, mounts, deepest(mounts, mounts.len() as int), f.trees.dom().len())
}

fn first_names_of(mounts: &Vec<Mount>) -> (r: StrSet)
    ensures
        r@ == first_names(mounts_view(mounts@), mounts@.len() as int),
{
    let ghost v = mounts_view(mounts@);
    let mut out = StrSet::new();
    let mut i: usize = 0;
    while i < mounts.len()
        invariant
            i <= mounts@.len(),
            v == mounts_view(mounts@),
            out@ == first_names(v, i as int),
        decreases mounts@.len() - i,
    {
        assert(v[i as int].0 == texts(mounts@[i as int].path@));
        if mounts[i].path.len() > 0 {
            assert(v[i as int].0[0] == mounts@[i as int].path@[0]@);
            out.insert(mounts[i].path[0].clone());
        }
        i += 1;
    }
    out
}

fn roots_of(mounts: &Vec<Mount>) -> (r: Vec<Digest>)
    ensures
        r@ == here(mounts_view(mounts@), mounts@.len() as int),
{
    let ghost v = mounts_view(mounts@);
    let mut out: Vec<Digest> = Vec::new();
    let mut i: usize = 0;
    while i < mounts.len()
        invariant
            i <= mounts@.len(),
            v == mounts_view(mounts@),
            out@ == here(v, i as int),
        decreases mounts@.len() - i,
    {
        assert(v[i as int].0 == texts(mounts@[i as int].path@));
        if mounts[i].path.len() == 0 {
            out.push(mounts[i].tree);
        }
        i += 1;
    }
    out
}

fn below_of(mounts: &Vec<Mount>, name: &str) -> (r: Vec<Mount>)
    ensures
        mounts_view(r@) == below(mounts_view(mounts@), name@, mounts@.len() as int),
{
    let ghost v = mounts_view(mounts@);
    let mut out: Vec<Mount> = Vec::new();
    let mut i: usize = 0;
    assert(mounts_view(out@) =~= Seq::<(Seq<Seq<char>>, Digest)>::empty());
    while i < mounts.len()
        invariant
            i <= mounts@.len(),
            v == mounts_view(mounts@),
            mounts_view(out@) == below(v, name@, i as int),
        decreases mounts@.len() - i,
    {
        assert(v[i as int].0 == texts(mounts@[i as int].path@));
        if mounts[i].path.len() > 0 {
            assert(v[i as int].0[0] == mounts@[i as int].path@[0]@);
            if same(&mounts[i].path[0], name) {
                let ghost before = out@;
                let m = Mount { path: tail(&mounts[i].path, 1), tree: mounts[i].tree };
                assert(texts(m.path@) =~= v[i as int].0.skip(1));
                out.push(m);
                assert(mounts_view(out@) =~= mounts_view(before).push(
                    (v[i as int].0.skip(1), v[i as int].1),
                ));
            }
        }
        i += 1;
    }
    out
}

/// What an outcome with or without a tree is.
pub open spec fn base_outcome(r: Result<Option<Digest>, AssembleStop>) -> Result<
    Option<Digest>,
    StopView,
> {
    match r {
        Ok(d) => Ok(d),
        Err(e) => Err(e@),
    }
}

proof fn lemma_stacked_fails(f: FactsView, roots: Seq<Digest>, k: int, n: int, fuel: nat)
    requires
        0 <= k <= n,
        stacked(f, roots, k, fuel) is Err,
    ensures
        stacked(f, roots, n, fuel) == stacked(f, roots, k, fuel),
    decreases n,
{
    if k < n {
        lemma_stacked_fails(f, roots, k, n - 1, fuel);
    }
}

fn stack(facts: &StoreFacts, roots: &Vec<Digest>, fuel: usize) -> (r: Result<
    Option<Digest>,
    AssembleStop,
>)
    ensures
        base_outcome(r) == stacked(facts@, roots@, roots@.len() as int, fuel as nat),
{
    let mut base: Option<Digest> = None;
    let mut i: usize = 0;
    while i < roots.len()
        invariant
            i <= roots@.len(),
            stacked(facts@, roots@, i as int, fuel as nat) == Ok::<Option<Digest>, StopView>(base),
        decreases roots@.len() - i,
    {
        match base {
            None => {
                base = Some(roots[i]);
            },
            Some(d) => match merge(facts, &d, &roots[i], fuel) {
                Ok(m) => {
                    base = Some(m);
                },
                Err(e) => {
                    proof {
                        lemma_stacked_fails(
                            facts@,
                            roots@,
                            i as int + 1,
                            roots@.len() as int,
                            fuel as nat,
                        );
                    }
                    return Err(e);
                },
            },
        }
        i += 1;
    }
    Ok(base)
}

proof fn lemma_children_fail(
    f: FactsView,
    mounts: Seq<(Seq<Seq<char>>, Digest)>,
    entries: Entries,
    names: Seq<Seq<char>>,
    k: nat,
    n: nat,
    depth: nat,
    fuel: nat,
)
    requires
        k <= n,
        with_children(f, mounts, entries, names, k, depth, fuel) is Err,
    ensures
        with_children(f, mounts, entries, names, n, depth, fuel) == with_children(
            f,
            mounts,
            entries,
            names,
            k,
            depth,
            fuel,
        ),
    decreases n,
{
    if k < n {
        lemma_children_fail(f, mounts, entries, names, k, (n - 1) as nat, depth, fuel);
    }
}

fn store(facts: &StoreFacts, mounts: &Vec<Mount>, depth: usize, fuel: usize) -> (r: Result<
    Digest,
    AssembleStop,
>)
    requires
        deepest(mounts_view(mounts@), mounts@.len() as int) <= depth,
    ensures
        outcome(r) == mounted(facts@, mounts_view(mounts@), depth as nat, fuel as nat),
    decreases depth,
{
    let ghost f = facts@;
    let ghost v = mounts_view(mounts@);
    let roots = roots_of(mounts);
    let base = match stack(facts, &roots, fuel) {
        Ok(b) => b,
        Err(e) => return Err(e),
    };
    let set = first_names_of(mounts);
    let n = set.len();
    let ghost names = set.items();
    proof {
        lemma_first_names_finite(v, v.len() as int);
        lemma_ascending_of(set@);
        lemma_ascending_unique(names, ascending_of(set@));
    }
    if n == 0 {
        return match base {
            Some(d) => Ok(d),
            None => Err(AssembleStop::Empty),
        };
    }
    let mut entries: StrMap<TreeEntry> = match &base {
        Some(d) => match load(facts, d) {
            Ok(t) => copy_tree(t),
            Err(e) => return Err(e),
        },
        None => StrMap::new(),
    };
    let ghost first = tree_view(entries);
    proof {
        if base is None {
            assert(first =~= Map::empty());
        }
        lemma_names_deep(v, v.len() as int, names[0]);
        assert(depth > 0);
    }
    let mut k: usize = 0;
    while k < n
        invariant
            k <= n,
            n > 0,
            depth > 0,
            f == facts@,
            v == mounts_view(mounts@),
            v.len() == mounts@.len(),
            deepest(v, v.len() as int) <= depth,
            names == set.items(),
            n == names.len(),
            names == ascending_of(first_names(v, v.len() as int)),
            stacked(f, here(v, v.len() as int), here(v, v.len() as int).len() as int, fuel as nat)
                == Ok::<Option<Digest>, StopView>(base),
            (match base {
                Some(d) => loaded(f, d),
                None => Ok::<Entries, StopView>(Map::empty()),
            }) == Ok::<Entries, StopView>(first),
            with_children(f, v, first, names, k as nat, depth as nat, fuel as nat) == Ok::<
                Entries,
                StopView,
            >(tree_view(entries)),
        decreases n - k,
    {
        let name = set.item(k);
        let ghost t = tree_view(entries);
        assert(names[k as int] == name@);
        let inner = below_of(mounts, name);
        proof {
            lemma_below_deep(v, name@, v.len() as int, depth as nat);
            assert(mounts_view(inner@).len() == inner@.len());
        }
        let child = match store(facts, &inner, depth - 1, fuel) {
            Ok(c) => c,
            Err(e) => {
                proof {
                    lemma_children_fail(
                        f,
                        v,
                        first,
                        names,
                        (k + 1) as nat,
                        n as nat,
                        depth as nat,
                        fuel as nat,
                    );
                }
                return Err(e);
            },
        };
        let next = match entries.get(name) {
            None => Ok(child),
            Some(TreeEntry::Directory(existing)) => merge(facts, existing, &child, fuel),
            Some(other) => Err(AssembleStop::Conflict(name.clone())),
        };
        match next {
            Ok(d) => {
                insert_entry(&mut entries, name, TreeEntry::Directory(d));
            },
            Err(e) => {
                proof {
                    lemma_children_fail(
                        f,
                        v,
                        first,
                        names,
                        (k + 1) as nat,
                        n as nat,
                        depth as nat,
                        fuel as nat,
                    );
                }
                return Err(e);
            },
        }
        k += 1;
    }
    keep(facts, entries)
}

proof fn lemma_first_names_finite(mounts: Seq<(Seq<Seq<char>>, Digest)>, n: int)
    ensures
        first_names(mounts, n).finite(),
    decreases n,
{
    if n > 0 {
        lemma_first_names_finite(mounts, n - 1);
    }
}

proof fn lemma_names_deep(mounts: Seq<(Seq<Seq<char>>, Digest)>, n: int, name: Seq<char>)
    requires
        first_names(mounts, n).contains(name),
        n <= mounts.len(),
    ensures
        deepest(mounts, n) > 0,
    decreases n,
{
    if n > 0 && first_names(mounts, n - 1).contains(name) {
        lemma_names_deep(mounts, n - 1, name);
    }
}

proof fn lemma_below_deep(
    mounts: Seq<(Seq<Seq<char>>, Digest)>,
    name: Seq<char>,
    n: int,
    depth: nat,
)
    requires
        0 <= n <= mounts.len(),
        deepest(mounts, n) <= depth,
        depth > 0,
    ensures
        deepest(below(mounts, name, n), below(mounts, name, n).len() as int) <= depth - 1,
    decreases n,
{
    if n > 0 {
        lemma_below_deep(mounts, name, n - 1, depth);
        let b = below(mounts, name, n - 1);
        let c = below(mounts, name, n);
        if mounts[n - 1].0.len() > 0 && mounts[n - 1].0[0] == name {
            lemma_deepest_prefix(b, c, b.len() as int);
        }
    }
}

proof fn lemma_deepest_prefix(
    a: Seq<(Seq<Seq<char>>, Digest)>,
    b: Seq<(Seq<Seq<char>>, Digest)>,
    n: int,
)
    requires
        n <= a.len(),
        n <= b.len(),
        forall|i: int| 0 <= i < n ==> a[i] == b[i],
    ensures
        deepest(a, n) == deepest(b, n),
    decreases n,
{
    if n > 0 {
        lemma_deepest_prefix(a, b, n - 1);
    }
}

/// The names on the way to a mount point: none for `.`.
pub fn mount_path_of(point: &str) -> (r: Vec<String>)
    ensures
        texts(r@) == mount_path(point@),
{
    if same(point, ".") {
        let r: Vec<String> = Vec::new();
        assert(texts(r@) =~= mount_path(point@));
        return r;
    }
    split(point, '/')
}

fn deepest_of(mounts: &Vec<Mount>) -> (r: usize)
    ensures
        r == deepest(mounts_view(mounts@), mounts@.len() as int),
{
    let ghost v = mounts_view(mounts@);
    let mut out: usize = 0;
    let mut i: usize = 0;
    while i < mounts.len()
        invariant
            i <= mounts@.len(),
            v == mounts_view(mounts@),
            out == deepest(v, i as int),
        decreases mounts@.len() - i,
    {
        assert(v[i as int].0.len() == mounts@[i as int].path@.len());
        if mounts[i].path.len() > out {
            out = mounts[i].path.len();
        }
        i += 1;
    }
    out
}

/// What mount points and their trees are.
pub open spec fn points_view(v: Seq<(String, Digest)>) -> Seq<(Seq<Seq<char>>, Digest)> {
    v.map_values(|m: (String, Digest)| (mount_path(m.0@), m.1))
}

/// Assembles a single tree from mounts: mount points, each with a tree.
///
/// The mount point `.` merges the tree at the root. Mounts under directories
/// create intermediate directories as needed; conflicting non-directory entries
/// are an error. An entry that meets its equal is no conflict.
pub fn assemble(facts: &StoreFacts, mounts: &Vec<(String, Digest)>) -> (r: Result<
    Digest,
    AssembleStop,
>)
    ensures
        outcome(r) == assembled(facts@, points_view(mounts@)),
{
    let mut parts: Vec<Mount> = Vec::new();
    let ghost v = points_view(mounts@);
    let mut i: usize = 0;
    assert(mounts_view(parts@) =~= v.take(0));
    while i < mounts.len()
        invariant
            i <= mounts@.len(),
            v == points_view(mounts@),
            mounts_view(parts@) == v.take(i as int),
        decreases mounts@.len() - i,
    {
        let ghost before = parts@;
        let m = Mount { path: mount_path_of(&mounts[i].0), tree: mounts[i].1 };
        parts.push(m);
        assert(v[i as int] == (mount_path(mounts@[i as int].0@), mounts@[i as int].1));
        assert(mounts_view(parts@) =~= mounts_view(before).push(v[i as int]));
        i += 1;
        assert(mounts_view(parts@) =~= v.take(i as int));
    }
    assert(mounts_view(parts@) =~= v);
    let fuel = facts.trees.len();
    proof {
        lemma_digests_distinct(facts.trees.keys());
        facts.trees.keys().unique_seq_to_set();
        assert(facts@.trees.dom() =~= facts.trees.keys().to_set());
        assert(v.len() == parts@.len());
    }
    let depth = deepest_of(&parts);
    store(facts, &parts, depth, fuel)
}

// ---- What an assembled tree holds --------------------------------------------------------

/// What stands at a path.
pub enum Item {
    Directory,
    File { digest: Digest, executable: bool },
    Symlink { target: Seq<char> },
}

/// What stands at a path below a tree, as far as trees are known.
pub open spec fn content(f: FactsView, d: Digest, path: Seq<Seq<char>>) -> Option<Item>
    decreases path.len(),
{
    if path.len() == 0 {
        Some(Item::Directory)
    } else if f.trees.contains_key(d) && f.trees[d] is Some && f.trees[d]->0.contains_key(path[0]) {
        item_at(f, f.trees[d]->0[path[0]], path)
    } else {
        None
    }
}

/// What stands at a path whose first name is that of an entry.
pub open spec fn item_at(f: FactsView, e: EntryView, path: Seq<Seq<char>>) -> Option<Item>
    decreases path.len(), 0nat,
    when path.len() > 0
{
    match e {
        EntryView::Directory(sub) => content(f, sub, path.skip(1)),
        EntryView::File { digest, executable } => if path.len() == 1 {
            Some(Item::File { digest, executable })
        } else {
            None
        },
        EntryView::Symlink { target } => if path.len() == 1 {
            Some(Item::Symlink { target })
        } else {
            None
        },
    }
}

/// The later of two items of one path, where there is one.
pub open spec fn over(earlier: Option<Item>, later: Option<Item>) -> Option<Item> {
    if later is Some {
        later
    } else {
        earlier
    }
}

/// Whether the stored trees can be read back under their digests.
pub open spec fn reads_back(f: FactsView) -> bool {
    forall|k: int|
        0 <= k < f.stored.len() ==> f.trees.contains_key((#[trigger] f.stored[k]).1)
            && f.trees[f.stored[k].1] == Some(f.stored[k].0)
}

pub proof fn lemma_kept_reads_back(f: FactsView, t: Entries, k: int)
    requires
        reads_back(f),
        stored_from(f.stored, t, k) is Some,
    ensures
        f.trees.contains_key(stored_from(f.stored, t, k)->0),
        f.trees[stored_from(f.stored, t, k)->0] == Some(t),
    decreases f.stored.len() - k,
{
    if f.stored[k].0 != t {
        lemma_kept_reads_back(f, t, k + 1);
    }
}

proof fn lemma_overlaid_entry(
    f: FactsView,
    left: Entries,
    right: Entries,
    names: Seq<Seq<char>>,
    n: nat,
    fuel: nat,
    name: Seq<char>,
)
    requires
        overlaid(f, left, right, names, n, fuel) is Ok,
        n <= names.len(),
        names.no_duplicates(),
    ensures
        ({
            let t = overlaid(f, left, right, names, n, fuel)->Ok_0;
            if names.take(n as int).contains(name) {
                &&& combined(f, entry_of(left, name), right[name], name, fuel) is Ok
                &&& entry_of(t, name) == Some(
                    combined(f, entry_of(left, name), right[name], name, fuel)->Ok_0,
                )
            } else {
                entry_of(t, name) == entry_of(left, name)
            }
        }),
    decreases n,
{
    if n > 0 {
        let m = (n - 1) as nat;
        lemma_overlaid_entry(f, left, right, names, m, fuel, name);
        lemma_overlaid_entry(f, left, right, names, m, fuel, names[m as int]);
        let b = names.take(m as int);
        let c = names.take(n as int);
        assert(c =~= b.push(names[m as int]));
        if b.contains(names[m as int]) {
            let i = choose|i: int| 0 <= i < b.len() && b[i] == names[m as int];
            assert(names[i] == names[m as int]);
        }
        if b.contains(name) {
            let i = choose|i: int| 0 <= i < b.len() && b[i] == name;
            assert(c[i] == name);
        }
        if c.contains(name) && name != names[m as int] {
            let i = choose|i: int| 0 <= i < c.len() && c[i] == name;
            assert(b[i] == name);
        }
        assert(c[m as int] == names[m as int]);
    }
}

/// A tree overlaid by another holds at each path what the later tree holds
/// there, and elsewhere what the earlier one does. Nothing of either is lost.
pub proof fn overlays_hold_both(
    f: FactsView,
    base: Digest,
    overlay: Digest,
    fuel: nat,
    path: Seq<Seq<char>>,
)
    requires
        reads_back(f),
        finite_trees(f),
        merged(f, base, overlay, fuel) is Ok,
    ensures
        content(f, merged(f, base, overlay, fuel)->Ok_0, path) == over(
            content(f, base, path),
            content(f, overlay, path),
        ),
        content(f, base, path) is Some ==> content(
            f,
            merged(f, base, overlay, fuel)->Ok_0,
            path,
        ) == content(f, base, path),
    decreases fuel,
{
    if base != overlay && path.len() > 0 {
        let left = f.trees[base]->0;
        let right = f.trees[overlay]->0;
        let names = ascending_of(right.dom());
        lemma_ascending_of(right.dom());
        lemma_ascending_distinct(names);
        let n = names.len() as nat;
        let t = overlaid(f, left, right, names, n, fuel)->Ok_0;
        lemma_kept_reads_back(f, t, 0);
        let name = path[0];
        lemma_overlaid_entry(f, left, right, names, n, fuel, name);
        assert(names.take(n as int) =~= names);
        assert(right.contains_key(name) <==> names.contains(name));
        if right.contains_key(name) && left.contains_key(name) {
            match (left[name], right[name]) {
                (EntryView::Directory(l), EntryView::Directory(r)) => {
                    overlays_hold_both(f, l, r, (fuel - 1) as nat, path.skip(1));
                },
                _ => {},
            }
        }
    }
}

/// What the first `n` trees hold at a path, the later over the earlier.
pub open spec fn stacked_content(
    f: FactsView,
    roots: Seq<Digest>,
    n: int,
    path: Seq<Seq<char>>,
) -> Option<Item>
    decreases n,
{
    if n <= 0 {
        None
    } else {
        over(stacked_content(f, roots, n - 1, path), content(f, roots[n - 1], path))
    }
}

/// What mounts hold at a path: what is mounted below the path's first name over
/// what the trees mounted here hold.
pub open spec fn mounted_content(
    f: FactsView,
    mounts: Seq<(Seq<Seq<char>>, Digest)>,
    path: Seq<Seq<char>>,
) -> Option<Item>
    decreases path.len(),
{
    let n = mounts.len() as int;
    let roots = here(mounts, n);
    let base = stacked_content(f, roots, roots.len() as int, path);
    if path.len() == 0 {
        Some(Item::Directory)
    } else if first_names(mounts, n).contains(path[0]) {
        over(base, mounted_content(f, below(mounts, path[0], n), path.skip(1)))
    } else {
        base
    }
}

proof fn lemma_stacked_content(
    f: FactsView,
    roots: Seq<Digest>,
    n: int,
    fuel: nat,
    path: Seq<Seq<char>>,
)
    requires
        reads_back(f),
        finite_trees(f),
        stacked(f, roots, n, fuel) is Ok,
        0 <= n <= roots.len(),
    ensures
        stacked(f, roots, n, fuel)->Ok_0 is Some <==> n > 0,
        n > 0 ==> content(f, stacked(f, roots, n, fuel)->Ok_0->0, path) == stacked_content(
            f,
            roots,
            n,
            path,
        ),
    decreases n,
{
    if n > 0 {
        lemma_stacked_content(f, roots, n - 1, fuel, path);
        if n > 1 {
            let base = stacked(f, roots, n - 1, fuel)->Ok_0->0;
            overlays_hold_both(f, base, roots[n - 1], fuel, path);
        }
    }
}

proof fn lemma_children_entry(
    f: FactsView,
    mounts: Seq<(Seq<Seq<char>>, Digest)>,
    entries: Entries,
    names: Seq<Seq<char>>,
    n: nat,
    depth: nat,
    fuel: nat,
    name: Seq<char>,
)
    requires
        with_children(f, mounts, entries, names, n, depth, fuel) is Ok,
        n <= names.len(),
        names.no_duplicates(),
        depth > 0,
    ensures
        ({
            let t = with_children(f, mounts, entries, names, n, depth, fuel)->Ok_0;
            let child = mounted(
                f,
                below(mounts, name, mounts.len() as int),
                (depth - 1) as nat,
                fuel,
            );
            if names.take(n as int).contains(name) {
                &&& child is Ok
                &&& match entry_of(entries, name) {
                    None => entry_of(t, name) == Some(EntryView::Directory(child->Ok_0)),
                    Some(EntryView::Directory(x)) => {
                        &&& merged(f, x, child->Ok_0, fuel) is Ok
                        &&& entry_of(t, name) == Some(
                            EntryView::Directory(merged(f, x, child->Ok_0, fuel)->Ok_0),
                        )
                    },
                    Some(other) => false,
                }
            } else {
                entry_of(t, name) == entry_of(entries, name)
            }
        }),
    decreases n,
{
    if n > 0 {
        let m = (n - 1) as nat;
        lemma_children_entry(f, mounts, entries, names, m, depth, fuel, name);
        lemma_children_entry(f, mounts, entries, names, m, depth, fuel, names[m as int]);
        let b = names.take(m as int);
        let c = names.take(n as int);
        assert(c =~= b.push(names[m as int]));
        if b.contains(names[m as int]) {
            let i = choose|i: int| 0 <= i < b.len() && b[i] == names[m as int];
            assert(names[i] == names[m as int]);
        }
        if b.contains(name) {
            let i = choose|i: int| 0 <= i < b.len() && b[i] == name;
            assert(c[i] == name);
        }
        if c.contains(name) && name != names[m as int] {
            let i = choose|i: int| 0 <= i < c.len() && c[i] == name;
            assert(b[i] == name);
        }
        assert(c[m as int] == names[m as int]);
    }
}

proof fn lemma_mounted_content(
    f: FactsView,
    mounts: Seq<(Seq<Seq<char>>, Digest)>,
    depth: nat,
    fuel: nat,
    path: Seq<Seq<char>>,
)
    requires
        reads_back(f),
        finite_trees(f),
        deepest(mounts, mounts.len() as int) <= depth,
        mounted(f, mounts, depth, fuel) is Ok,
    ensures
        content(f, mounted(f, mounts, depth, fuel)->Ok_0, path) == mounted_content(
            f,
            mounts,
            path,
        ),
    decreases path.len(),
{
    if path.len() > 0 {
        let n = mounts.len() as int;
        let roots = here(mounts, n);
        lemma_stacked_content(f, roots, roots.len() as int, fuel, path);
        let base = stacked(f, roots, roots.len() as int, fuel)->Ok_0;
        let set = first_names(mounts, n);
        lemma_first_names_finite(mounts, n);
        lemma_ascending_of(set);
        let names = ascending_of(set);
        lemma_ascending_distinct(names);
        let name = path[0];
        assert(set.contains(name) <==> names.contains(name));
        if names.len() > 0 {
            let entries = match base {
                Some(d) => loaded(f, d)->Ok_0,
                None => Map::empty(),
            };
            let k = names.len() as nat;
            assert(names.contains(names[0]));
            lemma_names_deep(mounts, n, names[0]);
            let t = with_children(f, mounts, entries, names, k, depth, fuel)->Ok_0;
            lemma_kept_reads_back(f, t, 0);
            lemma_children_entry(f, mounts, entries, names, k, depth, fuel, name);
            assert(names.take(k as int) =~= names);
            if set.contains(name) {
                let inner = below(mounts, name, n);
                lemma_below_deep(mounts, name, n, depth);
                lemma_mounted_content(f, inner, (depth - 1) as nat, fuel, path.skip(1));
                let child = mounted(f, inner, (depth - 1) as nat, fuel)->Ok_0;
                if let Some(EntryView::Directory(x)) = entry_of(entries, name) {
                    overlays_hold_both(f, x, child, fuel, path.skip(1));
                }
            }
        }
    }
}

/// An assembled tree holds what its mounts hold: at each path what is mounted
/// deepest there, the later of what is mounted at one point over the earlier.
pub proof fn assembled_trees_hold_their_mounts(
    f: FactsView,
    mounts: Seq<(Seq<Seq<char>>, Digest)>,
    path: Seq<Seq<char>>,
)
    requires
        reads_back(f),
        finite_trees(f),
        assembled(f, mounts) is Ok,
    ensures
        content(f, assembled(f, mounts)->Ok_0, path) == mounted_content(f, mounts, path),
{
    lemma_mounted_content(
        f,
        mounts,
        deepest(mounts, mounts.len() as int),
        f.trees.dom().len(),
        path,
    );
}

} // verus!
