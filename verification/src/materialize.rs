//! Materialization of trees, and the rules of capturing and storing.

use vstd::prelude::*;
use vstd::string::*;
use crate::cas::{
    closures_are_complete, complete, complete_in, entry_complete, finite_trees,
    lemma_found_complete, tree_opt, tree_view, Entries, EntryView, FactsView, StoreFacts,
    TreeEntry,
};
use crate::digest::{lemma_digests_distinct, Digest};
use crate::paths::{joined, path_join};
use crate::strmap::{ascending_of, lemma_ascending_of};
use crate::assemble::lemma_tree_names;
use crate::text::owned;

verus! {

// ---- Steps -------------------------------------------------------------------------------

/// A step of writing a tree out.
#[derive(Debug, PartialEq, Eq)]
pub enum Step {
    /// Create a directory and its parents.
    CreateDir(String),
    /// Replace a file by a copy of a blob, with a mode.
    Copy {
        /// The blob.
        blob: Digest,
        /// The file.
        path: String,
        /// Its permissions.
        mode: u32,
    },
    /// Replace a file by a symbolic link.
    Link {
        /// What the link points to.
        target: String,
        /// The link.
        path: String,
    },
}

/// What a step is.
pub enum StepView {
    CreateDir(Seq<char>),
    Copy { blob: Digest, path: Seq<char>, mode: u32 },
    Link { target: Seq<char>, path: Seq<char> },
}

impl View for Step {
    type V = StepView;

    open spec fn view(&self) -> StepView {
        match *self {
            Step::CreateDir(path) => StepView::CreateDir(path@),
            Step::Copy { blob, path, mode } => StepView::Copy { blob, path: path@, mode },
            Step::Link { target, path } => StepView::Link { target: target@, path: path@ },
        }
    }
}

/// What steps are.
pub open spec fn steps_view(v: Seq<Step>) -> Seq<StepView> {
    v.map_values(|s: Step| s@)
}

/// Why a tree cannot be written out further.
#[derive(Clone, Copy, Debug, PartialEq, Eq, Structural)]
pub enum MaterializeStop {
    /// It is not known whether the store has a tree, and which.
    NeedTree(Digest),
    /// It is not known whether the store has a blob.
    NeedBlob(Digest),
    /// The store does not have a tree.
    NoTree(Digest),
    /// The store does not have a blob.
    NoBlob(Digest),
    /// A tree contains itself.
    Cycle(Digest),
}

/// The permissions of a file that is written out.
pub open spec fn file_mode(executable: bool) -> u32 {
    if executable {
        0o755
    } else {
        0o644
    }
}

/// The steps of writing a tree out, in the order of names, and what stops them.
pub open spec fn written(f: FactsView, d: Digest, dest: Seq<char>, fuel: nat) -> (
    Seq<StepView>,
    Option<MaterializeStop>,
)
    decreases fuel, 1nat, 0nat,
{
    let made = seq![StepView::CreateDir(dest)];
    if !f.trees.contains_key(d) {
        (made, Some(MaterializeStop::NeedTree(d)))
    } else {
        match f.trees[d] {
            None => (made, Some(MaterializeStop::NoTree(d))),
            Some(t) => {
                let names = ascending_of(t.dom());
                written_entries(f, t, names, names.len() as nat, dest, fuel)
            },
        }
    }
}

/// The steps of writing a tree's directory and its first `n` entries out.
pub open spec fn written_entries(
    f: FactsView,
    t: Entries,
    names: Seq<Seq<char>>,
    n: nat,
    dest: Seq<char>,
    fuel: nat,
) -> (Seq<StepView>, Option<MaterializeStop>)
    decreases fuel, 0nat, n,
{
    if n == 0 {
        (seq![StepView::CreateDir(dest)], None)
    } else {
        let before = written_entries(f, t, names, (n - 1) as nat, dest, fuel);
        let name = names[n - 1];
        let path = joined(dest, name);
        if before.1 is Some {
            before
        } else {
            match t[name] {
                EntryView::File { digest, executable } => if !f.blobs.contains_key(digest) {
                    (before.0, Some(MaterializeStop::NeedBlob(digest)))
                } else if !f.blobs[digest] {
                    (before.0, Some(MaterializeStop::NoBlob(digest)))
                } else {
                    (
                        before.0.push(
                            StepView::Copy { blob: digest, path, mode: file_mode(executable) },
                        ),
                        None,
                    )
                },
                EntryView::Symlink { target } => (
                    before.0.push(StepView::Link { target, path }),
                    None,
                ),
                EntryView::Directory(sub) => if fuel == 0 {
                    (before.0, Some(MaterializeStop::Cycle(sub)))
                } else {
                    let inner = written(f, sub, path, (fuel - 1) as nat);
                    (before.0 + inner.0, inner.1)
                },
            }
        }
    }
}

fn push_step(out: &mut Vec<Step>, s: Step)
    ensures
        steps_view(final(out)@) == steps_view(old(out)@).push(s@),
{
    let ghost before = out@;
    out.push(s);
    assert(steps_view(out@) =~= steps_view(before).push(s@));
}

proof fn lemma_written_stops(
    f: FactsView,
    t: Entries,
    names: Seq<Seq<char>>,
    k: nat,
    n: nat,
    dest: Seq<char>,
    fuel: nat,
)
    requires
        k <= n,
        written_entries(f, t, names, k, dest, fuel).1 is Some,
    ensures
        written_entries(f, t, names, n, dest, fuel) == written_entries(
            f,
            t,
            names,
            k,
            dest,
            fuel,
        ),
    decreases n,
{
    if k < n {
        lemma_written_stops(f, t, names, k, (n - 1) as nat, dest, fuel);
    }
}

fn write_out(facts: &StoreFacts, d: &Digest, dest: &str, fuel: usize, out: &mut Vec<Step>) -> (r:
    Option<MaterializeStop>)
    ensures
        steps_view(final(out)@) == steps_view(old(out)@) + written(
            facts@,
            *d,
            dest@,
            fuel as nat,
        ).0,
        r == written(facts@, *d, dest@, fuel as nat).1,
    decreases fuel,
{
    let ghost f = facts@;
    let ghost start = steps_view(out@);
    push_step(out, Step::CreateDir(owned(dest)));
    let ghost made = seq![StepView::CreateDir(dest@)];
    assert(steps_view(out@) =~= start + made);
    let tree = match facts.trees.get(d) {
        None => {
            assert(!f.trees.contains_key(*d));
            return Some(MaterializeStop::NeedTree(*d));
        },
        Some(t) => t,
    };
    assert(f.trees.contains_key(*d) && f.trees[*d] == tree_opt(*tree));
    let tree = match tree {
        None => return Some(MaterializeStop::NoTree(*d)),
        Some(t) => t,
    };
    let ghost t = tree_view(*tree);
    let n = tree.len();
    let ghost names = tree.keys();
    proof {
        lemma_tree_names(tree);
    }
    let mut k: usize = 0;
    while k < n
        invariant
            k <= n,
            n == names.len(),
            names == tree.keys(),
            names == ascending_of(t.dom()),
            t == tree_view(*tree),
            f == facts@,
            f.trees.contains_key(*d),
            f.trees[*d] == Some(t),
            start == steps_view(old(out)@),
            written_entries(f, t, names, k as nat, dest@, fuel as nat).1 is None,
            steps_view(out@) == start + written_entries(
                f,
                t,
                names,
                k as nat,
                dest@,
                fuel as nat,
            ).0,
        decreases n - k,
    {
        let name = tree.key(k);
        let entry = tree.value(k);
        let ghost so_far = written_entries(f, t, names, k as nat, dest@, fuel as nat);
        assert(names[k as int] == name@);
        assert(t[name@] == entry@);
        let path = path_join(dest, name);
        let stop: Option<MaterializeStop> = match entry {
            TreeEntry::File { digest, executable } => match facts.blobs.get(digest) {
                None => Some(MaterializeStop::NeedBlob(*digest)),
                Some(present) => {
                    if *present {
                        let mode: u32 = if *executable {
                            0o755
                        } else {
                            0o644
                        };
                        push_step(out, Step::Copy { blob: *digest, path, mode });
                        None
                    } else {
                        Some(MaterializeStop::NoBlob(*digest))
                    }
                },
            },
            TreeEntry::Symlink { target } => {
                push_step(out, Step::Link { target: target.clone(), path });
                None
            },
            TreeEntry::Directory(sub) => {
                if fuel == 0 {
                    Some(MaterializeStop::Cycle(*sub))
                } else {
                    write_out(facts, sub, &path, fuel - 1, out)
                }
            },
        };
        let ghost next = written_entries(f, t, names, (k + 1) as nat, dest@, fuel as nat);
        assert(next.1 == stop);
        assert(steps_view(out@) =~= start + next.0);
        if stop.is_some() {
            proof {
                lemma_written_stops(f, t, names, (k + 1) as nat, n as nat, dest@, fuel as nat);
            }
            return stop;
        }
        k += 1;
    }
    None
}

/// The steps of materializing a tree, and what stops them.
pub struct Materialization {
    /// The steps, in order.
    pub steps: Vec<Step>,
    /// What stops them, once they are done.
    pub stop: Option<MaterializeStop>,
}

/// Plans the materialization of a tree into `dest`: blobs are copied, never
/// linked, so that stored objects stay as they are.
pub fn materialize(facts: &StoreFacts, tree: &Digest, dest: &str) -> (r: Materialization)
    ensures
        (steps_view(r.steps@), r.stop) == written(facts@, *tree, dest@, facts@.trees.dom().len()),
{
    let mut steps: Vec<Step> = Vec::new();
    let n = facts.trees.len();
    proof {
        lemma_digests_distinct(facts.trees.keys());
        facts.trees.keys().unique_seq_to_set();
        assert(facts@.trees.dom() =~= facts.trees.keys().to_set());
    }
    let stop = write_out(facts, tree, dest, n, &mut steps);
    proof {
        let w = written(facts@, *tree, dest@, n as nat).0;
        assert(Seq::<StepView>::empty() + w =~= w);
    }
    Materialization { steps, stop }
}

proof fn lemma_complete_written(f: FactsView, d: Digest, dest: Seq<char>, fuel: nat)
    requires
        finite_trees(f),
        complete_in(f, d, fuel + 1),
    ensures
        written(f, d, dest, fuel).1 is None,
    decreases fuel, 1nat, 0nat,
{
    let t = f.trees[d]->0;
    let names = ascending_of(t.dom());
    lemma_ascending_of(t.dom());
    assert forall|i: int| 0 <= i < names.len() implies t.contains_key(#[trigger] names[i]) by {
        assert(names.contains(names[i]));
    }
    lemma_complete_entries_written(f, d, names, names.len() as nat, dest, fuel);
}

proof fn lemma_complete_entries_written(
    f: FactsView,
    d: Digest,
    names: Seq<Seq<char>>,
    n: nat,
    dest: Seq<char>,
    fuel: nat,
)
    requires
        finite_trees(f),
        complete_in(f, d, fuel + 1),
        n <= names.len(),
        forall|i: int| 0 <= i < names.len() ==> f.trees[d]->0.contains_key(#[trigger] names[i]),
    ensures
        written_entries(f, f.trees[d]->0, names, n, dest, fuel).1 is None,
    decreases fuel, 0nat, n,
{
    if n > 0 {
        lemma_complete_entries_written(f, d, names, (n - 1) as nat, dest, fuel);
        let name = names[n - 1];
        assert(f.trees[d]->0.contains_key(name));
        assert(entry_complete(f, f.trees[d]->0[name], fuel));
        if let EntryView::Directory(sub) = f.trees[d]->0[name] {
            lemma_complete_written(f, sub, joined(dest, name), (fuel - 1) as nat);
        }
    }
}

/// A tree whose closure is present is materialized without a stop.
pub proof fn complete_trees_materialize(f: FactsView, d: Digest, dest: Seq<char>)
    requires
        f.trees.dom().finite(),
        finite_trees(f),
        complete(f, d),
    ensures
        written(f, d, dest, f.trees.dom().len()).1 is None,
{
    closures_are_complete(f, d);
    lemma_found_complete(f, d, Seq::empty(), f.trees.dom().len());
    lemma_complete_written(f, d, dest, f.trees.dom().len());
}

} // verus!
