//! What a store keeps, writes out and lets go.

use vstd::prelude::*;
use vstd::string::*;
use crate::assemble::mount_path;
use crate::capture::{captured_entry, CaptureStopView, ScanView, ScannedView};
use crate::cas::{captured, output_names, placed, sharded, Entries, EntryView, FactsView, Placement};
use crate::cas::{key_values, snapshot_tokens};
use crate::digest::{digest_hex, digests_round_trip, hex_of, Digest};
use crate::gc::{links_to, reachable, way};
use crate::materialize::{written, written_entries, StepView};
use crate::paths::joined;
use crate::state::{
    newest_name, references, state_names, superseded_names, ManifestView, RecordedView,
    MANIFESTS_KEPT_PER_PROJECT,
};
use crate::strmap::{ascending, ascending_of, lemma_ascending_of, lt};
use crate::text::{ends, join_spec};
use crate::text_laws::split_texts_join_again;
use crate::tokens::TokenView;

verus! {

// ---- Capturing --------------------------------------------------------------------

/// At the root of a source tree the outputs of builds and the records of version
/// control are left out, and nothing else; below it nothing is.
pub proof fn outputs_are_not_sources(names: Set<Seq<char>>, name: Seq<char>)
    ensures
        captured(names, output_names(), true).contains(name) <==> {
            &&& names.contains(name)
            &&& name != ".tong"@
            &&& name != "target"@
            &&& name != ".git"@
            &&& name != ".jj"@
        },
        captured(names, output_names(), false).contains(name) <==> names.contains(name),
{
}

/// A file is captured with its own digest, as executable where anyone may execute
/// it. A link keeps its target; what is neither file, link nor directory is refused.
pub proof fn entries_are_captured_as_they_are(
    f: ScanView,
    relative: Seq<char>,
    excludes: Set<Seq<char>>,
    name: Seq<char>,
    fuel: nat,
)
    ensures
        ({
            let path = joined(relative, name);
            let r = captured_entry(f, relative, excludes, name, fuel);
            match f.dirs[relative].entries[name] {
                ScannedView::File(meta) => {
                    &&& r is Ok <==> f.files.contains_key(path)
                    &&& r is Ok ==> (r->Ok_0 matches EntryView::File { digest, executable }
                        && digest == f.files[path] && (executable <==> meta.mode & 0o100 != 0
                        || meta.mode & 0o010 != 0 || meta.mode & 0o001 != 0))
                },
                ScannedView::Symlink { meta, target } => r is Ok && r->Ok_0
                    == EntryView::Symlink { target },
                ScannedView::Directory => r is Ok ==> r->Ok_0 is Directory,
                ScannedView::Other => r == Err::<EntryView, CaptureStopView>(
                    CaptureStopView::Unsupported(path),
                ),
            }
        }),
{
    if let ScannedView::File(meta) = f.dirs[relative].entries[name] {
        let mode = meta.mode;
        assert(mode & 0o111 != 0 <==> mode & 0o100 != 0 || mode & 0o010 != 0 || mode & 0o001 != 0)
            by (bit_vector);
    }
}

/// The key of a snapshot tells its directory and what is excluded: two that differ
/// in either have different keys.
pub proof fn snapshot_keys_differ(
    p: Seq<char>,
    a: Seq<Seq<char>>,
    q: Seq<char>,
    b: Seq<Seq<char>>,
    n: int,
    k: int,
)
    requires
        0 <= n <= a.len(),
        0 <= k <= b.len(),
        key_values(p, a, n) == key_values(q, b, k),
    ensures
        p == q,
        n == k,
        a.take(n) == b.take(k),
    decreases n + k,
{
    lemma_key_len(p, a, n);
    lemma_key_len(q, b, k);
    let x = key_values(p, a, n);
    let y = key_values(q, b, k);
    if n > 0 && k > 0 {
        assert(x.drop_last() =~= key_values(p, a, n - 1));
        assert(y.drop_last() =~= key_values(q, b, k - 1));
        assert(x.last() == TokenView::Str(a[n - 1]));
        assert(y.last() == TokenView::Str(b[k - 1]));
        snapshot_keys_differ(p, a, q, b, n - 1, k - 1);
        assert(a.take(n) =~= a.take(n - 1).push(a[n - 1]));
        assert(b.take(k) =~= b.take(k - 1).push(b[k - 1]));
    } else if n == 0 && k == 0 {
        assert(x[1] == TokenView::Str(p));
        assert(y[1] == TokenView::Str(q));
        assert(a.take(n) =~= b.take(k));
    }
}

proof fn lemma_key_len(path: Seq<char>, excludes: Seq<Seq<char>>, n: int)
    requires
        0 <= n,
    ensures
        key_values(path, excludes, n).len() == n + 3,
    decreases n,
{
    if n > 0 {
        lemma_key_len(path, excludes, n - 1);
    }
}

/// A snapshot tells its fingerprint and its tree.
pub proof fn snapshots_differ(a: Digest, s: Digest, b: Digest, t: Digest)
    ensures
        snapshot_tokens(a, s) == snapshot_tokens(b, t) <==> a == b && s == t,
{
    let x = snapshot_tokens(a, s);
    let y = snapshot_tokens(b, t);
    assert(x[1] == TokenView::Digest(a) && y[1] == TokenView::Digest(b));
    assert(x[2] == TokenView::Digest(s) && y[2] == TokenView::Digest(t));
}

// ---- Placing ----------------------------------------------------------------------

/// An object of the wrong length is refused. Any other takes the place of none or of
/// one of another length, and is dropped where one like it is there.
pub proof fn objects_are_placed_once(expected: Option<u64>, actual: u64, length: Option<u64>)
    ensures
        placed(Some(actual), actual, None) == Placement::Fresh,
        placed(None, actual, None) == Placement::Fresh,
        placed(Some(actual), actual, Some(Some(actual))) == Placement::Duplicate,
        length != Some(actual) ==> placed(Some(actual), actual, Some(length))
            == Placement::Replace,
        placed(None, actual, Some(length)) == Placement::Duplicate,
        expected matches Some(n) ==> (n != actual <==> placed(expected, actual, Some(length))
            == Placement::WrongLength),
{
}

proof fn lemma_hex_digits(n: int, k: nat)
    requires
        0 <= n,
    ensures
        hex_of(n, k).len() == k,
        forall|x: int|
            0 <= x < k ==> '0' <= #[trigger] hex_of(n, k)[x] <= '9' || 'a' <= hex_of(n, k)[x]
                <= 'f',
    decreases k,
{
    if k > 0 {
        lemma_hex_digits(n / 16, (k - 1) as nat);
    }
}

/// A digest is written as lower-case hexadecimal digits, two for each byte.
pub proof fn digests_are_hexadecimal(d: Digest, x: int)
    requires
        0 <= x < digest_hex(d).len(),
    ensures
        digest_hex(d).len() == 64,
        '0' <= digest_hex(d)[x] <= '9' || 'a' <= digest_hex(d)[x] <= 'f',
{
    lemma_hex_digits(d.a as int, 16);
    lemma_hex_digits(d.b as int, 16);
    lemma_hex_digits(d.c as int, 16);
    lemma_hex_digits(d.d as int, 16);
}

/// An object lies in a directory named by the first two digits of its digest, under
/// the others.
pub proof fn objects_lie_in_shards(dir: Seq<char>, d: Digest)
    requires
        dir.len() > 0,
        dir.last() != '/',
    ensures
        sharded(dir, d) == dir + "/"@ + digest_hex(d).take(2) + "/"@ + digest_hex(d).skip(2),
{
    reveal_strlit("/");
    let hex = digest_hex(d);
    let a = hex.take(2);
    let b = hex.skip(2);
    digests_round_trip(d);
    digests_are_hexadecimal(d, 0);
    digests_are_hexadecimal(d, 1);
    digests_are_hexadecimal(d, 2);
    assert(a.take(1)[0] == hex[0]);
    assert(b.take(1)[0] == hex[2]);
    assert("/"@[0] == '/');
    let shard = joined(dir, a);
    assert(shard =~= dir + "/"@ + a);
    assert(shard.last() == hex[1]);
    assert(sharded(dir, d) =~= shard + "/"@ + b);
}

// ---- Writing out ------------------------------------------------------------------

/// Whether the steps that write an entry out are among others.
pub open spec fn writes(
    f: FactsView,
    e: EntryView,
    path: Seq<char>,
    fuel: nat,
    steps: Seq<StepView>,
) -> bool {
    match e {
        EntryView::File { digest, executable } => exists|k: int|
            0 <= k < steps.len() && (#[trigger] steps[k] matches StepView::Copy {
                blob,
                path: at,
                mode,
            } && blob == digest && at == path && mode == (if executable {
                0o755u32
            } else {
                0o644u32
            })),
        EntryView::Symlink { target } => steps.contains(StepView::Link { target, path }),
        EntryView::Directory(sub) => fuel > 0 && exists|k: int|
            0 <= k <= steps.len() - written(f, sub, path, (fuel - 1) as nat).0.len()
                && #[trigger] steps.subrange(
                k,
                k + written(f, sub, path, (fuel - 1) as nat).0.len(),
            ) == written(f, sub, path, (fuel - 1) as nat).0,
    }
}

proof fn lemma_writes_on(
    f: FactsView,
    e: EntryView,
    path: Seq<char>,
    fuel: nat,
    a: Seq<StepView>,
    b: Seq<StepView>,
)
    requires
        writes(f, e, path, fuel, a),
        a.len() <= b.len(),
        b.take(a.len() as int) == a,
    ensures
        writes(f, e, path, fuel, b),
{
    assert forall|k: int| 0 <= k < a.len() implies #[trigger] a[k] == b[k] by {
        assert(b.take(a.len() as int)[k] == b[k]);
    }
    match e {
        EntryView::File { digest, executable } => {
            let k = choose|k: int|
                0 <= k < a.len() && (#[trigger] a[k] matches StepView::Copy {
                    blob,
                    path: at,
                    mode,
                } && blob == digest && at == path && mode == (if executable {
                    0o755u32
                } else {
                    0o644u32
                }));
            assert(b[k] == a[k]);
        },
        EntryView::Symlink { target } => {
            let k = choose|k: int|
                0 <= k < a.len() && a[k] == (StepView::Link { target, path });
            assert(b[k] == a[k]);
        },
        EntryView::Directory(sub) => {
            let inner = written(f, sub, path, (fuel - 1) as nat).0;
            let k = choose|k: int|
                0 <= k <= a.len() - inner.len() && #[trigger] a.subrange(k, k + inner.len())
                    == inner;
            assert(b.subrange(k, k + inner.len()) =~= a.subrange(k, k + inner.len()));
        },
    }
}

proof fn lemma_written(
    f: FactsView,
    t: Entries,
    names: Seq<Seq<char>>,
    n: nat,
    dest: Seq<char>,
    fuel: nat,
)
    requires
        n <= names.len(),
        written_entries(f, t, names, n, dest, fuel).1 is None,
    ensures
        ({
            let steps = written_entries(f, t, names, n, dest, fuel).0;
            &&& steps.len() > 0 && steps[0] == StepView::CreateDir(dest)
            &&& forall|k: int|
                0 <= k < n ==> writes(
                    f,
                    t[#[trigger] names[k]],
                    joined(dest, names[k]),
                    fuel,
                    steps,
                )
        }),
    decreases n,
{
    if n > 0 {
        let m = (n - 1) as nat;
        let name = names[n - 1];
        let path = joined(dest, name);
        let before = written_entries(f, t, names, m, dest, fuel).0;
        let steps = written_entries(f, t, names, n, dest, fuel).0;
        lemma_written(f, t, names, m, dest, fuel);
        assert(steps.take(before.len() as int) =~= before);
        assert(steps[0] == before[0]);
        assert forall|k: int| 0 <= k < n implies writes(
            f,
            t[#[trigger] names[k]],
            joined(dest, names[k]),
            fuel,
            steps,
        ) by {
            if k < m {
                lemma_writes_on(f, t[names[k]], joined(dest, names[k]), fuel, before, steps);
            } else {
                let at = before.len() as int;
                match t[name] {
                    EntryView::File { digest, executable } => {
                        assert(steps[at] is Copy);
                    },
                    EntryView::Symlink { target } => {
                        assert(steps[at] == (StepView::Link { target, path }));
                    },
                    EntryView::Directory(sub) => {
                        let inner = written(f, sub, path, (fuel - 1) as nat).0;
                        assert(steps.subrange(at, at + inner.len()) =~= inner);
                    },
                }
            }
        }
    }
}

/// Writing a tree out makes its directory first, then puts each entry there: a file
/// with its bytes and its permissions, a link with its target, a directory with all
/// that is in it.
pub proof fn trees_are_written_out(
    f: FactsView,
    d: Digest,
    dest: Seq<char>,
    fuel: nat,
    name: Seq<char>,
)
    requires
        written(f, d, dest, fuel).1 is None,
        f.trees.contains_key(d),
        f.trees[d] is Some,
        f.trees[d]->0.dom().finite(),
    ensures
        written(f, d, dest, fuel).0.len() > 0,
        written(f, d, dest, fuel).0[0] == StepView::CreateDir(dest),
        f.trees[d]->0.contains_key(name) ==> writes(
            f,
            f.trees[d]->0[name],
            joined(dest, name),
            fuel,
            written(f, d, dest, fuel).0,
        ),
{
    let t = f.trees[d]->0;
    lemma_ascending_of(t.dom());
    let names = ascending_of(t.dom());
    lemma_written(f, t, names, names.len(), dest, fuel);
    if t.contains_key(name) {
        assert(names.contains(name));
        let k = choose|k: int| 0 <= k < names.len() && names[k] == name;
        assert(names[k] == name);
    }
}

// ---- Letting go -------------------------------------------------------------------

/// A tree links to the blobs of its files and to its subtrees, a bundle to its
/// files; a link to a path keeps nothing.
pub proof fn trees_keep_their_entries(
    tree: Entries,
    bundle: Option<Digest>,
    name: Seq<char>,
    d: Digest,
)
    ensures
        tree.contains_key(name) && (tree[name] matches EntryView::File { digest, executable }
            && digest == d) ==> links_to(Some(tree), bundle, d),
        tree.contains_key(name) && tree[name] == EntryView::Directory(d) ==> links_to(
            Some(tree),
            bundle,
            d,
        ),
        bundle == Some(d) ==> links_to(Some(tree), bundle, d) && links_to(None, bundle, d),
        links_to(Some(tree), None, d) ==> exists|n: Seq<char>| #[trigger]
            tree.contains_key(n) && (tree[n] == EntryView::Directory(d) || (
            tree[n] matches EntryView::File { digest, executable } && digest == d)),
        !links_to(None, None, d),
{
    let some = Some(tree);
    if tree.contains_key(name) {
        assert(some->0.contains_key(name));
    }
    if links_to(Some(tree), None, d) {
        let n = choose|n: Seq<char>| #[trigger]
            tree.contains_key(n) && crate::gc::entry_links(tree[n], d);
        assert(tree.contains_key(n));
    }
}

/// What the roots reach are the roots and what something that they reach links to,
/// and nothing else.
pub proof fn links_keep_what_they_lead_to(
    known: Map<Digest, Vec<Digest>>,
    roots: Set<Digest>,
    d: Digest,
)
    ensures
        reachable(known, roots, d) <==> {
            ||| roots.contains(d)
            ||| exists|x: Digest| #[trigger]
                reachable(known, roots, x) && known.contains_key(x) && known[x]@.contains(d)
        },
{
    if reachable(known, roots, d) {
        let p = choose|p: Seq<Digest>| #[trigger] way(known, roots, p) && p.last() == d;
        if p.len() > 1 {
            let less = p.drop_last();
            assert forall|i: int| 0 <= i < less.len() - 1 implies known.contains_key(
                #[trigger] less[i],
            ) && known[less[i]]@.contains(less[i + 1]) by {
                assert(known.contains_key(p[i]));
            }
            assert(way(known, roots, less));
            let x = p[p.len() - 2];
            assert(less.last() == x);
            assert(reachable(known, roots, x));
            assert(known.contains_key(x) && known[x]@.contains(p[p.len() - 2 + 1]));
        }
    }
    if roots.contains(d) {
        assert(way(known, roots, seq![d]));
        assert(seq![d].last() == d);
    }
    if exists|x: Digest| #[trigger]
        reachable(known, roots, x) && known.contains_key(x) && known[x]@.contains(d) {
        let x = choose|x: Digest| #[trigger]
            reachable(known, roots, x) && known.contains_key(x) && known[x]@.contains(d);
        let p = choose|p: Seq<Digest>| #[trigger] way(known, roots, p) && p.last() == x;
        let more = p.push(d);
        assert forall|i: int| 0 <= i < more.len() - 1 implies known.contains_key(
            #[trigger] more[i],
        ) && known[more[i]]@.contains(more[i + 1]) by {
            if i < p.len() - 1 {
                assert(known.contains_key(p[i]));
            }
        }
        assert(more[0] == p[0]);
        assert(way(known, roots, more));
        assert(more.last() == d);
    }
}

/// Whether a recorded action holds a digest.
pub open spec fn holds(a: RecordedView, d: Digest) -> bool {
    seq![a.action_digest, a.input_root, a.outputs, a.stdout, a.stderr].contains(d) || a.executable
        == Some(d) || a.env_bundle == Some(d)
}

/// A manifest keeps all that its actions were made from and gave, its sources, its
/// toolchains and its artifacts, and nothing else.
pub proof fn manifests_keep_what_they_name(m: ManifestView, d: Digest)
    ensures
        references(m, d) <==> {
            ||| exists|i: int| 0 <= i < m.actions.len() && holds(#[trigger] m.actions[i], d)
            ||| m.sources.contains(d)
            ||| m.toolchains.contains(d)
            ||| exists|i: int| 0 <= i < m.artifacts.len() && (#[trigger] m.artifacts[i]).1 == d
        },
{
    assert forall|a: RecordedView| #[trigger] holds(a, d) <==> crate::state::action_references(
        a,
        d,
    ) by {
        let all = seq![a.action_digest, a.input_root, a.outputs, a.stdout, a.stderr];
        assert(all[0] == a.action_digest && all[1] == a.input_root && all[2] == a.outputs && all[3]
            == a.stdout && all[4] == a.stderr);
    }
    if references(m, d) && !m.sources.contains(d) && !m.toolchains.contains(d) {
        if crate::state::actions_reference(m.actions, m.actions.len() as int, d) {
            let i = choose|i: int|
                0 <= i < m.actions.len() && crate::state::action_references(
                    #[trigger] m.actions[i],
                    d,
                );
            assert(holds(m.actions[i], d));
        }
    }
    if exists|i: int| 0 <= i < m.actions.len() && holds(#[trigger] m.actions[i], d) {
        let i = choose|i: int| 0 <= i < m.actions.len() && holds(#[trigger] m.actions[i], d);
        assert(crate::state::action_references(m.actions[i], d));
    }
}

/// The newest three manifests of a project stay; every older one is superseded.
pub proof fn three_manifests_stay(names: Seq<Seq<char>>, a: Seq<char>, b: Seq<char>)
    requires
        state_names(names).finite(),
    ensures
        superseded_names(names).contains(a) ==> names.contains(a) && ends(a, ".state"@),
        superseded_names(names).contains(a) && names.contains(b) && ends(b, ".state"@)
            && !superseded_names(names).contains(b) ==> lt(a, b),
        state_names(names).len() <= 3 ==> superseded_names(names).len() == 0,
        state_names(names).len() > 3 ==> superseded_names(names).len() == state_names(names).len()
            - 3,
        newest_name(names) is Some <==> exists|n: Seq<char>| #[trigger]
            names.contains(n) && ends(n, ".state"@),
{
    let set = state_names(names);
    lemma_ascending_of(set);
    let all = ascending_of(set);
    let old = superseded_names(names);
    assert(MANIFESTS_KEPT_PER_PROJECT == 3);
    if old.contains(a) {
        let i = choose|i: int| 0 <= i < old.len() && old[i] == a;
        assert(all[i] == a);
        assert(all.contains(a));
        assert(set.contains(a));
        if names.contains(b) && ends(b, ".state"@) && !old.contains(b) {
            assert(set.contains(b));
            assert(all.contains(b));
            let j = choose|j: int| 0 <= j < all.len() && all[j] == b;
            if j < old.len() {
                assert(old[j] == b);
            }
            assert(i < j);
            assert(ascending(all));
        }
    }
    if newest_name(names) is Some {
        assert(all.contains(all.last()));
        assert(set.contains(all.last()));
        assert(names.contains(all.last()));
    }
    if exists|n: Seq<char>| #[trigger] names.contains(n) && ends(n, ".state"@) {
        let n = choose|n: Seq<char>| #[trigger] names.contains(n) && ends(n, ".state"@);
        assert(set.contains(n));
        assert(all.contains(n));
    }
}

/// The names on the way to a mount point make it up, with slashes between them; at `.`
/// there are none.
pub proof fn mount_points_are_made_of_names(point: Seq<char>)
    ensures
        point != "."@ ==> join_spec(mount_path(point), seq!['/']) == point,
        point != "."@ ==> forall|k: int|
            0 <= k < mount_path(point).len() ==> !(#[trigger] mount_path(point)[k]).contains('/'),
        mount_path("."@).len() == 0,
{
    split_texts_join_again(point, '/');
}

} // verus!
