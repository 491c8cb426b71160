//! The capture of a directory as a tree, and its metadata fingerprint.
//!
//! Directories are scanned and files hashed by the caller: each function works on
//! what was scanned, and names what it lacks.

use vstd::prelude::*;
use vstd::string::*;
use crate::assemble::{
    content, keep_tree, lemma_kept_reads_back, reads_back, stored_from, Item,
};
use crate::cas::{
    captured, captured_names, fingerprint_tokens, is_executable, meta_tokens, tree_view,
    CapturedKind, Entries, EntryView, FactsView, FileMeta, KindView, TreeEntry,
    SOURCE_SNAPSHOT_SCHEMA_VERSION,
};
use crate::digest::Digest;
use crate::paths::{joined, path_join};
use crate::strmap::{
    ascending_of, lemma_ascending_distinct, lemma_ascending_of, StrMap, StrSet,
};
use crate::text::{owned, texts};
use crate::tokens::{push_token, tokens_view, Token, TokenView};

verus! {

/// What stands under a name of a scanned directory.
#[derive(Debug)]
pub enum Scanned {
    /// A directory.
    Directory,
    /// A regular file.
    File(FileMeta),
    /// A symbolic link.
    Symlink {
        /// Its metadata.
        meta: FileMeta,
        /// What it points to.
        target: String,
    },
    /// Anything else.
    Other,
}

/// What a scanned entry is.
pub enum ScannedView {
    Directory,
    File(FileMeta),
    Symlink { meta: FileMeta, target: Seq<char> },
    Other,
}

impl View for Scanned {
    type V = ScannedView;

    open spec fn view(&self) -> ScannedView {
        match *self {
            Scanned::Directory => ScannedView::Directory,
            Scanned::File(meta) => ScannedView::File(meta),
            Scanned::Symlink { meta, target } => ScannedView::Symlink { meta, target: target@ },
            Scanned::Other => ScannedView::Other,
        }
    }
}

/// A scanned directory.
pub struct ScannedDir {
    /// Its own metadata.
    pub meta: FileMeta,
    /// What it holds.
    pub entries: StrMap<Scanned>,
}

/// What is known below a directory, by paths relative to it.
pub struct Scan {
    /// The directories that were scanned.
    pub dirs: StrMap<ScannedDir>,
    /// The digests of files.
    pub files: StrMap<Digest>,
    /// The trees that were stored, with their digests.
    pub stored: Vec<(StrMap<TreeEntry>, Digest)>,
}

/// What a scanned directory is.
pub struct DirView {
    pub meta: FileMeta,
    pub entries: Map<Seq<char>, ScannedView>,
}

/// What is known below a directory.
pub struct ScanView {
    pub dirs: Map<Seq<char>, DirView>,
    pub files: Map<Seq<char>, Digest>,
    pub stored: Seq<(Entries, Digest)>,
}

impl View for ScannedDir {
    type V = DirView;

    open spec fn view(&self) -> DirView {
        DirView {
            meta: self.meta,
            entries: Map::new(
                |k: Seq<char>| self.entries@.contains_key(k),
                |k: Seq<char>| self.entries@[k]@,
            ),
        }
    }
}

impl View for Scan {
    type V = ScanView;

    open spec fn view(&self) -> ScanView {
        ScanView {
            dirs: Map::new(
                |k: Seq<char>| self.dirs@.contains_key(k),
                |k: Seq<char>| self.dirs@[k]@,
            ),
            files: self.files@,
            stored: self.stored@.map_values(
                |p: (StrMap<TreeEntry>, Digest)| (tree_view(p.0), p.1),
            ),
        }
    }
}

/// Why a directory was not captured.
#[derive(Debug)]
pub enum CaptureStop {
    /// A directory was not scanned.
    NeedDir(String),
    /// A file was not hashed.
    NeedFile(String),
    /// The digest of a tree, which is yet to be stored, is not known.
    NeedStored(StrMap<TreeEntry>),
    /// What stands at a path can be no entry of a tree.
    Unsupported(String),
    /// A directory contains itself.
    Cycle(String),
}

/// What a stop is.
pub enum CaptureStopView {
    NeedDir(Seq<char>),
    NeedFile(Seq<char>),
    NeedStored(Entries),
    Unsupported(Seq<char>),
    Cycle(Seq<char>),
}

impl View for CaptureStop {
    type V = CaptureStopView;

    open spec fn view(&self) -> CaptureStopView {
        match *self {
            CaptureStop::NeedDir(p) => CaptureStopView::NeedDir(p@),
            CaptureStop::NeedFile(p) => CaptureStopView::NeedFile(p@),
            CaptureStop::NeedStored(t) => CaptureStopView::NeedStored(tree_view(t)),
            CaptureStop::Unsupported(p) => CaptureStopView::Unsupported(p@),
            CaptureStop::Cycle(p) => CaptureStopView::Cycle(p@),
        }
    }
}

// ---- Trees -------------------------------------------------------------------------------

/// The tree that a directory is captured as.
pub open spec fn captured_dir(
    f: ScanView,
    relative: Seq<char>,
    excludes: Set<Seq<char>>,
    root: bool,
    fuel: nat,
) -> Result<Digest, CaptureStopView>
    decreases fuel, 1nat, 0nat,
{
    if !f.dirs.contains_key(relative) {
        Err(CaptureStopView::NeedDir(relative))
    } else {
        let dir = f.dirs[relative];
        let names = ascending_of(captured(dir.entries.dom(), excludes, root));
        match captured_entries(f, relative, excludes, names, names.len() as nat, fuel) {
            Err(e) => Err(e),
            Ok(t) => match stored_from(f.stored, t, 0) {
                Some(d) => Ok(d),
                None => Err(CaptureStopView::NeedStored(t)),
            },
        }
    }
}

/// The entries that the first `n` names of a directory are captured as.
pub open spec fn captured_entries(
    f: ScanView,
    relative: Seq<char>,
    excludes: Set<Seq<char>>,
    names: Seq<Seq<char>>,
    n: nat,
    fuel: nat,
) -> Result<Entries, CaptureStopView>
    decreases fuel, 0nat, n,
{
    if n == 0 {
        Ok(Map::empty())
    } else {
        match captured_entries(f, relative, excludes, names, (n - 1) as nat, fuel) {
            Err(e) => Err(e),
            Ok(t) => match captured_entry(f, relative, excludes, names[n - 1], fuel) {
                Err(e) => Err(e),
                Ok(e) => Ok(t.insert(names[n - 1], e)),
            },
        }
    }
}

/// The entry that a name of a directory is captured as.
pub open spec fn captured_entry(
    f: ScanView,
    relative: Seq<char>,
    excludes: Set<Seq<char>>,
    name: Seq<char>,
    fuel: nat,
) -> Result<EntryView, CaptureStopView>
    decreases fuel, 0nat, 0nat,
{
    let path = joined(relative, name);
    match f.dirs[relative].entries[name] {
        ScannedView::Directory => if fuel == 0 {
            Err(CaptureStopView::Cycle(path))
        } else {
            match captured_dir(f, path, excludes, false, (fuel - 1) as nat) {
                Ok(d) => Ok(EntryView::Directory(d)),
                Err(e) => Err(e),
            }
        },
        ScannedView::File(meta) => if f.files.contains_key(path) {
            Ok(
                EntryView::File { digest: f.files[path], executable: meta.mode & 0o111 != 0 },
            )
        } else {
            Err(CaptureStopView::NeedFile(path))
        },
        ScannedView::Symlink { meta, target } => Ok(EntryView::Symlink { target }),
        ScannedView::Other => Err(CaptureStopView::Unsupported(path)),
    }
}

/// What an outcome is.
pub open spec fn capture_outcome(r: Result<Digest, CaptureStop>) -> Result<
    Digest,
    CaptureStopView,
> {
    match r {
        Ok(d) => Ok(d),
        Err(e) => Err(e@),
    }
}

proof fn lemma_entries_fail(
    f: ScanView,
    relative: Seq<char>,
    excludes: Set<Seq<char>>,
    names: Seq<Seq<char>>,
    k: nat,
    n: nat,
    fuel: nat,
)
    requires
        k <= n,
        captured_entries(f, relative, excludes, names, k, fuel) is Err,
    ensures
        captured_entries(f, relative, excludes, names, n, fuel) == captured_entries(
            f,
            relative,
            excludes,
            names,
            k,
            fuel,
        ),
    decreases n,
{
    if k < n {
        lemma_entries_fail(f, relative, excludes, names, k, (n - 1) as nat, fuel);
    }
}

/// The names of a scanned directory.
fn names_of(dir: &ScannedDir) -> (r: StrSet)
    ensures
        r@ == dir@.entries.dom(),
{
    let mut out = StrSet::new();
    let n = dir.entries.len();
    let ghost keys = dir.entries.keys();
    let mut i: usize = 0;
    while i < n
        invariant
            i <= n,
            n == keys.len(),
            keys == dir.entries.keys(),
            forall|k: Seq<char>| #[trigger] out@.contains(k) <==> keys.take(i as int).contains(k),
        decreases n - i,
    {
        let ghost before = out@;
        let key = dir.entries.key(i);
        let ghost b = keys.take(i as int);
        let ghost c = keys.take(i as int + 1);
        assert(c =~= b.push(key@));
        out.insert(key.clone());
        assert forall|k: Seq<char>| #[trigger] out@.contains(k) <==> c.contains(k) by {
            assert(before.contains(k) <==> b.contains(k));
            if b.contains(k) {
                let j = choose|j: int| 0 <= j < b.len() && b[j] == k;
                assert(c[j] == k);
            }
            if c.contains(k) {
                let j = choose|j: int| 0 <= j < c.len() && c[j] == k;
                if j < i {
                    assert(b[j] == k);
                }
            }
            assert(c[i as int] == key@);
        }
        i += 1;
    }
    assert(keys.take(n as int) =~= keys);
    assert(out@ =~= dir@.entries.dom());
    out
}

fn walk(
    scan: &Scan,
    relative: &str,
    excludes: &StrSet,
    root: bool,
    fuel: usize,
) -> (r: Result<Digest, CaptureStop>)
    ensures
        capture_outcome(r) == captured_dir(scan@, relative@, excludes@, root, fuel as nat),
    decreases fuel,
{
    let ghost f = scan@;
    let dir = match scan.dirs.get(relative) {
        Some(d) => d,
        None => {
            assert(!f.dirs.contains_key(relative@));
            return Err(CaptureStop::NeedDir(owned(relative)));
        },
    };
    assert(f.dirs.contains_key(relative@) && f.dirs[relative@] == dir@);
    let names = captured_names(&names_of(dir), excludes, root);
    let ghost all = texts(names@);
    let mut tree: StrMap<TreeEntry> = StrMap::new();
    let mut k: usize = 0;
    assert(tree_view(tree) =~= Map::<Seq<char>, EntryView>::empty());
    while k < names.len()
        invariant
            k <= names@.len(),
            f == scan@,
            all == texts(names@),
            all.len() == names@.len(),
            all == ascending_of(captured(dir@.entries.dom(), excludes@, root)),
            f.dirs.contains_key(relative@),
            f.dirs[relative@] == dir@,
            captured_entries(f, relative@, excludes@, all, k as nat, fuel as nat) == Ok::<
                Entries,
                CaptureStopView,
            >(tree_view(tree)),
        decreases names@.len() - k,
    {
        let name = &names[k];
        let ghost before = tree;
        assert(all[k as int] == name@);
        let path = path_join(relative, name);
        proof {
            lemma_captured_known(dir, excludes@, root, all, k as int);
        }
        let entry = match dir.entries.get(name) {
            None => return Err(CaptureStop::NeedDir(path)),
            Some(e) => e,
        };
        assert(dir@.entries[name@] == entry@);
        let made = match entry {
            Scanned::Directory => {
                if fuel == 0 {
                    Err(CaptureStop::Cycle(path))
                } else {
                    match walk(scan, &path, excludes, false, fuel - 1) {
                        Ok(d) => Ok(TreeEntry::Directory(d)),
                        Err(e) => Err(e),
                    }
                }
            },
            Scanned::File(meta) => match scan.files.get(&path) {
                Some(digest) => Ok(
                    TreeEntry::File { digest: *digest, executable: is_executable(meta.mode) },
                ),
                None => Err(CaptureStop::NeedFile(path)),
            },
            Scanned::Symlink { meta, target } => Ok(TreeEntry::Symlink { target: target.clone() }),
            Scanned::Other => Err(CaptureStop::Unsupported(path)),
        };
        match made {
            Ok(e) => {
                assert(captured_entry(f, relative@, excludes@, name@, fuel as nat) == Ok::<
                    EntryView,
                    CaptureStopView,
                >(e@));
                tree.insert(name.clone(), e);
                assert(tree_view(tree) =~= tree_view(before).insert(name@, e@));
            },
            Err(e) => {
                proof {
                    assert(captured_entry(f, relative@, excludes@, name@, fuel as nat) == Err::<
                        EntryView,
                        CaptureStopView,
                    >(e@));
                    lemma_entries_fail(
                        f,
                        relative@,
                        excludes@,
                        all,
                        (k + 1) as nat,
                        all.len() as nat,
                        fuel as nat,
                    );
                }
                return Err(e);
            },
        }
        k += 1;
    }
    match keep_tree(&scan.stored, tree) {
        Ok(d) => Ok(d),
        Err(t) => Err(CaptureStop::NeedStored(t)),
    }
}

proof fn lemma_captured_known(
    dir: &ScannedDir,
    excludes: Set<Seq<char>>,
    root: bool,
    names: Seq<Seq<char>>,
    k: int,
)
    requires
        names == ascending_of(captured(dir@.entries.dom(), excludes, root)),
        0 <= k < names.len(),
    ensures
        dir@.entries.contains_key(names[k]),
{
    let all = dir@.entries.dom();
    vstd::seq_lib::seq_to_set_is_finite(dir.entries.keys());
    assert(all =~= dir.entries.keys().to_set());
    assert(captured(all, excludes, root).subset_of(all));
    vstd::set_lib::lemma_set_subset_finite(all, captured(all, excludes, root));
    lemma_ascending_of(captured(all, excludes, root));
    assert(names.contains(names[k]));
}

/// The tree that a directory is captured as: without the excluded names at its
/// root.
pub open spec fn captured_root(f: ScanView, excludes: Set<Seq<char>>) -> Result<
    Digest,
    CaptureStopView,
> {
    captured_dir(f, ""@, excludes, true, f.dirs.dom().len())
}

/// Captures a directory as a tree, skipping excluded entries at its root.
pub fn capture_dir(scan: &Scan, excludes: &StrSet) -> (r: Result<Digest, CaptureStop>)
    ensures
        capture_outcome(r) == captured_root(scan@, excludes@),
{
    let n = scan.dirs.len();
    proof {
        lemma_ascending_distinct(scan.dirs.keys());
        scan.dirs.keys().unique_seq_to_set();
        assert(scan@.dirs.dom() =~= scan.dirs.keys().to_set());
    }
    walk(scan, "", excludes, true, n)
}

/// What stands at a path below a scanned directory, without what is excluded.
pub open spec fn held(
    f: ScanView,
    relative: Seq<char>,
    excludes: Set<Seq<char>>,
    root: bool,
    path: Seq<Seq<char>>,
) -> Option<Item>
    decreases path.len(),
{
    if path.len() == 0 {
        Some(Item::Directory)
    } else {
        let name = path[0];
        let names = captured(f.dirs[relative].entries.dom(), excludes, root);
        let child = joined(relative, name);
        if !names.contains(name) {
            None
        } else {
            match f.dirs[relative].entries[name] {
                ScannedView::Directory => held(f, child, excludes, false, path.skip(1)),
                ScannedView::File(meta) => if path.len() == 1 {
                    Some(
                        Item::File { digest: f.files[child], executable: meta.mode & 0o111 != 0 },
                    )
                } else {
                    None
                },
                ScannedView::Symlink { meta, target } => if path.len() == 1 {
                    Some(Item::Symlink { target })
                } else {
                    None
                },
                ScannedView::Other => None,
            }
        }
    }
}

/// Whether every scanned directory holds finitely many names.
pub open spec fn finite_dirs(f: ScanView) -> bool {
    forall|p: Seq<char>| #[trigger] f.dirs.contains_key(p) ==> f.dirs[p].entries.dom().finite()
}

proof fn lemma_captured_entry(
    f: ScanView,
    relative: Seq<char>,
    excludes: Set<Seq<char>>,
    names: Seq<Seq<char>>,
    n: nat,
    fuel: nat,
    name: Seq<char>,
)
    requires
        captured_entries(f, relative, excludes, names, n, fuel) is Ok,
        n <= names.len(),
        names.no_duplicates(),
    ensures
        ({
            let t = captured_entries(f, relative, excludes, names, n, fuel)->Ok_0;
            let e = captured_entry(f, relative, excludes, name, fuel);
            if names.take(n as int).contains(name) {
                e is Ok && t.contains_key(name) && t[name] == e->Ok_0
            } else {
                !t.contains_key(name)
            }
        }),
    decreases n,
{
    if n > 0 {
        let m = (n - 1) as nat;
        lemma_captured_entry(f, relative, excludes, names, m, fuel, name);
        let b = names.take(m as int);
        let c = names.take(n as int);
        assert(c =~= b.push(names[m as int]));
        if b.contains(name) {
            let i = choose|i: int| 0 <= i < b.len() && b[i] == name;
            assert(c[i] == name);
            assert(names[i] != names[m as int]);
        }
        if c.contains(name) && name != names[m as int] {
            let i = choose|i: int| 0 <= i < c.len() && c[i] == name;
            assert(b[i] == name);
        }
        assert(c[m as int] == names[m as int]);
    }
}

/// A captured tree holds what the directory does: at each path the file, the link
/// or the directory that stands there, without what is excluded at the root.
pub proof fn captured_trees_hold_their_directory(
    f: ScanView,
    store: FactsView,
    relative: Seq<char>,
    excludes: Set<Seq<char>>,
    root: bool,
    fuel: nat,
    path: Seq<Seq<char>>,
)
    requires
        store.stored == f.stored,
        reads_back(store),
        finite_dirs(f),
        captured_dir(f, relative, excludes, root, fuel) is Ok,
    ensures
        content(store, captured_dir(f, relative, excludes, root, fuel)->Ok_0, path) == held(
            f,
            relative,
            excludes,
            root,
            path,
        ),
    decreases path.len(),
{
    if path.len() > 0 {
        let dom = f.dirs[relative].entries.dom();
        let set = captured(dom, excludes, root);
        assert(set.subset_of(dom));
        vstd::set_lib::lemma_set_subset_finite(dom, set);
        lemma_ascending_of(set);
        let names = ascending_of(set);
        lemma_ascending_distinct(names);
        let n = names.len() as nat;
        let t = captured_entries(f, relative, excludes, names, n, fuel)->Ok_0;
        lemma_kept_reads_back(store, t, 0);
        let name = path[0];
        lemma_captured_entry(f, relative, excludes, names, n, fuel, name);
        assert(names.take(n as int) =~= names);
        assert(set.contains(name) <==> names.contains(name));
        if set.contains(name) {
            if f.dirs[relative].entries[name] is Directory {
                captured_trees_hold_their_directory(
                    f,
                    store,
                    joined(relative, name),
                    excludes,
                    false,
                    (fuel - 1) as nat,
                    path.skip(1),
                );
            }
        }
    }
}

// ---- Fingerprints ------------------------------------------------------------------------

/// The values of a directory's fingerprint: its own, then those of what it holds,
/// in the order of names.
pub open spec fn walked_dir(
    f: ScanView,
    relative: Seq<char>,
    excludes: Set<Seq<char>>,
    root: bool,
    fuel: nat,
) -> Result<Seq<TokenView>, CaptureStopView>
    decreases fuel, 1nat, 0nat,
{
    if !f.dirs.contains_key(relative) {
        Err(CaptureStopView::NeedDir(relative))
    } else {
        let dir = f.dirs[relative];
        let names = ascending_of(captured(dir.entries.dom(), excludes, root));
        walked_entries(f, relative, excludes, names, names.len() as nat, fuel)
    }
}

/// The values of a directory and of its first `n` names.
pub open spec fn walked_entries(
    f: ScanView,
    relative: Seq<char>,
    excludes: Set<Seq<char>>,
    names: Seq<Seq<char>>,
    n: nat,
    fuel: nat,
) -> Result<Seq<TokenView>, CaptureStopView>
    decreases fuel, 0nat, n,
{
    if n == 0 {
        Ok(meta_tokens(relative, KindView::Directory, f.dirs[relative].meta))
    } else {
        match walked_entries(f, relative, excludes, names, (n - 1) as nat, fuel) {
            Err(e) => Err(e),
            Ok(t) => match walked_entry(f, relative, excludes, names[n - 1], fuel) {
                Err(e) => Err(e),
                Ok(u) => Ok(t + u),
            },
        }
    }
}

/// The values of a name of a directory.
pub open spec fn walked_entry(
    f: ScanView,
    relative: Seq<char>,
    excludes: Set<Seq<char>>,
    name: Seq<char>,
    fuel: nat,
) -> Result<Seq<TokenView>, CaptureStopView>
    decreases fuel, 0nat, 0nat,
{
    let path = joined(relative, name);
    match f.dirs[relative].entries[name] {
        ScannedView::Directory => if fuel == 0 {
            Err(CaptureStopView::Cycle(path))
        } else {
            walked_dir(f, path, excludes, false, (fuel - 1) as nat)
        },
        ScannedView::File(meta) => Ok(meta_tokens(path, KindView::File, meta)),
        ScannedView::Symlink { meta, target } => Ok(
            meta_tokens(path, KindView::Symlink(target), meta),
        ),
        ScannedView::Other => Err(CaptureStopView::Unsupported(path)),
    }
}

proof fn lemma_walk_fails(
    f: ScanView,
    relative: Seq<char>,
    excludes: Set<Seq<char>>,
    names: Seq<Seq<char>>,
    k: nat,
    n: nat,
    fuel: nat,
)
    requires
        k <= n,
        walked_entries(f, relative, excludes, names, k, fuel) is Err,
    ensures
        walked_entries(f, relative, excludes, names, n, fuel) == walked_entries(
            f,
            relative,
            excludes,
            names,
            k,
            fuel,
        ),
    decreases n,
{
    if k < n {
        lemma_walk_fails(f, relative, excludes, names, k, (n - 1) as nat, fuel);
    }
}

fn push_all_tokens(out: &mut Vec<Token>, more: Vec<Token>)
    ensures
        tokens_view(final(out)@) == tokens_view(old(out)@) + tokens_view(more@),
{
    let ghost before = out@;
    let mut more = more;
    let ghost added = more@;
    out.append(&mut more);
    assert(tokens_view(out@) =~= tokens_view(before) + tokens_view(added));
}

fn walk_metadata(
    scan: &Scan,
    relative: &str,
    excludes: &StrSet,
    root: bool,
    fuel: usize,
    out: &mut Vec<Token>,
) -> (r: Result<(), CaptureStop>)
    ensures
        match r {
            Ok(_) => {
                &&& walked_dir(scan@, relative@, excludes@, root, fuel as nat) is Ok
                &&& tokens_view(final(out)@) == tokens_view(old(out)@) + walked_dir(
                    scan@,
                    relative@,
                    excludes@,
                    root,
                    fuel as nat,
                )->Ok_0
            },
            Err(e) => walked_dir(scan@, relative@, excludes@, root, fuel as nat) == Err::<
                Seq<TokenView>,
                CaptureStopView,
            >(e@),
        },
    decreases fuel,
{
    let ghost f = scan@;
    let ghost start = tokens_view(out@);
    let dir = match scan.dirs.get(relative) {
        Some(d) => d,
        None => {
            assert(!f.dirs.contains_key(relative@));
            return Err(CaptureStop::NeedDir(owned(relative)));
        },
    };
    assert(f.dirs.contains_key(relative@) && f.dirs[relative@] == dir@);
    push_all_tokens(out, fingerprint_tokens(relative, &CapturedKind::Directory, &dir.meta));
    let names = captured_names(&names_of(dir), excludes, root);
    let ghost all = texts(names@);
    let mut k: usize = 0;
    while k < names.len()
        invariant
            k <= names@.len(),
            f == scan@,
            start == tokens_view(old(out)@),
            all == texts(names@),
            all.len() == names@.len(),
            all == ascending_of(captured(dir@.entries.dom(), excludes@, root)),
            f.dirs.contains_key(relative@),
            f.dirs[relative@] == dir@,
            walked_entries(f, relative@, excludes@, all, k as nat, fuel as nat) is Ok,
            tokens_view(out@) == start + walked_entries(
                f,
                relative@,
                excludes@,
                all,
                k as nat,
                fuel as nat,
            )->Ok_0,
        decreases names@.len() - k,
    {
        let name = &names[k];
        let ghost before = tokens_view(out@);
        let ghost so_far = walked_entries(
            f,
            relative@,
            excludes@,
            all,
            k as nat,
            fuel as nat,
        )->Ok_0;
        assert(all[k as int] == name@);
        let path = path_join(relative, name);
        proof {
            lemma_captured_known(dir, excludes@, root, all, k as int);
        }
        let entry = match dir.entries.get(name) {
            None => return Err(CaptureStop::NeedDir(path)),
            Some(e) => e,
        };
        assert(dir@.entries[name@] == entry@);
        let ghost next = walked_entry(f, relative@, excludes@, name@, fuel as nat);
        let made: Result<(), CaptureStop> = match entry {
            Scanned::Directory => {
                if fuel == 0 {
                    Err(CaptureStop::Cycle(path))
                } else {
                    walk_metadata(scan, &path, excludes, false, fuel - 1, out)
                }
            },
            Scanned::File(meta) => {
                push_all_tokens(out, fingerprint_tokens(&path, &CapturedKind::File, meta));
                Ok(())
            },
            Scanned::Symlink { meta, target } => {
                let kind = CapturedKind::Symlink(target.clone());
                push_all_tokens(out, fingerprint_tokens(&path, &kind, meta));
                Ok(())
            },
            Scanned::Other => Err(CaptureStop::Unsupported(path)),
        };
        match made {
            Ok(_) => {
                assert(next is Ok);
                assert(tokens_view(out@) =~= before + next->Ok_0);
                assert(before + next->Ok_0 =~= start + (so_far + next->Ok_0));
            },
            Err(e) => {
                proof {
                    assert(next == Err::<Seq<TokenView>, CaptureStopView>(e@));
                    lemma_walk_fails(
                        f,
                        relative@,
                        excludes@,
                        all,
                        (k + 1) as nat,
                        all.len() as nat,
                        fuel as nat,
                    );
                }
                return Err(e);
            },
        }
        k += 1;
    }
    Ok(())
}

/// The values of a directory's metadata fingerprint.
pub open spec fn fingerprinted(f: ScanView, excludes: Set<Seq<char>>) -> Result<
    Seq<TokenView>,
    CaptureStopView,
> {
    match walked_dir(f, ""@, excludes, true, f.dirs.dom().len()) {
        Ok(t) => Ok(seq![TokenView::U32(SOURCE_SNAPSHOT_SCHEMA_VERSION)] + t),
        Err(e) => Err(e),
    }
}

/// What an outcome of fingerprinting is.
pub open spec fn fingerprint_outcome(r: Result<Vec<Token>, CaptureStop>) -> Result<
    Seq<TokenView>,
    CaptureStopView,
> {
    match r {
        Ok(v) => Ok(tokens_view(v@)),
        Err(e) => Err(e@),
    }
}

/// Lists the values of a directory's identity-bearing metadata, without reading
/// file contents: names, types, modes, symlink targets, and what catches
/// preserved-mtime edits and file replacement.
pub fn metadata_fingerprint(scan: &Scan, excludes: &StrSet) -> (r: Result<Vec<Token>, CaptureStop>)
    ensures
        fingerprint_outcome(r) == fingerprinted(scan@, excludes@),
{
    let n = scan.dirs.len();
    proof {
        lemma_ascending_distinct(scan.dirs.keys());
        scan.dirs.keys().unique_seq_to_set();
        assert(scan@.dirs.dom() =~= scan.dirs.keys().to_set());
    }
    let mut out: Vec<Token> = Vec::new();
    push_token(&mut out, Token::U32(SOURCE_SNAPSHOT_SCHEMA_VERSION));
    assert(tokens_view(out@) =~= seq![TokenView::U32(SOURCE_SNAPSHOT_SCHEMA_VERSION)]);
    match walk_metadata(scan, "", excludes, true, n, &mut out) {
        Ok(_) => Ok(out),
        Err(e) => Err(e),
    }
}

} // verus!
