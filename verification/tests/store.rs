//! The store: trees, captures, assembly, snapshots and build state.

use tong::action_cache::{ActionCache, CachedResult};
use tong::assemble::{assemble, conflict, mount_path_of, not_found, AssembleStop};
use tong::capture::{
    capture_dir, metadata_fingerprint, CaptureStop, Scan, Scanned, ScannedDir,
};
use tong::cas::{
    capture_excludes, cycle_message, decode_snapshot, digest_from_name, encode_snapshot,
    has_blob_cached, has_tree_closure, has_tree_closure_cached, is_executable, length_message,
    placement, snapshot_key, verify_digest, Cas, ClosureStop, ClosureVerifier, FileMeta,
    Placement, StoreFacts, TreeEntry,
};
use tong::digest::Digest;
use tong::materialize::{materialize, MaterializeStop, Step};
use tong::state::{
    graph_tokens, newest, next_kind, superseded, BuildManifest, RecordedAction, StateStore,
    BUILD_MANIFEST_SCHEMA_VERSION, MANIFESTS_KEPT_PER_PROJECT,
};
use tong::strmap::{StrMap, StrSet};
use tong::tokens::{Kind, ReadError, Token};

/// A digest of its own for each text.
fn digest(text: &str) -> Digest {
    let mut words = [0xcbf2_9ce4_8422_2325u64; 4];
    for (i, word) in words.iter_mut().enumerate() {
        for byte in text.bytes().chain([i as u8]) {
            *word = (*word ^ u64::from(byte)).wrapping_mul(0x0000_0100_0000_01b3);
        }
    }
    Digest { a: words[0], b: words[1], c: words[2], d: words[3] }
}

fn copy(entry: &TreeEntry) -> TreeEntry {
    match entry {
        TreeEntry::File { digest, executable } => TreeEntry::File {
            digest: *digest,
            executable: *executable,
        },
        TreeEntry::Directory(d) => TreeEntry::Directory(*d),
        TreeEntry::Symlink { target } => TreeEntry::Symlink { target: target.clone() },
    }
}

fn copy_tree(tree: &StrMap<TreeEntry>) -> StrMap<TreeEntry> {
    let mut out = StrMap::new();
    for i in 0..tree.len() {
        out.insert(tree.key(i).clone(), copy(tree.value(i)));
    }
    out
}

/// A store in memory.
struct Store {
    facts: StoreFacts,
}

impl Store {
    fn new() -> Store {
        Store { facts: StoreFacts::new() }
    }

    fn put_tree(&mut self, tree: StrMap<TreeEntry>) -> Digest {
        let d = digest(&format!("{tree:?}"));
        self.facts.trees.insert(d, Some(copy_tree(&tree)));
        self.facts.stored.push((tree, d));
        d
    }

    fn put_blob(&mut self, text: &str) -> Digest {
        let d = digest(text);
        self.facts.blobs.insert(d, true);
        d
    }

    fn tree(&mut self, entries: &[(&str, TreeEntry)]) -> Digest {
        let mut tree = StrMap::new();
        for (name, entry) in entries {
            tree.insert((*name).to_owned(), copy(entry));
        }
        self.put_tree(tree)
    }

    fn get(&self, d: &Digest) -> &StrMap<TreeEntry> {
        self.facts.trees.get(d).unwrap().as_ref().unwrap()
    }

    fn assemble(&mut self, mounts: &[(&str, Digest)]) -> Result<Digest, AssembleStop> {
        let mounts: Vec<(String, Digest)> =
            mounts.iter().map(|(point, tree)| ((*point).to_owned(), *tree)).collect();
        loop {
            match assemble(&self.facts, &mounts) {
                Err(AssembleStop::NeedTree(d)) => {
                    self.facts.trees.insert(d, None);
                }
                Err(AssembleStop::NeedStored(tree)) => {
                    self.put_tree(tree);
                }
                other => return other,
            }
        }
    }
}

fn file(d: Digest) -> TreeEntry {
    TreeEntry::File { digest: d, executable: false }
}

fn meta(mode: u32) -> FileMeta {
    FileMeta {
        len: 3,
        mtime: 10,
        mtime_nsec: 0,
        ctime: 10,
        ctime_nsec: 0,
        dev: 1,
        ino: 2,
        mode,
    }
}

/// A directory in memory: paths with their contents.
fn scan_of(files: &[(&str, &str)], links: &[(&str, &str)]) -> Scan {
    let mut scan = Scan { dirs: StrMap::new(), files: StrMap::new(), stored: Vec::new() };
    let mut dirs: Vec<(String, Vec<(String, Scanned)>)> = vec![(String::new(), Vec::new())];
    let mut paths: Vec<(String, Option<String>)> = Vec::new();
    for (path, text) in files {
        scan.files.insert((*path).to_owned(), digest(text));
        paths.push(((*path).to_owned(), None));
    }
    for (path, target) in links {
        paths.push(((*path).to_owned(), Some((*target).to_owned())));
    }
    for (path, target) in paths {
        let names: Vec<&str> = path.split('/').collect();
        let mut dir = String::new();
        for (i, name) in names.iter().enumerate() {
            let last = i + 1 == names.len();
            let at = dirs.iter().position(|(d, _)| *d == dir).unwrap();
            if !dirs[at].1.iter().any(|(n, _)| n == name) {
                let entry = if !last {
                    Scanned::Directory
                } else if let Some(target) = &target {
                    Scanned::Symlink { meta: meta(0o777), target: target.clone() }
                } else {
                    Scanned::File(meta(if name.ends_with(".sh") { 0o755 } else { 0o644 }))
                };
                dirs[at].1.push(((*name).to_owned(), entry));
            }
            if !last {
                dir = if dir.is_empty() { (*name).to_owned() } else { format!("{dir}/{name}") };
                if !dirs.iter().any(|(d, _)| *d == dir) {
                    dirs.push((dir.clone(), Vec::new()));
                }
            }
        }
    }
    for (dir, entries) in dirs {
        let mut map = StrMap::new();
        for (name, entry) in entries {
            map.insert(name, entry);
        }
        scan.dirs.insert(dir, ScannedDir { meta: meta(0o40755), entries: map });
    }
    scan
}

/// Captures a directory into a store.
fn capture(store: &mut Store, scan: &mut Scan, excludes: &StrSet) -> Digest {
    loop {
        match capture_dir(scan, excludes) {
            Ok(d) => {
                for i in 0..scan.files.len() {
                    store.facts.blobs.insert(*scan.files.value(i), true);
                }
                return d;
            }
            Err(CaptureStop::NeedStored(tree)) => {
                let d = store.put_tree(copy_tree(&tree));
                scan.stored.push((tree, d));
            }
            Err(other) => panic!("{other:?}"),
        }
    }
}

// ---- Trees -------------------------------------------------------------------------------

#[test]
fn blob_roundtrip() {
    let mut store = Store::new();
    let d = store.put_blob("hello tong");
    let cas = Cas::open("/store");
    let hex = d.to_hex();
    assert_eq!(
        cas.blob_path(&store.facts, &d).unwrap(),
        Some(format!("/store/blobs/{}/{}", &hex[..2], &hex[2..]))
    );
    assert_eq!(digest_from_name(&hex[..2], &hex[2..]), Some(d));
    assert_eq!(Digest::from_hex(&hex), Some(d));
}

#[test]
fn absent_and_unknown_blobs_are_told_apart() {
    let mut facts = StoreFacts::new();
    let d = digest("x");
    let cas = Cas::open("/store");
    assert_eq!(cas.blob_path(&facts, &d), Err(ClosureStop::NeedBlob(d)));
    facts.blobs.insert(d, false);
    assert_eq!(cas.blob_path(&facts, &d), Ok(None));
    assert_eq!(cas.root(), "/store");
    assert_eq!(not_found("blob abc"), "blob abc not in store");
}

#[test]
fn digest_names_are_checked() {
    assert_eq!(digest_from_name("ab", "cd"), None);
    let hex = digest("x").to_hex();
    assert_eq!(digest_from_name("zz", &hex[2..]), None);
    assert_eq!(digest_from_name(&hex[..3], &hex[3..]), None);
}

#[test]
fn capture_and_materialize_roundtrip() {
    let mut store = Store::new();
    let mut scan = scan_of(
        &[("a.txt", "aaa"), ("sub/b.txt", "bbb"), ("run.sh", "#!")],
        &[("link", "a.txt")],
    );
    let tree = capture(&mut store, &mut scan, &capture_excludes());
    let plan = materialize(&store.facts, &tree, "/out");
    assert_eq!(plan.stop, None);
    assert_eq!(
        plan.steps,
        vec![
            Step::CreateDir("/out".to_owned()),
            Step::Copy { blob: digest("aaa"), path: "/out/a.txt".to_owned(), mode: 0o644 },
            Step::Link { target: "a.txt".to_owned(), path: "/out/link".to_owned() },
            Step::Copy { blob: digest("#!"), path: "/out/run.sh".to_owned(), mode: 0o755 },
            Step::CreateDir("/out/sub".to_owned()),
            Step::Copy { blob: digest("bbb"), path: "/out/sub/b.txt".to_owned(), mode: 0o644 },
        ]
    );
}

#[test]
fn source_snapshot_detects_preserved_mtime_edit() {
    let mut scan = scan_of(&[("same-size.txt", "before")], &[]);
    let before = metadata_fingerprint(&scan, &capture_excludes()).unwrap();
    assert_eq!(metadata_fingerprint(&scan, &capture_excludes()).unwrap(), before);
    // The same name, length and mtime, but another ctime.
    let mut entries = StrMap::new();
    let mut edited = meta(0o644);
    edited.ctime = 11;
    entries.insert("same-size.txt".to_owned(), Scanned::File(edited));
    scan.dirs.insert(String::new(), ScannedDir { meta: meta(0o40755), entries });
    let after = metadata_fingerprint(&scan, &capture_excludes()).unwrap();
    assert_ne!(after, before, "ctime must invalidate a preserved-mtime edit");
}

#[test]
fn fingerprints_list_paths_in_order() {
    let scan = scan_of(&[("b", "b"), ("a/x", "x"), ("target/junk", "j")], &[("l", "b")]);
    let tokens = metadata_fingerprint(&scan, &capture_excludes()).unwrap();
    let paths: Vec<&str> = tokens
        .iter()
        .filter_map(|t| match t {
            Token::Str(s) => Some(s.as_str()),
            _ => None,
        })
        .collect();
    // The target of a link follows the link.
    assert_eq!(paths, vec!["", "a", "a/x", "b", "l", "b"]);
    assert_eq!(tokens[0], Token::U32(1));
    assert_eq!(tokens.len(), 1 + 5 * 10 + 1);
}

#[test]
fn capture_excludes_output_dirs() {
    let mut store = Store::new();
    let mut scan = scan_of(
        &[
            ("keep.txt", "k"),
            ("target/junk", "j"),
            (".tong/state", "s"),
            ("src/target/module.rs", "source"),
        ],
        &[],
    );
    let tree = capture(&mut store, &mut scan, &capture_excludes());
    let tree = store.get(&tree);
    assert!(tree.contains_key("keep.txt"));
    assert!(!tree.contains_key("target"));
    assert!(!tree.contains_key(".tong"));
    let nested = match tree.get("src").unwrap() {
        TreeEntry::Directory(d) => store.get(d),
        other => panic!("src should be a directory, got {other:?}"),
    };
    assert!(nested.contains_key("target"));
}

#[test]
fn captures_name_what_they_lack() {
    let mut scan = Scan { dirs: StrMap::new(), files: StrMap::new(), stored: Vec::new() };
    let none = StrSet::new();
    assert!(matches!(capture_dir(&scan, &none), Err(CaptureStop::NeedDir(p)) if p.is_empty()));
    let mut entries = StrMap::new();
    entries.insert("f".to_owned(), Scanned::File(meta(0o644)));
    scan.dirs.insert(String::new(), ScannedDir { meta: meta(0), entries });
    assert!(matches!(capture_dir(&scan, &none), Err(CaptureStop::NeedFile(p)) if p == "f"));
    let mut entries = StrMap::new();
    entries.insert("pipe".to_owned(), Scanned::Other);
    scan.dirs.insert(String::new(), ScannedDir { meta: meta(0), entries });
    assert!(matches!(capture_dir(&scan, &none), Err(CaptureStop::Unsupported(p)) if p == "pipe"));
    assert!(
        matches!(metadata_fingerprint(&scan, &none), Err(CaptureStop::Unsupported(p)) if p == "pipe")
    );
    assert!(is_executable(0o755) && is_executable(0o100) && !is_executable(0o644));
}

#[test]
fn assemble_merges_mounts() {
    let mut store = Store::new();
    let main = store.put_blob("fn main() {}");
    let rlib = store.put_blob("rlib");
    let base = store.tree(&[("main.rs", file(main))]);
    let dep = store.tree(&[("libfoo.rlib", file(rlib))]);
    let merged = store.assemble(&[(".", base), ("deps", dep)]).unwrap();
    let plan = materialize(&store.facts, &merged, "merged");
    assert_eq!(plan.stop, None);
    assert!(plan.steps.contains(&Step::Copy {
        blob: main,
        path: "merged/main.rs".to_owned(),
        mode: 0o644
    }));
    assert!(plan.steps.contains(&Step::Copy {
        blob: rlib,
        path: "merged/deps/libfoo.rlib".to_owned(),
        mode: 0o644
    }));
}

#[test]
fn later_mounts_overlay_directories() {
    let mut store = Store::new();
    let new = store.put_blob("new");
    let only = store.put_blob("only");
    let inner_old = store.tree(&[("f", file(new)), ("only", file(only))]);
    let inner_new = store.tree(&[("f", file(new))]);
    let base = store.tree(&[("d", TreeEntry::Directory(inner_old))]);
    let over = store.tree(&[("d", TreeEntry::Directory(inner_new))]);
    let merged = store.assemble(&[(".", base), (".", over)]).unwrap();
    let plan = materialize(&store.facts, &merged, "o");
    assert_eq!(
        plan.steps,
        vec![
            Step::CreateDir("o".to_owned()),
            Step::CreateDir("o/d".to_owned()),
            Step::Copy { blob: new, path: "o/d/f".to_owned(), mode: 0o644 },
            Step::Copy { blob: only, path: "o/d/only".to_owned(), mode: 0o644 },
        ]
    );
    // What is mounted alone is taken as it is.
    assert_eq!(store.assemble(&[(".", base)]).unwrap(), base);
    assert_eq!(store.assemble(&[(".", base), (".", base)]).unwrap(), base);
}

#[test]
fn assembly_failures_are_told_apart() {
    let mut store = Store::new();
    let blob = store.put_blob("x");
    let inner = store.tree(&[("f", file(blob))]);
    let with_file = store.tree(&[("d", file(blob))]);
    let with_dir = store.tree(&[("d", TreeEntry::Directory(inner))]);
    let stop = store.assemble(&[(".", with_file), (".", with_dir)]).unwrap_err();
    assert!(matches!(stop, AssembleStop::Conflict(name) if name == "d"));
    let stop = store.assemble(&[(".", with_file), ("d", inner)]).unwrap_err();
    assert!(matches!(stop, AssembleStop::Conflict(name) if name == "d"));
    // So are two files of one name that differ.
    let other = store.put_blob("y");
    let with_other = store.tree(&[("d", file(other))]);
    let stop = store.assemble(&[(".", with_file), (".", with_other)]).unwrap_err();
    assert!(matches!(stop, AssembleStop::Conflict(name) if name == "d"));
    assert!(matches!(store.assemble(&[]).unwrap_err(), AssembleStop::Empty));
    let absent = digest("absent");
    let stop = store.assemble(&[(".", absent), ("d", inner)]).unwrap_err();
    assert!(matches!(stop, AssembleStop::NotFound(d) if d == absent));
    assert_eq!(conflict("d"), "conflicting entries for \"d\" while assembling tree");
    assert_eq!(mount_path_of("."), Vec::<String>::new());
    assert_eq!(mount_path_of("a/b"), vec!["a", "b"]);
}

#[test]
fn a_tree_that_contains_itself_is_a_cycle() {
    let mut facts = StoreFacts::new();
    let a = digest("a");
    let b = digest("b");
    let mut tree = StrMap::new();
    tree.insert("b".to_owned(), TreeEntry::Directory(b));
    facts.trees.insert(a, Some(tree));
    let mut tree = StrMap::new();
    tree.insert("a".to_owned(), TreeEntry::Directory(a));
    facts.trees.insert(b, Some(tree));
    assert_eq!(has_tree_closure(&facts, &a), Err(ClosureStop::Cycle(a)));
    assert_eq!(
        cycle_message(&a),
        format!("tree closure contains a cycle at {}", a.to_hex())
    );
    assert!(matches!(
        materialize(&facts, &a, "o").stop,
        Some(MaterializeStop::Cycle(_))
    ));
}

#[test]
fn closures_need_every_object() {
    let mut store = Store::new();
    let blob = digest("blob");
    let inner = store.tree(&[("f", file(blob))]);
    let root = store.tree(&[("d", TreeEntry::Directory(inner))]);
    assert_eq!(has_tree_closure(&store.facts, &root), Err(ClosureStop::NeedBlob(blob)));
    store.facts.blobs.insert(blob, false);
    assert_eq!(has_tree_closure(&store.facts, &root), Ok(false));
    assert_eq!(
        materialize(&store.facts, &root, "o").stop,
        Some(MaterializeStop::NoBlob(blob))
    );
    store.facts.blobs.insert(blob, true);
    assert_eq!(has_tree_closure(&store.facts, &root), Ok(true));
    let mut verifier = ClosureVerifier::default();
    assert_eq!(has_tree_closure_cached(&store.facts, &root, &mut verifier), Ok(true));
    assert_eq!(has_tree_closure_cached(&store.facts, &inner, &mut verifier), Ok(true));
    assert_eq!(has_blob_cached(&store.facts, &blob, &mut verifier), Ok(true));
    let absent = digest("absent");
    assert_eq!(has_tree_closure(&store.facts, &absent), Err(ClosureStop::NeedTree(absent)));
    store.facts.trees.insert(absent, None);
    assert_eq!(has_tree_closure(&store.facts, &absent), Ok(false));
}

#[test]
fn materialized_files_do_not_alias_blobs() {
    let mut store = Store::new();
    let blob = store.put_blob("payload");
    let tree = store.tree(&[("f", TreeEntry::File { digest: blob, executable: true })]);
    for out in ["out1", "out2"] {
        let plan = materialize(&store.facts, &tree, out);
        // A copy, with the tree's executable bit; the blob is left alone.
        assert_eq!(
            plan.steps[1],
            Step::Copy { blob, path: format!("{out}/f"), mode: 0o755 }
        );
    }
}

#[test]
fn put_file_replaces_truncated_blob() {
    let len = "real content".len() as u64;
    assert_eq!(placement(Some(len), len, None), Placement::Fresh);
    assert_eq!(placement(Some(len), len, Some(Some(len))), Placement::Duplicate);
    assert_eq!(placement(Some(len), len, Some(Some(0))), Placement::Replace);
    assert_eq!(placement(Some(len), len, Some(None)), Placement::Replace);
    assert_eq!(placement(Some(len), 3, None), Placement::WrongLength);
    assert_eq!(placement(None, 3, Some(Some(0))), Placement::Duplicate);
}

#[test]
fn storing_failures_are_described() {
    let a = digest("a");
    let b = digest("b");
    assert_eq!(verify_digest(&a, &a), Ok(()));
    assert_eq!(
        verify_digest(&a, &b),
        Err(format!(
            "digest mismatch while storing: expected {}, wrote {}",
            a.to_hex(),
            b.to_hex()
        ))
    );
    assert_eq!(length_message(&a), format!("length mismatch while storing {}", a.to_hex()));
}

#[test]
fn snapshots_hold_under_their_fingerprint_only() {
    let tree = digest("tree");
    let fingerprint = digest("fingerprint");
    let mut tokens = encode_snapshot(&fingerprint, &tree);
    assert_eq!(decode_snapshot(&tokens, &fingerprint), Some(tree));
    assert_eq!(decode_snapshot(&tokens, &tree), None);
    tokens[0] = Token::U32(2);
    assert_eq!(decode_snapshot(&tokens, &fingerprint), None);
    let mut excludes = StrSet::new();
    excludes.insert("b".to_owned());
    excludes.insert("a".to_owned());
    assert_eq!(
        snapshot_key("/src", &excludes),
        vec![
            Token::U32(1),
            Token::Str("/src".to_owned()),
            Token::U64(2),
            Token::Str("a".to_owned()),
            Token::Str("b".to_owned()),
        ]
    );
    let key = digest("key");
    assert_eq!(
        Cas::open("/store").snapshot_path(&key),
        format!("/store/snapshots/{}.snapshot", key.to_hex())
    );
}

// ---- Results and manifests ---------------------------------------------------------------

#[test]
fn cache_roundtrip() {
    let cache = ActionCache::open("/store");
    let action = digest("action");
    let result = CachedResult {
        outputs: digest("outputs"),
        stdout: digest("stdout"),
        stderr: digest("stderr"),
        duration_millis: 42,
    };
    let hex = action.to_hex();
    assert_eq!(cache.path(&action), format!("/store/results/{}/{}", &hex[..2], &hex[2..]));
    assert_eq!(CachedResult::decode(&result.encode()), Some(result));
    assert_eq!(CachedResult::decode(&Vec::new()), None);
}

fn sample_action() -> RecordedAction {
    RecordedAction {
        action_digest: digest("action"),
        logical_id: "rust:lib:app:rlib".to_owned(),
        mnemonic: "RustLibrary".to_owned(),
        input_root: digest("inputs"),
        executable: Some(digest("rustc")),
        env_bundle: Some(digest("bundle")),
        outputs: digest("outputs"),
        stdout: digest("stdout"),
        stderr: digest("stderr"),
        duration_millis: 7,
    }
}

fn sample_manifest(project: Digest, graph: Digest, created: u64) -> BuildManifest {
    BuildManifest {
        schema_version: BUILD_MANIFEST_SCHEMA_VERSION,
        project_hash: project,
        created_at_unix_secs: created,
        graph_digest: graph,
        profiles: vec!["dev".to_owned()],
        sources: vec![digest("source")],
        toolchains: vec![digest("toolchain")],
        actions: vec![sample_action()],
        artifacts: vec![("app".to_owned(), digest("artifact"))],
    }
}

#[test]
fn manifest_roundtrip() {
    let manifest = sample_manifest(digest("project"), digest("graph"), 100);
    let tokens = manifest.encode();
    assert_eq!(BuildManifest::decode(&tokens), Ok(manifest));
}

fn kind(token: &Token) -> Kind {
    match token {
        Token::U32(_) => Kind::U32,
        Token::U64(_) => Kind::U64,
        Token::I64(_) => Kind::I64,
        Token::Str(_) => Kind::Str,
        Token::Digest(_) => Kind::Digest,
        Token::Optional(_) => Kind::Optional,
        Token::Strings(_) => Kind::Strings,
        Token::Digests(_) => Kind::Digests,
    }
}

#[test]
fn manifests_are_read_value_by_value() {
    let manifest = sample_manifest(digest("project"), digest("graph"), 100);
    let mut read: Vec<Token> = Vec::new();
    for token in manifest.encode() {
        assert_eq!(next_kind(&read), Some(kind(&token)));
        read.push(token);
    }
    assert_eq!(read.len(), 8 + 10 + 1 + 2);
    assert_eq!(next_kind(&read), None);
    assert_eq!(BuildManifest::decode(&read), Ok(manifest));
}

#[test]
fn manifests_of_other_schemas_are_rejected() {
    let mut manifest = sample_manifest(digest("project"), digest("graph"), 100);
    manifest.schema_version = 2;
    assert_eq!(
        BuildManifest::decode(&manifest.encode()),
        Err(ReadError::InvalidTag(2))
    );
    manifest.schema_version = 1;
    let mut tokens = manifest.encode();
    tokens.pop();
    assert_eq!(BuildManifest::decode(&tokens), Err(ReadError::Malformed));
    assert_eq!(BuildManifest::decode(&Vec::new()), Err(ReadError::Malformed));
}

#[test]
fn canonical_roundtrip_of_recorded_action() {
    let action = RecordedAction {
        action_digest: digest("a"),
        logical_id: "id".to_owned(),
        mnemonic: "m".to_owned(),
        input_root: digest("i"),
        executable: Some(digest("e")),
        env_bundle: Some(digest("b")),
        outputs: digest("o"),
        stdout: digest("so"),
        stderr: digest("se"),
        duration_millis: 9,
    };
    assert_eq!(RecordedAction::decode(&action.encode()), Some(action));
}

fn file_name(path: &str) -> String {
    path.rsplit_once('/').unwrap().1.to_owned()
}

#[test]
fn keeps_only_newest_manifests_on_disk() {
    let state = StateStore::open("/store");
    let project = digest("project");
    let mut names: Vec<String> = Vec::new();
    for created in 0..5u64 {
        let manifest = sample_manifest(project, digest(&created.to_string()), created);
        let path = state.manifest_path(&manifest);
        assert!(path.starts_with(&state.project_dir(&project)));
        names.push(file_name(&path));
        let old = superseded(&names);
        names.retain(|name| !old.contains(name));
    }
    names.push("tmp-1".to_owned());
    let files: Vec<&String> = names.iter().filter(|name| name.ends_with(".state")).collect();
    assert_eq!(files.len(), MANIFESTS_KEPT_PER_PROJECT);
    // The latest graph of the project is the root.
    let latest = newest(&names).unwrap();
    assert!(latest.starts_with("00000000000000000004-"));
    assert_eq!(newest(&vec!["x".to_owned()]), None);
}

#[test]
fn removes_project_manifests() {
    let state = StateStore::open("/store");
    let a = digest("a");
    let b = digest("b");
    // Each project's manifests stand in a directory of their own.
    assert_ne!(state.project_dir(&a), state.project_dir(&b));
    assert_eq!(
        state.project_dir(&a),
        format!("/store/state/projects/{}", a.to_hex())
    );
    assert_eq!(state.root(), "/store/state/projects");
}

#[test]
fn graph_digest_is_order_independent() {
    let mut a = StrMap::new();
    a.insert("x".to_owned(), digest("1"));
    a.insert("y".to_owned(), digest("2"));
    let mut b = StrMap::new();
    b.insert("y".to_owned(), digest("2"));
    b.insert("x".to_owned(), digest("1"));
    assert_eq!(graph_tokens(&a), graph_tokens(&b));
    assert_eq!(
        graph_tokens(&a),
        vec![
            Token::U64(2),
            Token::Str("x".to_owned()),
            Token::Digest(digest("1")),
            Token::Str("y".to_owned()),
            Token::Digest(digest("2")),
        ]
    );
}

#[test]
fn recorded_actions_are_found_by_identity() {
    let manifest = sample_manifest(digest("p"), digest("g"), 1);
    assert_eq!(manifest.find_action("rust:lib:app:rlib"), Some(0));
    assert_eq!(manifest.find_action("rust:bin:app:app"), None);
}
