//! Garbage collection.

use tong::cas::TreeEntry;
use tong::digest::{Digest, DigestMap, DigestSet};
use tong::gc::{links, mark, GcOptions, GcReport, Marking};
use tong::state::{gc_roots, BuildManifest, RecordedAction, BUILD_MANIFEST_SCHEMA_VERSION};
use tong::strmap::StrMap;
use tong::sweep::{is_older_than, sweep, StoreFile, Victim};

const DAY: u64 = 86_400;

fn digest(n: u64) -> Digest {
    Digest { a: n, b: 0, c: 0, d: n }
}

fn found(d: Digest, mtime: u64, size: u64) -> StoreFile {
    StoreFile { digest: Some(d), mtime_secs: mtime, size }
}

fn options(older_than: Option<u64>, now: u64) -> GcOptions {
    GcOptions { older_than, max_size: None, dry_run: false, now }
}

fn manifest_marking(actions: &[Digest], sources: &[Digest]) -> BuildManifest {
    BuildManifest {
        schema_version: BUILD_MANIFEST_SCHEMA_VERSION,
        project_hash: digest(900),
        created_at_unix_secs: 1,
        graph_digest: digest(901),
        profiles: vec!["dev".to_owned()],
        sources: sources.to_vec(),
        toolchains: vec![digest(902)],
        actions: actions
            .iter()
            .map(|d| RecordedAction {
                action_digest: *d,
                logical_id: "a".to_owned(),
                mnemonic: "m".to_owned(),
                input_root: digest(903),
                executable: None,
                env_bundle: None,
                outputs: digest(904),
                stdout: digest(905),
                stderr: digest(906),
                duration_millis: 0,
            })
            .collect(),
        artifacts: vec![("app".to_owned(), digest(907))],
    }
}

fn tree(entries: &[(&str, Digest)]) -> Option<StrMap<TreeEntry>> {
    let mut out = StrMap::new();
    for (name, d) in entries {
        out.insert((*name).to_owned(), TreeEntry::File { digest: *d, executable: false });
    }
    Some(out)
}

/// Marks from manifests; objects without links have none.
fn marked(manifests: &Vec<BuildManifest>, objects: &[(Digest, Vec<Digest>)]) -> DigestSet {
    let roots = gc_roots(manifests);
    let mut known: DigestMap<Vec<Digest>> = DigestMap::new();
    for (d, children) in objects {
        known.insert(*d, children.clone());
    }
    loop {
        match mark(&roots, &known) {
            Marking::Marked(set) => return set,
            Marking::Unknown(list) => {
                assert!(!list.is_empty());
                for d in list {
                    assert!(known.insert(d, Vec::new()));
                }
            }
        }
    }
}

#[test]
fn sweep_deletes_only_unmarked_and_reports_counts() {
    let (live, dead) = (digest(1), digest(2));
    let (dead_blob, dead_tree, bundle) = (digest(3), digest(4), digest(5));
    let (live_blob, live_tree) = (digest(6), digest(7));
    let manifests = vec![manifest_marking(&[live], &[live_tree])];
    let children = links(&tree(&[("f", live_blob)]), &None);
    let marked = marked(&manifests, &[(live_tree, children)]);
    let now = 1_000_000;
    let results = vec![found(live, now, 10), found(dead, now, 10)];
    let objects = vec![
        found(dead_blob, now, 9),
        found(live_blob, now, 9),
        found(dead_tree, now, 30),
        found(live_tree, now, 30),
        found(bundle, now, 40),
    ];
    let swept = sweep(&results, &Vec::new(), &objects, &Vec::new(), &marked, &options(Some(0), now));
    assert_eq!(swept.report.marked_results, 1);
    assert_eq!(swept.report.deleted_results, 1);
    assert_eq!(swept.report.deleted_objects, 3); // dead blob, dead tree, bundle
    assert_eq!(swept.report.marked_objects, 2);
    assert!(swept.report.freed_bytes > 0);
    assert_eq!(swept.report.freed_bytes, 89);
    assert_eq!(swept.report.store_bytes, 138);
    assert_eq!(
        swept.deletions,
        vec![Victim::Result(1), Victim::Object(0), Victim::Object(2), Victim::Object(4)]
    );
    assert_eq!(
        swept.report.to_text(),
        "gc: kept 1 results, 2 objects; deleted 1 results, 3 objects (89 freed, store 138 bytes)"
    );
}

#[test]
fn age_floor_keeps_recent_unmarked_objects() {
    let now = 100 * DAY;
    let results = vec![found(digest(2), now, 10)];
    let none = DigestSet::new();
    let swept = sweep(&results, &Vec::new(), &Vec::new(), &Vec::new(), &none, &options(Some(7 * DAY), now));
    // The result file is fresh (mtime == now); retention keeps it.
    assert_eq!(swept.report.deleted_results, 0);
    assert!(swept.deletions.is_empty());
}

#[test]
fn budget_sweep_respects_24h_floor_and_oldest_first() {
    let now = 400 * DAY;
    let none = DigestSet::new();
    let opts = GcOptions {
        // A long age floor isolates the budget sweep: nothing is deleted by
        // age, only by the budget.
        older_than: Some(365 * DAY),
        max_size: Some(0),
        dry_run: false,
        now,
    };
    // One hour old: protected by the 24h floor.
    let results = vec![found(digest(3), now - 3600, 10)];
    let swept = sweep(&results, &Vec::new(), &Vec::new(), &Vec::new(), &none, &opts);
    assert_eq!(swept.report.deleted_results, 0, "younger than 24h must survive");

    // Two days old: deleted by the budget sweep.
    let results = vec![found(digest(3), now - 2 * DAY, 10)];
    let swept = sweep(&results, &Vec::new(), &Vec::new(), &Vec::new(), &none, &opts);
    assert_eq!(swept.report.deleted_results, 1);
    assert_eq!(swept.deletions, vec![Victim::Result(0)]);
}

#[test]
fn budget_sweeps_stop_when_the_store_fits() {
    let now = 400 * DAY;
    let none = DigestSet::new();
    let opts = GcOptions {
        older_than: Some(365 * DAY),
        max_size: Some(25),
        dry_run: false,
        now,
    };
    let objects = vec![
        found(digest(1), now - 2 * DAY, 10),
        found(digest(2), now - 9 * DAY, 10),
        found(digest(3), now - 5 * DAY, 10),
        found(digest(4), now - 9 * DAY, 10),
    ];
    let swept = sweep(&Vec::new(), &Vec::new(), &objects, &Vec::new(), &none, &opts);
    // Oldest first, those of one age as they were listed.
    assert_eq!(swept.deletions, vec![Victim::Object(1), Victim::Object(3)]);
    assert_eq!(swept.report.freed_bytes, 20);
}

#[test]
fn dry_run_reports_without_deleting() {
    let now = 1_000_000;
    let results = vec![found(digest(4), now, 10)];
    let none = DigestSet::new();
    let mut opts = options(Some(0), now);
    let wet = sweep(&results, &Vec::new(), &Vec::new(), &Vec::new(), &none, &opts);
    opts.dry_run = true;
    let dry = sweep(&results, &Vec::new(), &Vec::new(), &Vec::new(), &none, &opts);
    assert_eq!(dry.report.deleted_results, 1);
    assert!(dry.deletions.is_empty());
    assert_eq!(dry.report, wet.report);
}

#[test]
fn marked_objects_survive() {
    let live = digest(5);
    let (blob, kept) = (digest(6), digest(7));
    let manifests = vec![manifest_marking(&[live], &[kept])];
    let children = links(&tree(&[("f", blob)]), &None);
    let marked = marked(&manifests, &[(kept, children)]);
    let results = vec![found(live, 2_000_000, 10)];
    let objects = vec![found(blob, 2_000_000, 4), found(kept, 2_000_000, 30)];
    let swept = sweep(&results, &Vec::new(), &objects, &Vec::new(), &marked, &options(Some(0), 1_000_000));
    assert_eq!(swept.report.deleted_results, 0);
    assert_eq!(swept.report.deleted_objects, 0);
    assert!(swept.deletions.is_empty());
}

#[test]
fn tmp_leftovers_are_deleted() {
    let now = 1_000_000;
    let tmp = vec![
        StoreFile { digest: None, mtime_secs: now - 2 * DAY, size: 8 },
        StoreFile { digest: None, mtime_secs: now - 60, size: 8 },
    ];
    let none = DigestSet::new();
    let swept = sweep(&Vec::new(), &Vec::new(), &Vec::new(), &tmp, &none, &options(None, now));
    assert_eq!(swept.report.deleted_objects, 1);
    assert_eq!(swept.deletions, vec![Victim::Tmp(0)]);
}

#[test]
fn leftovers_without_a_digest_are_garbage() {
    let mut all = DigestSet::new();
    all.insert(digest(1));
    let objects = vec![
        found(digest(1), 5, 1),
        StoreFile { digest: None, mtime_secs: 5, size: 2 },
    ];
    let swept = sweep(&Vec::new(), &Vec::new(), &objects, &Vec::new(), &all, &options(None, 5));
    assert_eq!(swept.deletions, vec![Victim::Object(1)]);
    assert_eq!(
        swept.report,
        GcReport {
            marked_results: 0,
            marked_objects: 1,
            deleted_results: 0,
            deleted_objects: 1,
            store_bytes: 3,
            freed_bytes: 2,
        }
    );
}

#[test]
fn ages_meet_their_floor() {
    assert!(is_older_than(100, 0, None));
    // A floor of nothing deletes everything, whatever the clock says.
    assert!(is_older_than(100, 0, Some(0)));
    assert!(is_older_than(100, 110, Some(10)));
    assert!(!is_older_than(100, 109, Some(10)));
    // What lies ahead of the clock has no age, and no sum leaves the integers.
    assert!(!is_older_than(u64::MAX, 0, Some(1)));
    assert!(!is_older_than(1, 10, Some(u64::MAX)));
}

#[test]
fn marking_follows_trees_and_bundles() {
    let (root, sub, blob, bundle) = (digest(1), digest(2), digest(3), digest(4));
    let mut entries = StrMap::new();
    entries.insert("d".to_owned(), TreeEntry::Directory(sub));
    entries.insert("l".to_owned(), TreeEntry::Symlink { target: "x".to_owned() });
    assert_eq!(links(&Some(entries), &None), vec![sub]);
    assert_eq!(links(&None, &Some(root)), vec![root]);
    let mut roots = DigestSet::new();
    roots.insert(bundle);
    let mut known: DigestMap<Vec<Digest>> = DigestMap::new();
    known.insert(bundle, vec![root]);
    known.insert(root, vec![sub]);
    match mark(&roots, &known) {
        Marking::Unknown(list) => assert_eq!(list, vec![sub]),
        Marking::Marked(_) => panic!("the links of a subtree are not known"),
    }
    known.insert(sub, vec![blob, root]);
    known.insert(blob, Vec::new());
    match mark(&roots, &known) {
        Marking::Marked(set) => {
            assert_eq!(set.len(), 4);
            assert!(set.contains(&blob));
        }
        Marking::Unknown(list) => panic!("{list:?}"),
    }
}

#[test]
fn every_reference_of_a_manifest_is_a_root() {
    let mut manifest = manifest_marking(&[digest(1)], &[digest(2)]);
    manifest.actions[0].executable = Some(digest(3));
    manifest.actions[0].env_bundle = Some(digest(4));
    let roots = gc_roots(&vec![manifest]);
    for n in [1, 2, 3, 4, 902, 903, 904, 905, 906, 907] {
        assert!(roots.contains(&digest(n)), "{n}");
    }
    assert_eq!(roots.len(), 10);
}

#[test]
fn surviving_results_keep_what_they_reference() {
    let now = 400 * DAY;
    let none = DigestSet::new();
    let (outputs, stdout, garbage) = (digest(10), digest(11), digest(12));
    // A young result, and older objects: it references two of the three.
    let results = vec![found(digest(1), now - DAY, 10)];
    let references = vec![vec![outputs, stdout]];
    let objects = vec![
        found(outputs, now - 300 * DAY, 10),
        found(stdout, now - 300 * DAY, 10),
        found(garbage, now - 300 * DAY, 10),
    ];
    let swept =
        sweep(&results, &references, &objects, &Vec::new(), &none, &options(Some(7 * DAY), now));
    assert_eq!(swept.deletions, vec![Victim::Object(2)]);
    // Without the result they go.
    let swept =
        sweep(&results, &references, &objects, &Vec::new(), &none, &options(Some(DAY), now));
    assert_eq!(
        swept.deletions,
        vec![Victim::Result(0), Victim::Object(0), Victim::Object(1), Victim::Object(2)]
    );
}

#[test]
fn budgets_free_what_their_results_referenced() {
    let now = 400 * DAY;
    let none = DigestSet::new();
    let mut opts = options(Some(365 * DAY), now);
    opts.max_size = Some(10);
    let results = vec![found(digest(1), now - 2 * DAY, 10), found(digest(2), now - 60, 10)];
    let references = vec![vec![digest(10)], vec![digest(11)]];
    let objects =
        vec![found(digest(10), now - 3 * DAY, 10), found(digest(11), now - 3 * DAY, 10)];
    let swept = sweep(&results, &references, &objects, &Vec::new(), &none, &opts);
    // The result of this minute stays, with its object.
    assert_eq!(swept.deletions, vec![Victim::Result(0), Victim::Object(0)]);
    assert!(swept.report.freed_bytes <= swept.report.store_bytes);
}

#[test]
fn budgets_take_the_oldest_of_results_and_objects() {
    let now = 900_000 + DAY;
    let none = DigestSet::new();
    let mut opts = options(Some(365 * DAY), now);
    opts.max_size = Some(10);
    let results = vec![found(digest(1), now - 200_000, 10)];
    let objects = vec![found(digest(2), now - 900_000, 10)];
    let swept = sweep(&results, &vec![vec![]], &objects, &Vec::new(), &none, &opts);
    assert_eq!(swept.deletions, vec![Victim::Object(0)]);
    // The other way round the result goes; of one age it goes first.
    let results = vec![found(digest(1), now - 900_000, 10)];
    let objects = vec![found(digest(2), now - 200_000, 10)];
    let swept = sweep(&results, &vec![vec![]], &objects, &Vec::new(), &none, &opts);
    assert_eq!(swept.deletions, vec![Victim::Result(0)]);
    let objects = vec![found(digest(2), now - 900_000, 10)];
    let swept = sweep(&results, &vec![vec![]], &objects, &Vec::new(), &none, &opts);
    assert_eq!(swept.deletions, vec![Victim::Result(0)]);
    // Whatever their ages, results are deleted first.
    opts.max_size = Some(0);
    let results = vec![found(digest(1), now - 200_000, 10)];
    let swept = sweep(&results, &vec![vec![]], &objects, &Vec::new(), &none, &opts);
    assert_eq!(swept.deletions, vec![Victim::Result(0), Victim::Object(0)]);
}

#[test]
fn held_objects_wait_for_their_results() {
    let now = 400 * DAY;
    let none = DigestSet::new();
    let mut opts = options(Some(365 * DAY), now);
    // The oldest object is held by a result that is younger than the others.
    let results = vec![found(digest(1), now - 2 * DAY, 10), found(digest(2), now - 4 * DAY, 10)];
    let references = vec![vec![digest(10)], vec![digest(10)]];
    let objects =
        vec![found(digest(10), now - 9 * DAY, 10), found(digest(11), now - 3 * DAY, 10)];
    let sweep_to = |opts: &GcOptions| {
        sweep(&results, &references, &objects, &Vec::new(), &none, opts).deletions
    };
    opts.max_size = Some(40);
    assert_eq!(sweep_to(&opts), vec![]);
    opts.max_size = Some(30);
    assert_eq!(sweep_to(&opts), vec![Victim::Result(1)]);
    opts.max_size = Some(20);
    assert_eq!(sweep_to(&opts), vec![Victim::Result(1), Victim::Object(1)]);
    // The budget is met as its last result goes: the object is free, and stays.
    opts.max_size = Some(10);
    assert_eq!(sweep_to(&opts), vec![Victim::Result(1), Victim::Result(0), Victim::Object(1)]);
    opts.max_size = Some(0);
    assert_eq!(
        sweep_to(&opts),
        vec![Victim::Result(1), Victim::Result(0), Victim::Object(1), Victim::Object(0)]
    );
}
