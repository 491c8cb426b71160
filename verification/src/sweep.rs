//! The sweep of garbage collection: what is deleted, and in which order.

use vstd::prelude::*;
use vstd::string::*;
use crate::digest::{Digest, DigestMap, DigestSet};
use crate::gc::{GcOptions, GcReport, AGE_FLOOR_SECS};

verus! {

/// A file of the store.
#[derive(Clone, Copy, Debug, PartialEq, Eq, Structural)]
pub struct StoreFile {
    /// The digest that its name stands for; leftovers have none.
    pub digest: Option<Digest>,
    /// When it was modified (unix seconds).
    pub mtime_secs: u64,
    /// Its size in bytes.
    pub size: u64,
}

/// A file to delete, by its position.
#[derive(Clone, Copy, Debug, PartialEq, Eq, Structural)]
pub enum Victim {
    /// A file of the results.
    Result(usize),
    /// A file of the objects.
    Object(usize),
    /// A temporary file.
    Tmp(usize),
}

/// An unmarked file.
#[derive(Clone, Copy, Debug, PartialEq, Eq, Structural)]
pub struct Candidate {
    /// Which one it is.
    pub victim: Victim,
    /// When it was modified (unix seconds); for an object that waits for results,
    /// when the youngest of these was.
    pub mtime_secs: u64,
    /// Its size in bytes.
    pub size: u64,
}

/// What a sweep comes to.
pub struct Sweep {
    /// The counts.
    pub report: GcReport,
    /// The files to delete, in order; none on a dry run.
    pub deletions: Vec<Victim>,
}

/// Whether a file's age meets the deletion floor. Without a floor, and with one
/// of nothing, every file's does.
pub open spec fn old_enough(mtime: u64, now: u64, older_than: Option<u64>) -> bool {
    match older_than {
        None => true,
        Some(floor) => floor == 0 || now - mtime >= floor,
    }
}

/// Whether a file's age meets the deletion floor. `None` and zero delete
/// everything.
pub fn is_older_than(mtime_secs: u64, now: u64, older_than: Option<u64>) -> (r: bool)
    ensures
        r == old_enough(mtime_secs, now, older_than),
{
    match older_than {
        None => true,
        Some(floor) => floor == 0 || (mtime_secs <= now && now - mtime_secs >= floor),
    }
}

/// Whether a file is at least 24h old.
pub open spec fn settled(mtime: u64, now: u64) -> bool {
    mtime + AGE_FLOOR_SECS <= now
}

fn is_settled(mtime: u64, now: u64) -> (r: bool)
    ensures
        r == settled(mtime, now),
{
    mtime <= now && now - mtime >= AGE_FLOOR_SECS
}

/// Whether a file's digest is marked.
pub open spec fn is_marked(marked: Set<Digest>, file: StoreFile) -> bool {
    file.digest is Some && marked.contains(file.digest->0)
}

/// The number of marked files among the first `n`.
pub open spec fn marked_count(files: Seq<StoreFile>, marked: Set<Digest>, n: int) -> nat
    decreases n,
{
    if n <= 0 {
        0
    } else {
        marked_count(files, marked, n - 1) + (if is_marked(marked, files[n - 1]) {
            1nat
        } else {
            0nat
        })
    }
}

/// The size of the first `n` files together.
pub open spec fn size_of(files: Seq<StoreFile>, n: int) -> nat
    decreases n,
{
    if n <= 0 {
        0
    } else {
        size_of(files, n - 1) + files[n - 1].size as nat
    }
}

/// Which list of files a candidate is of.
#[derive(Clone, Copy, Debug, PartialEq, Eq, Structural)]
pub enum Area {
    /// The results.
    Results,
    /// The objects.
    Objects,
    /// The temporary files.
    Tmp,
}

/// The candidate that a file is.
pub open spec fn candidate(area: Area, files: Seq<StoreFile>, i: int) -> Candidate {
    Candidate {
        victim: match area {
            Area::Results => Victim::Result(i as usize),
            Area::Objects => Victim::Object(i as usize),
            Area::Tmp => Victim::Tmp(i as usize),
        },
        mtime_secs: files[i].mtime_secs,
        size: files[i].size,
    }
}

/// The candidates that are picked among the first `n` files.
pub open spec fn chosen(area: Area, files: Seq<StoreFile>, pick: spec_fn(int) -> bool, n: int) -> Seq<
    Candidate,
>
    decreases n,
{
    if n <= 0 {
        Seq::empty()
    } else if pick(n - 1) {
        chosen(area, files, pick, n - 1).push(candidate(area, files, n - 1))
    } else {
        chosen(area, files, pick, n - 1)
    }
}

/// What a sweep is about.
pub struct Stock {
    /// The files of the results.
    pub results: Seq<StoreFile>,
    /// What each result references: its outputs, its two logs, and all that these
    /// reach.
    pub references: Seq<Vec<Digest>>,
    /// The files of the objects.
    pub objects: Seq<StoreFile>,
    /// The temporary files.
    pub tmp: Seq<StoreFile>,
    /// What is marked.
    pub marked: Set<Digest>,
}

/// Whether a result references a digest.
pub open spec fn refers(references: Seq<Vec<Digest>>, i: int, d: Digest) -> bool {
    0 <= i < references.len() && references[i]@.contains(d)
}

/// Whether a result is among these.
pub open spec fn has_result(gone: Seq<Candidate>, i: int) -> bool {
    victims(gone).contains(Victim::Result(i as usize))
}

/// What is kept when these results go: what is marked, and what the other results
/// reference.
pub open spec fn held(s: Stock, gone: Seq<Candidate>) -> Set<Digest> {
    Set::new(
        |d: Digest|
            s.marked.contains(d) || exists|i: int|
                0 <= i < s.results.len() && !has_result(gone, i) && #[trigger] refers(
                    s.references,
                    i,
                    d,
                ),
    )
}

/// The unmarked results whose age meets the floor.
pub open spec fn due_result(s: Stock, opts: GcOptions) -> spec_fn(int) -> bool {
    |i: int|
        !is_marked(s.marked, s.results[i]) && old_enough(
            s.results[i].mtime_secs,
            opts.now,
            opts.older_than,
        )
}

/// The unmarked results that age leaves and that are at least 24h old.
pub open spec fn left_result(s: Stock, opts: GcOptions) -> spec_fn(int) -> bool {
    |i: int|
        !is_marked(s.marked, s.results[i]) && !old_enough(
            s.results[i].mtime_secs,
            opts.now,
            opts.older_than,
        ) && settled(s.results[i].mtime_secs, opts.now)
}

/// The objects that are not kept and whose age meets the floor.
pub open spec fn due_object(s: Stock, kept: Set<Digest>, opts: GcOptions) -> spec_fn(int) -> bool {
    |i: int|
        !is_marked(kept, s.objects[i]) && old_enough(
            s.objects[i].mtime_secs,
            opts.now,
            opts.older_than,
        )
}

/// The objects that are no longer kept, that age has left and that are at least
/// 24h old.
pub open spec fn left_object(
    s: Stock,
    kept: Set<Digest>,
    still: Set<Digest>,
    opts: GcOptions,
) -> spec_fn(int) -> bool {
    |i: int|
        !is_marked(still, s.objects[i]) && !due_object(s, kept, opts)(i) && settled(
            s.objects[i].mtime_secs,
            opts.now,
        )
}

/// The temporary files that are stale.
pub open spec fn stale(s: Stock, opts: GcOptions) -> spec_fn(int) -> bool {
    |i: int| settled(s.tmp[i].mtime_secs, opts.now)
}

/// Whether a candidate comes before another in a budget sweep: it is older, or as
/// old and listed before.
pub open spec fn sooner(c: Seq<Candidate>, i: int, j: int) -> bool {
    c[i].mtime_secs < c[j].mtime_secs || (c[i].mtime_secs == c[j].mtime_secs && i < j)
}

/// Whether positions stand in the order of a budget sweep.
pub open spec fn in_order(c: Seq<Candidate>, order: Seq<int>) -> bool {
    forall|i: int, j: int|
        0 <= i < j < order.len() ==> sooner(c, #[trigger] order[i], #[trigger] order[j])
}

/// The positions of the candidates, oldest first.
pub open spec fn oldest_first(c: Seq<Candidate>) -> Seq<int> {
    choose|order: Seq<int>| #[trigger]
        in_order(c, order) && forall|i: int| order.contains(i) <==> 0 <= i < c.len()
}

/// The candidates that the budget deletes, from the `k`th in order on, when the
/// store has `current` bytes.
pub open spec fn over_budget(
    c: Seq<Candidate>,
    order: Seq<int>,
    k: int,
    current: int,
    budget: int,
) -> Seq<Candidate>
    decreases order.len() - k,
{
    if k < 0 || k >= order.len() || current <= budget {
        Seq::empty()
    } else {
        seq![c[order[k]]] + over_budget(c, order, k + 1, current - c[order[k]].size, budget)
    }
}

/// The bytes of candidates.
pub open spec fn bytes_of(c: Seq<Candidate>) -> nat
    decreases c.len(),
{
    if c.len() == 0 {
        0
    } else {
        bytes_of(c.drop_last()) + c.last().size as nat
    }
}

/// The results that age deletes.
pub open spec fn aged_results(s: Stock, opts: GcOptions) -> Seq<Candidate> {
    chosen(Area::Results, s.results, due_result(s, opts), s.results.len() as int)
}

/// What is kept by age: what is marked, and what the results that age leaves
/// reference.
pub open spec fn kept_by_age(s: Stock, opts: GcOptions) -> Set<Digest> {
    held(s, aged_results(s, opts))
}

/// The files that go whatever the budget: results and then objects by age, and
/// stale temporary files.
pub open spec fn by_age(s: Stock, opts: GcOptions) -> Seq<Candidate> {
    aged_results(s, opts) + chosen(
        Area::Objects,
        s.objects,
        due_object(s, kept_by_age(s, opts), opts),
        s.objects.len() as int,
    ) + chosen(Area::Tmp, s.tmp, stale(s, opts), s.tmp.len() as int)
}

/// These candidates, oldest first, until the store has no more than the budget.
pub open spec fn cut(c: Seq<Candidate>, current: int, budget: int) -> Seq<Candidate> {
    over_budget(c, oldest_first(c), 0, current, budget)
}

/// The results that age leaves to a budget.
pub open spec fn spare_results(s: Stock, opts: GcOptions) -> Seq<Candidate> {
    chosen(Area::Results, s.results, left_result(s, opts), s.results.len() as int)
}

/// What is kept whatever a budget deletes: what is marked, and what the results
/// that no budget touches reference.
pub open spec fn kept_for_good(s: Stock, opts: GcOptions) -> Set<Digest> {
    held(s, aged_results(s, opts) + spare_results(s, opts))
}

/// When the youngest was modified of those of the first `n` results that age leaves
/// and that reference a digest.
pub open spec fn youngest(s: Stock, opts: GcOptions, d: Digest, n: int) -> Option<u64>
    decreases n,
{
    if n <= 0 {
        None
    } else {
        let before = youngest(s, opts, d, n - 1);
        if refers(s.references, n - 1, d) && !due_result(s, opts)(n - 1) {
            match before {
                Some(t) if t >= s.results[n - 1].mtime_secs => before,
                _ => Some(s.results[n - 1].mtime_secs),
            }
        } else {
            before
        }
    }
}

/// The time by which an object takes its turn: when it was modified or, where that
/// was later, when the youngest result that holds it was.
pub open spec fn turn(s: Stock, opts: GcOptions, file: StoreFile) -> u64 {
    match file.digest {
        Some(d) => match youngest(s, opts, d, s.results.len() as int) {
            Some(t) if t > file.mtime_secs => t,
            _ => file.mtime_secs,
        },
        None => file.mtime_secs,
    }
}

/// The objects, each with the time by which it takes its turn: one that results
/// hold waits until they are gone.
pub open spec fn waiting(s: Stock, opts: GcOptions) -> Seq<StoreFile> {
    s.objects.map_values(
        |file: StoreFile|
            StoreFile { digest: file.digest, mtime_secs: turn(s, opts, file), size: file.size },
    )
}

/// The objects that age leaves to a budget.
pub open spec fn spare_objects(s: Stock, opts: GcOptions) -> Seq<Candidate> {
    chosen(
        Area::Objects,
        waiting(s, opts),
        left_object(s, kept_by_age(s, opts), kept_for_good(s, opts), opts),
        s.objects.len() as int,
    )
}

/// The results and the objects that a budget deletes, oldest first.
pub open spec fn cut_files(s: Stock, opts: GcOptions, budget: int) -> Seq<Candidate> {
    cut(
        spare_results(s, opts) + spare_objects(s, opts),
        store_size(s) - bytes_of(by_age(s, opts)),
        budget,
    )
}

/// Those of these candidates that are results, or those that are not.
pub open spec fn parted(c: Seq<Candidate>, results: bool) -> Seq<Candidate>
    decreases c.len(),
{
    if c.len() == 0 {
        Seq::empty()
    } else if (c.last().victim is Result) == results {
        parted(c.drop_last(), results).push(c.last())
    } else {
        parted(c.drop_last(), results)
    }
}

/// The files that a budget deletes, results before objects.
pub open spec fn by_budget(s: Stock, opts: GcOptions, budget: int) -> Seq<Candidate> {
    let c = cut_files(s, opts, budget);
    parted(c, true) + parted(c, false)
}

/// The files that are deleted: by age, and then by the budget where the store
/// exceeds it. In both, results go before objects, and no object goes that a result
/// which stays references.
pub open spec fn doomed(s: Stock, opts: GcOptions) -> Seq<Candidate> {
    match opts.max_size {
        Some(budget) if store_size(s) > budget => by_age(s, opts) + by_budget(
            s,
            opts,
            budget as int,
        ),
        _ => by_age(s, opts),
    }
}

/// The size of the whole store.
pub open spec fn store_size(s: Stock) -> nat {
    size_of(s.results, s.results.len() as int) + size_of(s.objects, s.objects.len() as int)
        + size_of(s.tmp, s.tmp.len() as int)
}

/// The number of results among candidates.
pub open spec fn result_count(c: Seq<Candidate>) -> nat
    decreases c.len(),
{
    if c.len() == 0 {
        0
    } else {
        result_count(c.drop_last()) + (if c.last().victim is Result {
            1nat
        } else {
            0nat
        })
    }
}

/// Which files candidates are.
pub open spec fn victims(c: Seq<Candidate>) -> Seq<Victim> {
    c.map_values(|x: Candidate| x.victim)
}

/// The counts of a sweep.
pub open spec fn reported(s: Stock, opts: GcOptions) -> GcReport {
    let gone = doomed(s, opts);
    GcReport {
        marked_results: marked_count(s.results, s.marked, s.results.len() as int) as usize,
        marked_objects: marked_count(s.objects, s.marked, s.objects.len() as int) as usize,
        deleted_results: result_count(gone) as usize,
        deleted_objects: (gone.len() - result_count(gone)) as usize,
        store_bytes: store_size(s) as u64,
        freed_bytes: bytes_of(gone) as u64,
    }
}

// ---- Oldest first ------------------------------------------------------------------------

spec fn ints(v: Seq<usize>) -> Seq<int> {
    v.map_values(|x: usize| x as int)
}

proof fn lemma_order_distinct(c: Seq<Candidate>, a: Seq<int>)
    requires
        in_order(c, a),
    ensures
        a.no_duplicates(),
{
    assert forall|i: int, j: int| 0 <= i < a.len() && 0 <= j < a.len() && i != j implies a[i]
        != a[j] by {
        if i < j {
            assert(sooner(c, a[i], a[j]));
        } else {
            assert(sooner(c, a[j], a[i]));
        }
    }
}

proof fn lemma_order_unique(c: Seq<Candidate>, a: Seq<int>, b: Seq<int>)
    requires
        in_order(c, a),
        in_order(c, b),
        forall|k: int| a.contains(k) <==> b.contains(k),
    ensures
        a == b,
    decreases a.len(),
{
    if a.len() == 0 {
        if b.len() > 0 {
            assert(b.contains(b[0]));
        }
        assert(a =~= b);
    } else {
        assert(a.contains(a.last()));
        assert(b.contains(a.last()));
        assert(b.len() > 0);
        assert(b.contains(b.last()));
        assert(a.contains(b.last()));
        let x = choose|x: int| 0 <= x < b.len() && b[x] == a.last();
        let y = choose|y: int| 0 <= y < a.len() && a[y] == b.last();
        if x < b.len() - 1 {
            assert(sooner(c, b[x], b[b.len() - 1]));
            if y < a.len() - 1 {
                assert(sooner(c, a[y], a[a.len() - 1]));
            }
        }
        assert(a.last() == b.last());
        let p = a.drop_last();
        let q = b.drop_last();
        lemma_order_distinct(c, a);
        lemma_order_distinct(c, b);
        assert forall|k: int| p.contains(k) <==> q.contains(k) by {
            if p.contains(k) {
                let i = choose|i: int| 0 <= i < p.len() && p[i] == k;
                assert(a[i] == k && a[i] != a[a.len() - 1]);
                assert(a.contains(k));
                assert(b.contains(k));
                let j = choose|j: int| 0 <= j < b.len() && b[j] == k;
                assert(q[j] == k);
            }
            if q.contains(k) {
                let i = choose|i: int| 0 <= i < q.len() && q[i] == k;
                assert(b[i] == k && b[i] != b[b.len() - 1]);
                assert(b.contains(k));
                assert(a.contains(k));
                let j = choose|j: int| 0 <= j < a.len() && a[j] == k;
                assert(p[j] == k);
            }
        }
        assert forall|i: int, j: int| 0 <= i < j < p.len() implies sooner(
            c,
            #[trigger] p[i],
            #[trigger] p[j],
        ) by {
            assert(sooner(c, a[i], a[j]));
        }
        assert forall|i: int, j: int| 0 <= i < j < q.len() implies sooner(
            c,
            #[trigger] q[i],
            #[trigger] q[j],
        ) by {
            assert(sooner(c, b[i], b[j]));
        }
        lemma_order_unique(c, p, q);
        assert(a =~= p.push(a.last()));
        assert(b =~= q.push(b.last()));
    }
}

fn is_sooner(c: &Vec<Candidate>, i: usize, j: usize) -> (r: bool)
    requires
        i < c@.len(),
        j < c@.len(),
    ensures
        r == sooner(c@, i as int, j as int),
{
    c[i].mtime_secs < c[j].mtime_secs || (c[i].mtime_secs == c[j].mtime_secs && i < j)
}

/// Two ordered lists of positions merged into one.
fn merge_orders(c: &Vec<Candidate>, left: &Vec<usize>, right: &Vec<usize>) -> (r: Vec<usize>)
    requires
        in_order(c@, ints(left@)),
        in_order(c@, ints(right@)),
        forall|i: int| 0 <= i < left@.len() ==> (#[trigger] left@[i]) < c@.len(),
        forall|i: int| 0 <= i < right@.len() ==> (#[trigger] right@[i]) < c@.len(),
        forall|i: int, j: int|
            0 <= i < left@.len() && 0 <= j < right@.len() ==> (#[trigger] left@[i])
                != #[trigger] right@[j],
    ensures
        in_order(c@, ints(r@)),
        forall|x: usize| r@.contains(x) <==> left@.contains(x) || right@.contains(x),
{
    let mut out: Vec<usize> = Vec::new();
    let mut i: usize = 0;
    let mut j: usize = 0;
    while i < left.len() || j < right.len()
        invariant
            i <= left@.len(),
            j <= right@.len(),
            in_order(c@, ints(left@)),
            in_order(c@, ints(right@)),
            forall|a: int| 0 <= a < left@.len() ==> (#[trigger] left@[a]) < c@.len(),
            forall|a: int| 0 <= a < right@.len() ==> (#[trigger] right@[a]) < c@.len(),
            forall|a: int, b: int|
                0 <= a < left@.len() && 0 <= b < right@.len() ==> (#[trigger] left@[a])
                    != #[trigger] right@[b],
            in_order(c@, ints(out@)),
            forall|a: int, b: int|
                0 <= a < out@.len() && i <= b < left@.len() ==> sooner(
                    c@,
                    (#[trigger] out@[a]) as int,
                    (#[trigger] left@[b]) as int,
                ),
            forall|a: int, b: int|
                0 <= a < out@.len() && j <= b < right@.len() ==> sooner(
                    c@,
                    (#[trigger] out@[a]) as int,
                    (#[trigger] right@[b]) as int,
                ),
            forall|x: usize| #[trigger]
                out@.contains(x) <==> left@.take(i as int).contains(x) || right@.take(
                    j as int,
                ).contains(x),
        decreases left@.len() - i + right@.len() - j,
    {
        let ghost before = out@;
        let ghost li = left@.take(i as int);
        let ghost rj = right@.take(j as int);
        let from_left = if i >= left.len() {
            false
        } else if j >= right.len() {
            true
        } else {
            is_sooner(c, left[i], right[j])
        };
        if from_left {
            let x: usize = left[i];
            proof {
                assert forall|b: int| i < b < left@.len() implies sooner(
                    c@,
                    x as int,
                    (#[trigger] left@[b]) as int,
                ) by {
                    assert(sooner(c@, ints(left@)[i as int], ints(left@)[b]));
                }
                assert forall|b: int| j <= b < right@.len() implies sooner(
                    c@,
                    x as int,
                    (#[trigger] right@[b]) as int,
                ) by {
                    if b > j {
                        assert(sooner(c@, ints(right@)[j as int], ints(right@)[b]));
                    }
                }
                assert(left@.take(i as int + 1) =~= li.push(x));
            }
            out.push(x);
            proof {
                lemma_push_in_order(c@, before, x);
                lemma_contains_push(before, x);
                lemma_contains_push(li, x);
            }
            i += 1;
        } else {
            let x: usize = right[j];
            proof {
                assert forall|b: int| j < b < right@.len() implies sooner(
                    c@,
                    x as int,
                    (#[trigger] right@[b]) as int,
                ) by {
                    assert(sooner(c@, ints(right@)[j as int], ints(right@)[b]));
                }
                assert forall|b: int| i <= b < left@.len() implies sooner(
                    c@,
                    x as int,
                    (#[trigger] left@[b]) as int,
                ) by {
                    assert(left@[i as int] != right@[j as int]);
                    if b > i {
                        assert(sooner(c@, ints(left@)[i as int], ints(left@)[b]));
                    }
                }
                assert(right@.take(j as int + 1) =~= rj.push(x));
            }
            out.push(x);
            proof {
                lemma_push_in_order(c@, before, x);
                lemma_contains_push(before, x);
                lemma_contains_push(rj, x);
            }
            j += 1;
        }
    }
    assert(left@.take(left@.len() as int) =~= left@);
    assert(right@.take(right@.len() as int) =~= right@);
    out
}

proof fn lemma_push_in_order(c: Seq<Candidate>, v: Seq<usize>, x: usize)
    requires
        in_order(c, ints(v)),
        forall|a: int| 0 <= a < v.len() ==> sooner(c, (#[trigger] v[a]) as int, x as int),
    ensures
        in_order(c, ints(v.push(x))),
{
    let w = ints(v.push(x));
    assert forall|i: int, j: int| 0 <= i < j < w.len() implies sooner(
        c,
        #[trigger] w[i],
        #[trigger] w[j],
    ) by {
        if j < v.len() {
            assert(sooner(c, ints(v)[i], ints(v)[j]));
        } else {
            assert(sooner(c, v[i] as int, x as int));
        }
    }
}

proof fn lemma_contains_push(v: Seq<usize>, x: usize)
    ensures
        forall|y: usize| #[trigger] v.push(x).contains(y) <==> v.contains(y) || y == x,
{
    assert forall|y: usize| #[trigger] v.push(x).contains(y) <==> v.contains(y) || y == x by {
        if v.contains(y) {
            let k = choose|k: int| 0 <= k < v.len() && v[k] == y;
            assert(v.push(x)[k] == y);
        }
        assert(v.push(x)[v.len() as int] == x);
    }
}

fn sort_range(c: &Vec<Candidate>, from: usize, to: usize) -> (r: Vec<usize>)
    requires
        from <= to <= c@.len(),
    ensures
        in_order(c@, ints(r@)),
        forall|x: usize| r@.contains(x) <==> from <= x < to,
    decreases to - from,
{
    let mut out: Vec<usize> = Vec::new();
    if to - from == 0 {
        return out;
    }
    if to - from == 1 {
        out.push(from);
        assert(out@[0] == from);
        return out;
    }
    let mid: usize = from + (to - from) / 2;
    let left = sort_range(c, from, mid);
    let right = sort_range(c, mid, to);
    proof {
        assert forall|i: int| 0 <= i < left@.len() implies from <= (#[trigger] left@[i]) < mid by {
            assert(left@.contains(left@[i]));
        }
        assert forall|i: int| 0 <= i < right@.len() implies mid <= (#[trigger] right@[i]) < to by {
            assert(right@.contains(right@[i]));
        }
    }
    merge_orders(c, &left, &right)
}

/// Puts the candidates in the order of a budget sweep.
fn sort_by_age(c: &Vec<Candidate>) -> (r: Vec<usize>)
    ensures
        ints(r@) == oldest_first(c@),
        in_order(c@, ints(r@)),
        forall|i: int| 0 <= i < r@.len() ==> (#[trigger] r@[i]) < c@.len(),
{
    let r = sort_range(c, 0, c.len());
    proof {
        let got = ints(r@);
        assert forall|i: int| got.contains(i) <==> 0 <= i < c@.len() by {
            if got.contains(i) {
                let k = choose|k: int| 0 <= k < got.len() && got[k] == i;
                assert(r@.contains(r@[k]));
            }
            if 0 <= i < c@.len() {
                assert(r@.contains(i as usize));
                let k = choose|k: int| 0 <= k < r@.len() && r@[k] == i as usize;
                assert(got[k] == i);
            }
        }
        assert forall|i: int| 0 <= i < r@.len() implies (#[trigger] r@[i]) < c@.len() by {
            assert(r@.contains(r@[i]));
        }
        let want = oldest_first(c@);
        assert(in_order(c@, got) && forall|i: int| got.contains(i) <==> 0 <= i < c@.len());
        assert(in_order(c@, want) && forall|i: int| want.contains(i) <==> 0 <= i < c@.len());
        lemma_order_unique(c@, got, want);
    }
    r
}

// ---- Sizes -------------------------------------------------------------------------------

proof fn lemma_bytes_push(c: Seq<Candidate>, x: Candidate)
    ensures
        bytes_of(c.push(x)) == bytes_of(c) + x.size,
        result_count(c.push(x)) == result_count(c) + (if x.victim is Result {
            1nat
        } else {
            0nat
        }),
{
    assert(c.push(x).drop_last() =~= c);
}

proof fn lemma_bytes_cat(a: Seq<Candidate>, b: Seq<Candidate>)
    ensures
        bytes_of(a + b) == bytes_of(a) + bytes_of(b),
    decreases b.len(),
{
    if b.len() == 0 {
        assert(a + b =~= a);
    } else {
        lemma_bytes_cat(a, b.drop_last());
        assert((a + b).drop_last() =~= a + b.drop_last());
    }
}

/// Files that are picked apart have together no more bytes than all.
proof fn lemma_chosen_bytes(
    area: Area,
    files: Seq<StoreFile>,
    p: spec_fn(int) -> bool,
    q: spec_fn(int) -> bool,
    n: int,
)
    requires
        0 <= n <= files.len(),
        forall|i: int| 0 <= i < n && #[trigger] p(i) ==> !q(i),
    ensures
        bytes_of(chosen(area, files, p, n)) + bytes_of(chosen(area, files, q, n)) <= size_of(
            files,
            n,
        ),
    decreases n,
{
    if n > 0 {
        lemma_chosen_bytes(area, files, p, q, n - 1);
        lemma_bytes_push(chosen(area, files, p, n - 1), candidate(area, files, n - 1));
        lemma_bytes_push(chosen(area, files, q, n - 1), candidate(area, files, n - 1));
    }
}

spec fn sum_at(c: Seq<Candidate>, at: Seq<int>) -> nat
    decreases at.len(),
{
    if at.len() == 0 {
        0
    } else {
        sum_at(c, at.drop_last()) + c[at.last()].size as nat
    }
}

proof fn lemma_sum_remove(c: Seq<Candidate>, at: Seq<int>, p: int)
    requires
        0 <= p < at.len(),
    ensures
        sum_at(c, at) == sum_at(c, at.remove(p)) + c[at[p]].size,
    decreases at.len(),
{
    if p == at.len() - 1 {
        assert(at.remove(p) =~= at.drop_last());
    } else {
        lemma_sum_remove(c, at.drop_last(), p);
        assert(at.remove(p).drop_last() =~= at.drop_last().remove(p));
        assert(at.remove(p).last() == at.last());
    }
}

proof fn lemma_sum_same(c: Seq<Candidate>, d: Seq<Candidate>, at: Seq<int>)
    requires
        forall|i: int| 0 <= i < at.len() ==> c[#[trigger] at[i]] == d[at[i]],
    ensures
        sum_at(c, at) == sum_at(d, at),
    decreases at.len(),
{
    if at.len() > 0 {
        assert(c[at[at.len() - 1]] == d[at[at.len() - 1]]);
        assert forall|i: int| 0 <= i < at.drop_last().len() implies c[#[trigger] at.drop_last()[i]]
            == d[at.drop_last()[i]] by {
            assert(c[at[i]] == d[at[i]]);
        }
        lemma_sum_same(c, d, at.drop_last());
    }
}

/// Different candidates have together no more bytes than all of them.
proof fn lemma_sum_within(c: Seq<Candidate>, at: Seq<int>)
    requires
        at.no_duplicates(),
        forall|i: int| 0 <= i < at.len() ==> 0 <= (#[trigger] at[i]) < c.len(),
    ensures
        sum_at(c, at) <= bytes_of(c),
    decreases c.len(),
{
    if c.len() == 0 {
        if at.len() > 0 {
            assert(0 <= at[0] < c.len());
        }
    } else {
        let last = c.len() - 1;
        let d = c.drop_last();
        if at.contains(last) {
            let p = choose|p: int| 0 <= p < at.len() && at[p] == last;
            let rest = at.remove(p);
            lemma_sum_remove(c, at, p);
            assert forall|i: int| 0 <= i < rest.len() implies 0 <= (#[trigger] rest[i])
                < d.len() by {
                let k = if i < p {
                    i
                } else {
                    i + 1
                };
                assert(rest[i] == at[k]);
                assert(at[k] != at[p]);
            }
            assert(rest.no_duplicates());
            lemma_sum_same(c, d, rest);
            lemma_sum_within(d, rest);
        } else {
            assert forall|i: int| 0 <= i < at.len() implies 0 <= (#[trigger] at[i]) < d.len() by {
                assert(at[i] != last);
            }
            lemma_sum_same(c, d, at);
            lemma_sum_within(d, at);
        }
    }
}

// ---- The sweep ---------------------------------------------------------------------------

fn total_size(files: &Vec<StoreFile>) -> (r: u64)
    requires
        size_of(files@, files@.len() as int) <= u64::MAX,
    ensures
        r == size_of(files@, files@.len() as int),
{
    let mut total: u64 = 0;
    let mut i: usize = 0;
    while i < files.len()
        invariant
            i <= files@.len(),
            total == size_of(files@, i as int),
            size_of(files@, files@.len() as int) <= u64::MAX,
        decreases files@.len() - i,
    {
        proof {
            lemma_size_grows(files@, i as int + 1, files@.len() as int);
        }
        total += files[i].size;
        i += 1;
    }
    total
}

proof fn lemma_size_grows(files: Seq<StoreFile>, a: int, b: int)
    requires
        0 <= a <= b,
    ensures
        size_of(files, a) <= size_of(files, b),
    decreases b,
{
    if a < b {
        lemma_size_grows(files, a, b - 1);
    }
}

/// The candidate that a file is.
fn make_candidate(area: Area, files: &Vec<StoreFile>, i: usize) -> (r: Candidate)
    requires
        i < files@.len(),
    ensures
        r == candidate(area, files@, i as int),
{
    let victim = match area {
        Area::Results => Victim::Result(i),
        Area::Objects => Victim::Object(i),
        Area::Tmp => Victim::Tmp(i),
    };
    Candidate { victim, mtime_secs: files[i].mtime_secs, size: files[i].size }
}

fn marks(marked: &DigestSet, file: &StoreFile) -> (r: bool)
    ensures
        r == is_marked(marked@, *file),
{
    match &file.digest {
        Some(d) => marked.contains(d),
        None => false,
    }
}

fn count_marked(files: &Vec<StoreFile>, marked: &DigestSet) -> (r: usize)
    ensures
        r == marked_count(files@, marked@, files@.len() as int),
{
    let mut count: usize = 0;
    let mut i: usize = 0;
    while i < files.len()
        invariant
            i <= files@.len(),
            count <= i,
            count == marked_count(files@, marked@, i as int),
        decreases files@.len() - i,
    {
        if marks(marked, &files[i]) {
            count += 1;
        }
        i += 1;
    }
    count
}

/// The results that age deletes, and those that it leaves to a budget.
fn split_results(results: &Vec<StoreFile>, marked: &DigestSet, opts: &GcOptions, Ghost(s): Ghost<Stock>) -> (r: (
    Vec<Candidate>,
    Vec<Candidate>,
))
    requires
        s.results == results@,
        s.marked == marked@,
    ensures
        r.0@ == aged_results(s, *opts),
        r.1@ == chosen(Area::Results, s.results, left_result(s, *opts), s.results.len() as int),
{
    let mut due: Vec<Candidate> = Vec::new();
    let mut left: Vec<Candidate> = Vec::new();
    let mut i: usize = 0;
    while i < results.len()
        invariant
            i <= results@.len(),
            s.results == results@,
            s.marked == marked@,
            due@ == chosen(Area::Results, s.results, due_result(s, *opts), i as int),
            left@ == chosen(Area::Results, s.results, left_result(s, *opts), i as int),
        decreases results@.len() - i,
    {
        let file = &results[i];
        if !marks(marked, file) {
            if is_older_than(file.mtime_secs, opts.now, opts.older_than) {
                due.push(make_candidate(Area::Results, results, i));
            } else if is_settled(file.mtime_secs, opts.now) {
                left.push(make_candidate(Area::Results, results, i));
            }
        }
        i += 1;
    }
    (due, left)
}

/// The objects that are not kept and whose age meets the floor.
fn due_objects(objects: &Vec<StoreFile>, kept: &DigestSet, opts: &GcOptions, Ghost(s): Ghost<Stock>) -> (r: Vec<
    Candidate,
>)
    requires
        s.objects == objects@,
    ensures
        r@ == chosen(
            Area::Objects,
            s.objects,
            due_object(s, kept@, *opts),
            s.objects.len() as int,
        ),
{
    let mut out: Vec<Candidate> = Vec::new();
    let mut i: usize = 0;
    while i < objects.len()
        invariant
            i <= objects@.len(),
            s.objects == objects@,
            out@ == chosen(Area::Objects, s.objects, due_object(s, kept@, *opts), i as int),
        decreases objects@.len() - i,
    {
        let file = &objects[i];
        if !marks(kept, file) && is_older_than(file.mtime_secs, opts.now, opts.older_than) {
            out.push(make_candidate(Area::Objects, objects, i));
        }
        i += 1;
    }
    out
}

/// When the youngest result was modified that age leaves and that references a
/// digest, for each that one does.
fn find_youngest(
    results: &Vec<StoreFile>,
    references: &Vec<Vec<Digest>>,
    marked: &DigestSet,
    opts: &GcOptions,
    Ghost(s): Ghost<Stock>,
) -> (r: DigestMap<u64>)
    requires
        s.results == results@,
        s.references == references@,
        s.marked == marked@,
    ensures
        forall|d: Digest| #[trigger]
            known(r@, d) == youngest(s, *opts, d, s.results.len() as int),
{
    let mut out: DigestMap<u64> = DigestMap::new();
    let mut i: usize = 0;
    while i < results.len()
        invariant
            i <= results@.len(),
            s.results == results@,
            s.references == references@,
            s.marked == marked@,
            forall|d: Digest| #[trigger] known(out@, d) == youngest(s, *opts, d, i as int),
        decreases results@.len() - i,
    {
        let file = &results[i];
        let due = !marks(marked, file) && is_older_than(
            file.mtime_secs,
            opts.now,
            opts.older_than,
        );
        let ghost before = out@;
        assert(due == due_result(s, *opts)(i as int));
        if !due && i < references.len() {
            let list = &references[i];
            let mut j: usize = 0;
            while j < list.len()
                invariant
                    j <= list@.len(),
                    i < results@.len(),
                    i < references@.len(),
                    *list == references@[i as int],
                    *file == results@[i as int],
                    s.results == results@,
                    s.references == references@,
                    !due_result(s, *opts)(i as int),
                    forall|d: Digest| #[trigger]
                        known(before, d) == youngest(s, *opts, d, i as int),
                    forall|d: Digest| #[trigger]
                        known(out@, d) == (if list@.take(j as int).contains(d) {
                            youngest(s, *opts, d, i as int + 1)
                        } else {
                            youngest(s, *opts, d, i as int)
                        }),
                decreases list@.len() - j,
            {
                let ghost prior = out@;
                let d = list[j];
                assert(refers(s.references, i as int, d)) by {
                    assert(list@[j as int] == d);
                }
                assert(known(prior, d) == known(out@, d));
                let later = match out.get(&d) {
                    Some(t) => *t >= file.mtime_secs,
                    None => false,
                };
                if !later {
                    out.insert(d, file.mtime_secs);
                }
                proof {
                    let a = list@.take(j as int);
                    let b = list@.take(j as int + 1);
                    assert(b =~= a.push(d));
                    assert forall|x: Digest| #[trigger]
                        known(out@, x) == (if b.contains(x) {
                            youngest(s, *opts, x, i as int + 1)
                        } else {
                            youngest(s, *opts, x, i as int)
                        }) by {
                        assert(known(prior, x) == (if a.contains(x) {
                            youngest(s, *opts, x, i as int + 1)
                        } else {
                            youngest(s, *opts, x, i as int)
                        }));
                        if a.contains(x) {
                            let k = choose|k: int| 0 <= k < a.len() && a[k] == x;
                            assert(b[k] == x);
                        }
                        assert(b[j as int] == d);
                        if b.contains(x) && x != d {
                            let k = choose|k: int| 0 <= k < b.len() && b[k] == x;
                            assert(a[k] == x);
                        }
                    }
                }
                j += 1;
            }
            assert(list@.take(list@.len() as int) =~= list@);
        }
        proof {
            assert forall|d: Digest| #[trigger] known(out@, d) == youngest(
                s,
                *opts,
                d,
                i as int + 1,
            ) by {
                assert(known(before, d) == youngest(s, *opts, d, i as int));
            }
        }
        i += 1;
    }
    out
}

/// What a map has for a digest.
spec fn known(m: Map<Digest, u64>, d: Digest) -> Option<u64> {
    if m.contains_key(d) {
        Some(m[d])
    } else {
        None
    }
}

/// The objects that age leaves to a budget.
fn left_objects(
    objects: &Vec<StoreFile>,
    kept: &DigestSet,
    still: &DigestSet,
    times: &DigestMap<u64>,
    opts: &GcOptions,
    Ghost(s): Ghost<Stock>,
) -> (r: Vec<Candidate>)
    requires
        s.objects == objects@,
        kept@ == kept_by_age(s, *opts),
        still@ == kept_for_good(s, *opts),
        forall|d: Digest| #[trigger]
            known(times@, d) == youngest(s, *opts, d, s.results.len() as int),
    ensures
        r@ == spare_objects(s, *opts),
{
    let mut out: Vec<Candidate> = Vec::new();
    let ghost files = waiting(s, *opts);
    let ghost pick = left_object(s, kept@, still@, *opts);
    let mut i: usize = 0;
    while i < objects.len()
        invariant
            i <= objects@.len(),
            s.objects == objects@,
            files == waiting(s, *opts),
            pick == left_object(s, kept@, still@, *opts),
            forall|d: Digest| #[trigger]
                known(times@, d) == youngest(s, *opts, d, s.results.len() as int),
            out@ == chosen(Area::Objects, files, pick, i as int),
        decreases objects@.len() - i,
    {
        let file = &objects[i];
        let due = !marks(kept, file) && is_older_than(file.mtime_secs, opts.now, opts.older_than);
        if !marks(still, file) && !due && is_settled(file.mtime_secs, opts.now) {
            let mut at: u64 = file.mtime_secs;
            if let Some(d) = &file.digest {
                assert(known(times@, *d) == youngest(s, *opts, *d, s.results.len() as int));
                if let Some(t) = times.get(d) {
                    if *t > at {
                        at = *t;
                    }
                }
            }
            assert(at == turn(s, *opts, *file));
            out.push(Candidate { victim: Victim::Object(i), mtime_secs: at, size: file.size });
            assert(out@.last() == candidate(Area::Objects, files, i as int));
        }
        i += 1;
    }
    out
}

/// The stale temporary files.
fn stale_files(tmp: &Vec<StoreFile>, opts: &GcOptions, Ghost(s): Ghost<Stock>) -> (r: Vec<Candidate>)
    requires
        s.tmp == tmp@,
    ensures
        r@ == chosen(Area::Tmp, s.tmp, stale(s, *opts), s.tmp.len() as int),
{
    let mut out: Vec<Candidate> = Vec::new();
    let mut i: usize = 0;
    while i < tmp.len()
        invariant
            i <= tmp@.len(),
            s.tmp == tmp@,
            out@ == chosen(Area::Tmp, s.tmp, stale(s, *opts), i as int),
        decreases tmp@.len() - i,
    {
        if is_settled(tmp[i].mtime_secs, opts.now) {
            out.push(make_candidate(Area::Tmp, tmp, i));
        }
        i += 1;
    }
    out
}

/// Which of `n` results are among these.
fn gone_flags(gone: &Vec<Candidate>, n: usize) -> (r: Vec<bool>)
    ensures
        r@.len() == n,
        forall|i: int| 0 <= i < n ==> #[trigger] r@[i] == has_result(gone@, i),
{
    let mut flags: Vec<bool> = Vec::new();
    while flags.len() < n
        invariant
            flags@.len() <= n,
            forall|i: int| 0 <= i < flags@.len() ==> !(#[trigger] flags@[i]),
        decreases n - flags@.len(),
    {
        flags.push(false);
    }
    let mut k: usize = 0;
    assert(gone@.take(0) =~= Seq::<Candidate>::empty());
    while k < gone.len()
        invariant
            k <= gone@.len(),
            flags@.len() == n,
            forall|i: int|
                0 <= i < n ==> #[trigger] flags@[i] == has_result(gone@.take(k as int), i),
        decreases gone@.len() - k,
    {
        let ghost before = flags@;
        if let Victim::Result(at) = gone[k].victim {
            if at < n {
                flags[at] = true;
            }
        }
        proof {
            let a = gone@.take(k as int);
            let b = gone@.take(k as int + 1);
            assert forall|i: int| 0 <= i < n implies #[trigger] flags@[i] == has_result(b, i) by {
                lemma_has_push(a, gone@[k as int], i);
                assert(b =~= a.push(gone@[k as int]));
                assert(before[i] == has_result(a, i));
            }
        }
        k += 1;
    }
    assert(gone@.take(gone@.len() as int) =~= gone@);
    flags
}

proof fn lemma_has_push(c: Seq<Candidate>, x: Candidate, i: int)
    ensures
        has_result(c.push(x), i) <==> has_result(c, i) || x.victim == Victim::Result(i as usize),
{
    let v = Victim::Result(i as usize);
    assert(victims(c.push(x)) =~= victims(c).push(x.victim));
    if victims(c).contains(v) {
        let k = choose|k: int| 0 <= k < victims(c).len() && victims(c)[k] == v;
        assert(victims(c.push(x))[k] == v);
    }
    if x.victim == v {
        assert(victims(c.push(x))[c.len() as int] == v);
    }
    if victims(c.push(x)).contains(v) {
        let k = choose|k: int|
            0 <= k < victims(c.push(x)).len() && victims(c.push(x))[k] == v;
        if k < c.len() {
            assert(victims(c)[k] == v);
        }
    }
}

/// What is kept when these results go.
fn hold(
    marked: &DigestSet,
    n: usize,
    references: &Vec<Vec<Digest>>,
    gone: &Vec<Candidate>,
    Ghost(s): Ghost<Stock>,
) -> (r: DigestSet)
    requires
        s.marked == marked@,
        s.results.len() == n,
        s.references == references@,
    ensures
        r@ == held(s, gone@),
{
    let flags = gone_flags(gone, n);
    let mut out = DigestSet::new();
    let total = marked.len();
    let mut m: usize = 0;
    while m < total
        invariant
            m <= total,
            total == marked.items().len(),
            forall|d: Digest| marked@.contains(d) <==> marked.items().contains(d),
            forall|d: Digest| #[trigger]
                out@.contains(d) <==> marked.items().take(m as int).contains(d),
        decreases total - m,
    {
        let ghost before = out@;
        let d = marked.item(m);
        out.insert(d);
        proof {
            let a = marked.items().take(m as int);
            let b = marked.items().take(m as int + 1);
            assert(b =~= a.push(d));
            assert forall|x: Digest| #[trigger] out@.contains(x) <==> b.contains(x) by {
                if a.contains(x) {
                    let k = choose|k: int| 0 <= k < a.len() && a[k] == x;
                    assert(b[k] == x);
                }
                assert(b[m as int] == d);
                if b.contains(x) {
                    let k = choose|k: int| 0 <= k < b.len() && b[k] == x;
                    if k < m {
                        assert(a[k] == x);
                    }
                }
                assert(before.contains(x) <==> a.contains(x));
            }
        }
        m += 1;
    }
    assert(marked.items().take(total as int) =~= marked.items());
    let mut i: usize = 0;
    while i < n && i < references.len()
        invariant
            i <= n,
            i <= references@.len(),
            s.marked == marked@,
            s.results.len() == n,
            s.references == references@,
            flags@.len() == n,
            forall|x: int| 0 <= x < n ==> #[trigger] flags@[x] == has_result(gone@, x),
            forall|d: Digest| #[trigger]
                out@.contains(d) <==> s.marked.contains(d) || exists|x: int|
                    0 <= x < i && !has_result(gone@, x) && #[trigger] refers(s.references, x, d),
        decreases n - i,
    {
        let ghost before = out@;
        if !flags[i] {
            let list = &references[i];
            let mut j: usize = 0;
            while j < list.len()
                invariant
                    j <= list@.len(),
                    forall|d: Digest| #[trigger]
                        out@.contains(d) <==> before.contains(d) || list@.take(j as int).contains(
                            d,
                        ),
                decreases list@.len() - j,
            {
                let ghost prior = out@;
                let d = list[j];
                out.insert(d);
                proof {
                    let a = list@.take(j as int);
                    let b = list@.take(j as int + 1);
                    assert(b =~= a.push(d));
                    assert forall|x: Digest| #[trigger]
                        out@.contains(x) <==> before.contains(x) || b.contains(x) by {
                        if a.contains(x) {
                            let k = choose|k: int| 0 <= k < a.len() && a[k] == x;
                            assert(b[k] == x);
                        }
                        assert(b[j as int] == d);
                        if b.contains(x) {
                            let k = choose|k: int| 0 <= k < b.len() && b[k] == x;
                            if k < j {
                                assert(a[k] == x);
                            }
                        }
                        assert(prior.contains(x) <==> before.contains(x) || a.contains(x));
                    }
                }
                j += 1;
            }
            assert(list@.take(list@.len() as int) =~= list@);
        }
        proof {
            assert forall|d: Digest| #[trigger] out@.contains(d) <==> s.marked.contains(d)
                || exists|x: int|
                0 <= x < i + 1 && !has_result(gone@, x) && #[trigger] refers(
                    s.references,
                    x,
                    d,
                ) by {
                assert(flags@[i as int] == has_result(gone@, i as int));
                if out@.contains(d) && !before.contains(d) {
                    assert(refers(s.references, i as int, d));
                }
                if exists|x: int|
                    0 <= x < i + 1 && !has_result(gone@, x) && #[trigger] refers(
                        s.references,
                        x,
                        d,
                    ) {
                    let x = choose|x: int|
                        0 <= x < i + 1 && !has_result(gone@, x) && #[trigger] refers(
                            s.references,
                            x,
                            d,
                        );
                    if x < i {
                        assert(before.contains(d));
                    }
                }
            }
        }
        i += 1;
    }
    assert(out@ =~= held(s, gone@));
    out
}

/// Takes candidates, oldest first, until the store has no more than the budget.
fn take_oldest(c: &Vec<Candidate>, size: u64, budget: u64) -> (r: Vec<Candidate>)
    requires
        bytes_of(c@) <= size,
    ensures
        r@ == cut(c@, size as int, budget as int),
        bytes_of(r@) <= bytes_of(c@),
{
    let order = sort_by_age(c);
    let mut gone: Vec<Candidate> = Vec::new();
    let mut current: u64 = size;
    let ghost whole = cut(c@, size as int, budget as int);
    let mut k: usize = 0;
    proof {
        lemma_order_distinct(c@, ints(order@));
        assert(ints(order@).take(0) =~= Seq::<int>::empty());
        assert(whole =~= gone@ + whole);
    }
    while k < order.len() && current > budget
        invariant
            k <= order@.len(),
            ints(order@).len() == order@.len(),
            ints(order@).no_duplicates(),
            forall|z: int| 0 <= z < order@.len() ==> (#[trigger] order@[z]) < c@.len(),
            bytes_of(c@) <= size,
            current == size - sum_at(c@, ints(order@).take(k as int)),
            bytes_of(gone@) == sum_at(c@, ints(order@).take(k as int)),
            whole == gone@ + over_budget(
                c@,
                ints(order@),
                k as int,
                current as int,
                budget as int,
            ),
        decreases order@.len() - k,
    {
        let ghost before = gone@;
        let at: usize = order[k];
        let x = c[at];
        proof {
            let p = ints(order@).take(k as int + 1);
            assert(p.drop_last() =~= ints(order@).take(k as int));
            assert(p.last() == at as int);
            assert(p.no_duplicates());
            assert forall|z: int| 0 <= z < p.len() implies 0 <= (#[trigger] p[z]) < c@.len() by {
                assert(p[z] == order@[z] as int);
            }
            lemma_sum_within(c@, p);
            lemma_bytes_push(before, x);
        }
        current -= x.size;
        gone.push(x);
        proof {
            let tail = over_budget(
                c@,
                ints(order@),
                k as int + 1,
                current as int,
                budget as int,
            );
            assert(before + (seq![x] + tail) =~= gone@ + tail);
        }
        k += 1;
    }
    proof {
        let p = ints(order@).take(k as int);
        assert(p.no_duplicates());
        assert forall|z: int| 0 <= z < p.len() implies 0 <= (#[trigger] p[z]) < c@.len() by {
            assert(p[z] == order@[z] as int);
        }
        lemma_sum_within(c@, p);
        assert(gone@ =~= whole);
    }
    gone
}

fn tally(c: &Vec<Candidate>) -> (r: (usize, u64))
    requires
        bytes_of(c@) <= u64::MAX,
    ensures
        r.0 == result_count(c@),
        r.0 <= c@.len(),
        r.1 == bytes_of(c@),
{
    let mut results: usize = 0;
    let mut bytes: u64 = 0;
    let mut i: usize = 0;
    assert(c@.take(0) =~= Seq::<Candidate>::empty());
    while i < c.len()
        invariant
            i <= c@.len(),
            results <= i,
            results == result_count(c@.take(i as int)),
            bytes == bytes_of(c@.take(i as int)),
            bytes_of(c@) <= u64::MAX,
        decreases c@.len() - i,
    {
        proof {
            assert(c@.take(i as int + 1) =~= c@.take(i as int).push(c@[i as int]));
            lemma_bytes_push(c@.take(i as int), c@[i as int]);
            assert(c@ =~= c@.take(i as int + 1) + c@.skip(i as int + 1));
            lemma_bytes_cat(c@.take(i as int + 1), c@.skip(i as int + 1));
        }
        bytes += c[i].size;
        if let Victim::Result(_) = c[i].victim {
            results += 1;
        }
        i += 1;
    }
    assert(c@.take(c@.len() as int) =~= c@);
    (results, bytes)
}

/// Adds those of these candidates that are results, or those that are not.
fn add_part(out: &mut Vec<Candidate>, more: &Vec<Candidate>, results: bool)
    ensures
        final(out)@ == old(out)@ + parted(more@, results),
{
    let ghost before = out@;
    let mut i: usize = 0;
    assert(out@ =~= before + parted(more@.take(0), results));
    while i < more.len()
        invariant
            i <= more@.len(),
            out@ == before + parted(more@.take(i as int), results),
        decreases more@.len() - i,
    {
        proof {
            let t = more@.take(i as int + 1);
            assert(t.drop_last() =~= more@.take(i as int));
            assert(t.last() == more@[i as int]);
        }
        let is_result = match more[i].victim {
            Victim::Result(_) => true,
            _ => false,
        };
        if is_result == results {
            out.push(more[i]);
        }
        i += 1;
        assert(out@ =~= before + parted(more@.take(i as int), results));
    }
    assert(more@.take(more@.len() as int) =~= more@);
}

/// Adds candidates to a list.
fn add_all(out: &mut Vec<Candidate>, more: &Vec<Candidate>)
    ensures
        final(out)@ == old(out)@ + more@,
{
    let ghost before = out@;
    let mut i: usize = 0;
    assert(out@ =~= before + more@.take(0));
    while i < more.len()
        invariant
            i <= more@.len(),
            out@ == before + more@.take(i as int),
        decreases more@.len() - i,
    {
        out.push(more[i]);
        i += 1;
        assert(out@ =~= before + more@.take(i as int));
    }
    assert(more@.take(more@.len() as int) =~= more@);
}

/// Sweeps a store: decides which of its files are deleted, by age and by the size
/// budget, and counts what is kept and deleted. The results and the objects are
/// listed as they were scanned, with the temporary files apart; `references` lists
/// what each result references.
pub fn sweep(
    results: &Vec<StoreFile>,
    references: &Vec<Vec<Digest>>,
    objects: &Vec<StoreFile>,
    tmp: &Vec<StoreFile>,
    marked: &DigestSet,
    opts: &GcOptions,
) -> (r: Sweep)
    requires
        store_size(stock(*results, *references, *objects, *tmp, *marked)) <= u64::MAX,
    ensures
        r.report == reported(stock(*results, *references, *objects, *tmp, *marked), *opts),
        r.deletions@ == (if opts.dry_run {
            Seq::empty()
        } else {
            victims(doomed(stock(*results, *references, *objects, *tmp, *marked), *opts))
        }),
{
    let ghost s = stock(*results, *references, *objects, *tmp, *marked);
    let store_bytes: u64 = total_size(results) + total_size(objects) + total_size(tmp);
    let (mut swept_results, left) = split_results(results, marked, opts, Ghost(s));
    let kept = hold(marked, results.len(), references, &swept_results, Ghost(s));
    let mut gone: Vec<Candidate> = Vec::new();
    add_all(&mut gone, &swept_results);
    add_all(&mut gone, &due_objects(objects, &kept, opts, Ghost(s)));
    add_all(&mut gone, &stale_files(tmp, opts, Ghost(s)));
    assert(gone@ =~= by_age(s, *opts));
    proof {
        lemma_budget_bytes(s, *opts);
    }
    if let Some(budget) = opts.max_size {
        if store_bytes > budget {
            let current: u64 = store_bytes - tally(&gone).1;
            add_all(&mut swept_results, &left);
            let still = hold(marked, results.len(), references, &swept_results, Ghost(s));
            let times = find_youngest(results, references, marked, opts, Ghost(s));
            let mut spare = left;
            add_all(&mut spare, &left_objects(objects, &kept, &still, &times, opts, Ghost(s)));
            let cut = take_oldest(&spare, current, budget);
            add_part(&mut gone, &cut, true);
            add_part(&mut gone, &cut, false);
            proof {
                lemma_parted_bytes(cut@);
                lemma_bytes_cat(parted(cut@, true), parted(cut@, false));
                lemma_bytes_cat(by_age(s, *opts), by_budget(s, *opts, budget as int));
                assert(gone@ =~= by_age(s, *opts) + by_budget(s, *opts, budget as int));
            }
        }
    }
    assert(gone@ == doomed(s, *opts));
    let counts = tally(&gone);
    let report = GcReport {
        marked_results: count_marked(results, marked),
        marked_objects: count_marked(objects, marked),
        deleted_results: counts.0,
        deleted_objects: gone.len() - counts.0,
        store_bytes,
        freed_bytes: counts.1,
    };
    let mut deletions: Vec<Victim> = Vec::new();
    if !opts.dry_run {
        let mut j: usize = 0;
        assert(deletions@ =~= victims(gone@).take(0));
        while j < gone.len()
            invariant
                j <= gone@.len(),
                deletions@ == victims(gone@).take(j as int),
            decreases gone@.len() - j,
        {
            deletions.push(gone[j].victim);
            j += 1;
            assert(deletions@ =~= victims(gone@).take(j as int));
        }
        assert(deletions@ =~= victims(gone@));
    }
    Sweep { report, deletions }
}

/// What a sweep of these files is about.
pub open spec fn stock(
    results: Vec<StoreFile>,
    references: Vec<Vec<Digest>>,
    objects: Vec<StoreFile>,
    tmp: Vec<StoreFile>,
    marked: DigestSet,
) -> Stock {
    Stock {
        results: results@,
        references: references@,
        objects: objects@,
        tmp: tmp@,
        marked: marked@,
    }
}

/// What goes by age and what is left to a budget have no more bytes than the store.
proof fn lemma_budget_bytes(s: Stock, opts: GcOptions)
    ensures
        bytes_of(by_age(s, opts)) + bytes_of(spare_results(s, opts) + spare_objects(s, opts))
            <= store_size(s),
{
    let kept = kept_by_age(s, opts);
    let pick = left_object(s, kept, kept_for_good(s, opts), opts);
    let a = aged_results(s, opts);
    let m = s.objects.len() as int;
    let o = chosen(Area::Objects, s.objects, due_object(s, kept, opts), m);
    let t = chosen(Area::Tmp, s.tmp, stale(s, opts), s.tmp.len() as int);
    let none = |i: int| false;
    lemma_bytes_cat(a, o);
    lemma_bytes_cat(a + o, t);
    lemma_bytes_cat(spare_results(s, opts), spare_objects(s, opts));
    lemma_chosen_bytes(
        Area::Results,
        s.results,
        due_result(s, opts),
        left_result(s, opts),
        s.results.len() as int,
    );
    lemma_chosen_bytes(Area::Objects, s.objects, due_object(s, kept, opts), pick, m);
    lemma_chosen_sizes(Area::Objects, s.objects, waiting(s, opts), pick, m);
    lemma_chosen_bytes(Area::Tmp, s.tmp, stale(s, opts), none, s.tmp.len() as int);
}

/// Files of the same sizes have the same bytes.
proof fn lemma_chosen_sizes(
    area: Area,
    a: Seq<StoreFile>,
    b: Seq<StoreFile>,
    pick: spec_fn(int) -> bool,
    n: int,
)
    requires
        0 <= n <= a.len(),
        a.len() == b.len(),
        forall|i: int| 0 <= i < a.len() ==> (#[trigger] a[i]).size == (#[trigger] b[i]).size,
    ensures
        bytes_of(chosen(area, a, pick, n)) == bytes_of(chosen(area, b, pick, n)),
    decreases n,
{
    if n > 0 {
        lemma_chosen_sizes(area, a, b, pick, n - 1);
        assert(a[n - 1].size == b[n - 1].size);
        lemma_bytes_push(chosen(area, a, pick, n - 1), candidate(area, a, n - 1));
        lemma_bytes_push(chosen(area, b, pick, n - 1), candidate(area, b, n - 1));
    }
}

proof fn lemma_parted_bytes(c: Seq<Candidate>)
    ensures
        bytes_of(parted(c, true)) + bytes_of(parted(c, false)) == bytes_of(c),
    decreases c.len(),
{
    if c.len() > 0 {
        let less = c.drop_last();
        lemma_parted_bytes(less);
        lemma_bytes_push(parted(less, true), c.last());
        lemma_bytes_push(parted(less, false), c.last());
    }
}

// ---- Laws --------------------------------------------------------------------------------

/// The positions of finitely many candidates can be put in the order of a budget
/// sweep.
proof fn lemma_order_of(c: Seq<Candidate>, n: int) -> (order: Seq<int>)
    requires
        0 <= n <= c.len(),
    ensures
        in_order(c, order),
        forall|i: int| order.contains(i) <==> 0 <= i < n,
    decreases n,
{
    if n == 0 {
        Seq::empty()
    } else {
        let before = lemma_order_of(c, n - 1);
        lemma_order_insert(c, before, n - 1)
    }
}

proof fn lemma_order_insert(c: Seq<Candidate>, v: Seq<int>, x: int) -> (r: Seq<int>)
    requires
        in_order(c, v),
        !v.contains(x),
    ensures
        in_order(c, r),
        forall|k: int| r.contains(k) <==> v.contains(k) || k == x,
    decreases v.len(),
{
    if v.len() == 0 || sooner(c, v.last(), x) {
        let r = v.push(x);
        assert forall|i: int, j: int| 0 <= i < j < r.len() implies sooner(
            c,
            #[trigger] r[i],
            #[trigger] r[j],
        ) by {
            if j == v.len() {
                if i < v.len() - 1 {
                    assert(sooner(c, v[i], v[v.len() - 1]));
                }
            } else {
                assert(sooner(c, v[i], v[j]));
            }
        }
        assert forall|k: int| r.contains(k) <==> v.contains(k) || k == x by {
            assert(r[v.len() as int] == x);
            if v.contains(k) {
                let i = choose|i: int| 0 <= i < v.len() && v[i] == k;
                assert(r[i] == k);
            }
        }
        r
    } else {
        let last = v.last();
        let front = v.drop_last();
        assert(v[v.len() - 1] == last && last != x);
        assert forall|i: int| 0 <= i < front.len() implies front[i] != x by {
            assert(v[i] == front[i]);
        }
        assert forall|i: int, j: int| 0 <= i < j < front.len() implies sooner(
            c,
            #[trigger] front[i],
            #[trigger] front[j],
        ) by {
            assert(sooner(c, v[i], v[j]));
        }
        let f = lemma_order_insert(c, front, x);
        let r = f.push(last);
        assert forall|i: int, j: int| 0 <= i < j < r.len() implies sooner(
            c,
            #[trigger] r[i],
            #[trigger] r[j],
        ) by {
            if j == f.len() {
                assert(f.contains(f[i]));
                if f[i] != x {
                    assert(front.contains(f[i]));
                    let k = choose|k: int| 0 <= k < front.len() && front[k] == f[i];
                    assert(sooner(c, v[k], v[v.len() - 1]));
                }
            } else {
                assert(sooner(c, f[i], f[j]));
            }
        }
        assert forall|k: int| r.contains(k) <==> v.contains(k) || k == x by {
            assert(r[f.len() as int] == last);
            assert(f.contains(k) <==> front.contains(k) || k == x);
            if f.contains(k) {
                let i = choose|i: int| 0 <= i < f.len() && f[i] == k;
                assert(r[i] == k);
            }
            if front.contains(k) {
                let i = choose|i: int| 0 <= i < front.len() && front[i] == k;
                assert(v[i] == k);
            }
            if v.contains(k) {
                let i = choose|i: int| 0 <= i < v.len() && v[i] == k;
                if i < front.len() {
                    assert(front[i] == k);
                }
            }
            if r.contains(k) {
                let i = choose|i: int| 0 <= i < r.len() && r[i] == k;
                if i < f.len() {
                    assert(f[i] == k);
                }
            }
        }
        r
    }
}

proof fn lemma_oldest_first(c: Seq<Candidate>)
    ensures
        in_order(c, oldest_first(c)),
        forall|i: int| oldest_first(c).contains(i) <==> 0 <= i < c.len(),
{
    let order = lemma_order_of(c, c.len() as int);
    assert(in_order(c, order) && forall|i: int| order.contains(i) <==> 0 <= i < c.len());
}

/// From the `k`th candidate on, the budget is met or all of them go.
proof fn lemma_budget_met(
    c: Seq<Candidate>,
    order: Seq<int>,
    k: int,
    current: int,
    budget: int,
)
    requires
        0 <= k <= order.len(),
    ensures
        ({
            let gone = over_budget(c, order, k, current, budget);
            current - bytes_of(gone) <= budget || (gone.len() == order.len() - k && forall|j: int|
                0 <= j < gone.len() ==> #[trigger] gone[j] == c[order[k + j]])
        }),
    decreases order.len() - k,
{
    if k < order.len() && current > budget {
        let x = c[order[k]];
        let tail = over_budget(c, order, k + 1, current - x.size, budget);
        lemma_budget_met(c, order, k + 1, current - x.size, budget);
        lemma_bytes_cat(seq![x], tail);
        lemma_bytes_push(Seq::empty(), x);
        assert(seq![x] =~= Seq::<Candidate>::empty().push(x));
        let gone = over_budget(c, order, k, current, budget);
        if tail.len() == order.len() - (k + 1) && forall|j: int|
            0 <= j < tail.len() ==> #[trigger] tail[j] == c[order[k + 1 + j]] {
            assert forall|j: int| 0 <= j < gone.len() implies #[trigger] gone[j] == c[order[k
                + j]] by {
                if j > 0 {
                    assert(gone[j] == tail[j - 1]);
                }
            }
        }
    }
}

proof fn lemma_chosen_from(
    area: Area,
    files: Seq<StoreFile>,
    pick: spec_fn(int) -> bool,
    n: int,
    k: int,
) -> (i: int)
    requires
        0 <= n <= files.len(),
        0 <= k < chosen(area, files, pick, n).len(),
    ensures
        0 <= i < n,
        pick(i),
        chosen(area, files, pick, n)[k] == candidate(area, files, i),
    decreases n,
{
    let before = chosen(area, files, pick, n - 1);
    if k < before.len() {
        lemma_chosen_from(area, files, pick, n - 1, k)
    } else {
        n - 1
    }
}

proof fn lemma_chosen_has(
    area: Area,
    files: Seq<StoreFile>,
    pick: spec_fn(int) -> bool,
    n: int,
    i: int,
) -> (k: int)
    requires
        0 <= i < n <= files.len(),
        pick(i),
    ensures
        0 <= k < chosen(area, files, pick, n).len(),
        chosen(area, files, pick, n)[k] == candidate(area, files, i),
    decreases n,
{
    let before = chosen(area, files, pick, n - 1);
    if i == n - 1 {
        before.len() as int
    } else {
        lemma_chosen_has(area, files, pick, n - 1, i)
    }
}

/// What is cut is one of the candidates.
proof fn lemma_cut_from(c: Seq<Candidate>, current: int, budget: int, k: int) -> (i: int)
    requires
        0 <= k < cut(c, current, budget).len(),
    ensures
        0 <= i < c.len(),
        cut(c, current, budget)[k] == c[i],
{
    lemma_oldest_first(c);
    let order = oldest_first(c);
    lemma_over_budget_at(c, order, 0, current, budget);
    assert(cut(c, current, budget)[k] == c[order[0 + k]]);
    assert(order.contains(order[k]));
    order[k]
}

/// The file that is deleted.
pub open spec fn file_of(s: Stock, v: Victim) -> StoreFile {
    match v {
        Victim::Result(i) => s.results[i as int],
        Victim::Object(i) => s.objects[i as int],
        Victim::Tmp(i) => s.tmp[i as int],
    }
}

/// Whether a result is left to a budget.
spec fn spare_result(s: Stock, opts: GcOptions, x: Candidate) -> bool {
    exists|i: int|
        0 <= i < s.results.len() && x == #[trigger] candidate(Area::Results, s.results, i)
            && left_result(s, opts)(i)
}

/// Whether an object is left to a budget.
spec fn spare_object(s: Stock, opts: GcOptions, x: Candidate) -> bool {
    exists|i: int|
        0 <= i < s.objects.len() && x == #[trigger] candidate(
            Area::Objects,
            waiting(s, opts),
            i,
        ) && left_object(s, kept_by_age(s, opts), kept_for_good(s, opts), opts)(i)
}

/// Whether age deletes a file.
spec fn aged(s: Stock, opts: GcOptions, x: Candidate) -> bool {
    match x.victim {
        Victim::Result(_) => exists|i: int|
            0 <= i < s.results.len() && x == #[trigger] candidate(Area::Results, s.results, i)
                && due_result(s, opts)(i),
        Victim::Object(_) => exists|i: int|
            0 <= i < s.objects.len() && x == #[trigger] candidate(Area::Objects, s.objects, i)
                && due_object(s, kept_by_age(s, opts), opts)(i),
        Victim::Tmp(_) => exists|i: int|
            0 <= i < s.tmp.len() && x == #[trigger] candidate(Area::Tmp, s.tmp, i) && stale(
                s,
                opts,
            )(i),
    }
}

proof fn lemma_aged(s: Stock, opts: GcOptions, k: int)
    requires
        0 <= k < by_age(s, opts).len(),
    ensures
        aged(s, opts, by_age(s, opts)[k]),
{
    let gone = by_age(s, opts);
    let kept = kept_by_age(s, opts);
    let a = aged_results(s, opts);
    let o = chosen(Area::Objects, s.objects, due_object(s, kept, opts), s.objects.len() as int);
    if k < a.len() {
        let i = lemma_chosen_from(
            Area::Results,
            s.results,
            due_result(s, opts),
            s.results.len() as int,
            k,
        );
        assert(gone[k] == candidate(Area::Results, s.results, i));
    } else if k < a.len() + o.len() {
        let i = lemma_chosen_from(
            Area::Objects,
            s.objects,
            due_object(s, kept, opts),
            s.objects.len() as int,
            k - a.len(),
        );
        assert(gone[k] == candidate(Area::Objects, s.objects, i));
    } else {
        let i = lemma_chosen_from(
            Area::Tmp,
            s.tmp,
            stale(s, opts),
            s.tmp.len() as int,
            k - a.len() - o.len(),
        );
        assert(gone[k] == candidate(Area::Tmp, s.tmp, i));
    }
}

proof fn lemma_spare(s: Stock, opts: GcOptions, k: int)
    requires
        0 <= k < (spare_results(s, opts) + spare_objects(s, opts)).len(),
    ensures
        ({
            let x = (spare_results(s, opts) + spare_objects(s, opts))[k];
            if k < spare_results(s, opts).len() {
                spare_result(s, opts, x) && x.victim is Result
            } else {
                spare_object(s, opts, x) && x.victim is Object
            }
        }),
{
    let r = spare_results(s, opts);
    let all = r + spare_objects(s, opts);
    if k < r.len() {
        let i = lemma_chosen_from(
            Area::Results,
            s.results,
            left_result(s, opts),
            s.results.len() as int,
            k,
        );
        assert(all[k] == candidate(Area::Results, s.results, i));
    } else {
        let i = lemma_chosen_from(
            Area::Objects,
            waiting(s, opts),
            left_object(s, kept_by_age(s, opts), kept_for_good(s, opts), opts),
            s.objects.len() as int,
            k - r.len(),
        );
        assert(all[k] == candidate(Area::Objects, waiting(s, opts), i));
    }
}

proof fn lemma_parted(c: Seq<Candidate>, results: bool, x: Candidate)
    ensures
        parted(c, results).contains(x) <==> c.contains(x) && (x.victim is Result) == results,
    decreases c.len(),
{
    if c.len() > 0 {
        let less = c.drop_last();
        let p = parted(less, results);
        lemma_parted(less, results, x);
        assert(c[c.len() - 1] == c.last());
        if less.contains(x) {
            let k = choose|k: int| 0 <= k < less.len() && less[k] == x;
            assert(c[k] == x);
        }
        if c.contains(x) && x != c.last() {
            let k = choose|k: int| 0 <= k < c.len() && c[k] == x;
            assert(less[k] == x);
        }
        if p.contains(x) {
            let k = choose|k: int| 0 <= k < p.len() && p[k] == x;
            assert(p.push(c.last())[k] == x);
        }
        assert(p.push(c.last())[p.len() as int] == c.last());
        if p.push(c.last()).contains(x) && x != c.last() {
            let k = choose|k: int| 0 <= k < p.push(c.last()).len() && p.push(c.last())[k] == x;
            assert(p[k] == x);
        }
    }
}

/// What is deleted is deleted by age or by the budget.
proof fn lemma_doomed(s: Stock, opts: GcOptions, x: Candidate)
    ensures
        doomed(s, opts).contains(x) <==> by_age(s, opts).contains(x) || (match opts.max_size {
            Some(budget) => store_size(s) > budget && cut_files(s, opts, budget as int).contains(x),
            None => false,
        }),
{
    let a = by_age(s, opts);
    let gone = doomed(s, opts);
    if a.contains(x) {
        let k = choose|k: int| 0 <= k < a.len() && a[k] == x;
        assert(gone[k] == x);
    }
    if let Some(budget) = opts.max_size {
        if store_size(s) > budget {
            let c = cut_files(s, opts, budget as int);
            let (r, o) = (parted(c, true), parted(c, false));
            lemma_parted(c, true, x);
            lemma_parted(c, false, x);
            if r.contains(x) {
                let k = choose|k: int| 0 <= k < r.len() && r[k] == x;
                assert(gone[a.len() + k] == x);
            }
            if o.contains(x) {
                let k = choose|k: int| 0 <= k < o.len() && o[k] == x;
                assert(gone[a.len() + r.len() + k] == x);
            }
            if gone.contains(x) {
                let k = choose|k: int| 0 <= k < gone.len() && gone[k] == x;
                if k < a.len() {
                    assert(a[k] == x);
                } else if k < a.len() + r.len() {
                    assert(r[k - a.len()] == x);
                } else {
                    assert(o[k - a.len() - r.len()] == x);
                }
            }
        }
    }
}

/// Why a file is deleted.
spec fn reason(s: Stock, opts: GcOptions, x: Candidate) -> bool {
    aged(s, opts, x) || (opts.max_size is Some && store_size(s) > opts.max_size->0 && cut_files(
        s,
        opts,
        opts.max_size->0 as int,
    ).contains(x) && (spare_result(s, opts, x) || spare_object(s, opts, x)))
}

proof fn lemma_reason(s: Stock, opts: GcOptions, x: Candidate)
    requires
        doomed(s, opts).contains(x),
    ensures
        reason(s, opts, x),
{
    lemma_doomed(s, opts, x);
    if by_age(s, opts).contains(x) {
        let k = choose|k: int| 0 <= k < by_age(s, opts).len() && by_age(s, opts)[k] == x;
        lemma_aged(s, opts, k);
    } else {
        let budget = opts.max_size->0 as int;
        let c = cut_files(s, opts, budget);
        let k = choose|k: int| 0 <= k < c.len() && c[k] == x;
        let j = lemma_cut_from(
            spare_results(s, opts) + spare_objects(s, opts),
            store_size(s) - bytes_of(by_age(s, opts)),
            budget,
            k,
        );
        lemma_spare(s, opts, j);
    }
}

/// The candidate of a file that is deleted.
proof fn lemma_victim(c: Seq<Candidate>, v: Victim) -> (x: Candidate)
    requires
        victims(c).contains(v),
    ensures
        c.contains(x),
        x.victim == v,
{
    let k = choose|k: int| 0 <= k < victims(c).len() && victims(c)[k] == v;
    assert(c[k].victim == v);
    c[k]
}

proof fn lemma_victims(c: Seq<Candidate>, x: Candidate)
    requires
        c.contains(x),
    ensures
        victims(c).contains(x.victim),
{
    let k = choose|k: int| 0 <= k < c.len() && c[k] == x;
    assert(victims(c)[k] == x.victim);
}

/// What is marked survives: no sweep deletes a marked result or object.
pub proof fn marked_files_survive(s: Stock, opts: GcOptions, i: usize)
    requires
        s.results.len() <= usize::MAX,
        s.objects.len() <= usize::MAX,
    ensures
        i < s.results.len() && is_marked(s.marked, s.results[i as int]) ==> !victims(
            doomed(s, opts),
        ).contains(Victim::Result(i)),
        i < s.objects.len() && is_marked(s.marked, s.objects[i as int]) ==> !victims(
            doomed(s, opts),
        ).contains(Victim::Object(i)),
{
    let v = victims(doomed(s, opts));
    if v.contains(Victim::Result(i)) {
        let x = lemma_victim(doomed(s, opts), Victim::Result(i));
        lemma_reason(s, opts, x);
    }
    if v.contains(Victim::Object(i)) {
        let x = lemma_victim(doomed(s, opts), Victim::Object(i));
        lemma_reason(s, opts, x);
    }
}

/// The results that age deletes are due.
proof fn lemma_aged_results(s: Stock, opts: GcOptions, i: int)
    requires
        0 <= i < s.results.len() <= usize::MAX,
    ensures
        has_result(aged_results(s, opts), i) <==> due_result(s, opts)(i),
        has_result(aged_results(s, opts) + spare_results(s, opts), i) <==> due_result(s, opts)(i)
            || left_result(s, opts)(i),
        due_result(s, opts)(i) ==> has_result(doomed(s, opts), i),
{
    let n = s.results.len() as int;
    let v = Victim::Result(i as usize);
    let a = aged_results(s, opts);
    let r = spare_results(s, opts);
    if due_result(s, opts)(i) {
        let k = lemma_chosen_has(Area::Results, s.results, due_result(s, opts), n, i);
        assert(victims(a)[k] == v);
        assert(victims(a + r)[k] == v);
        assert(doomed(s, opts)[k] == a[k]);
        assert(victims(doomed(s, opts))[k] == v);
    }
    if left_result(s, opts)(i) {
        let k = lemma_chosen_has(Area::Results, s.results, left_result(s, opts), n, i);
        assert(victims(a + r)[a.len() + k] == v);
    }
    if has_result(a, i) {
        let k = choose|k: int| 0 <= k < victims(a).len() && victims(a)[k] == v;
        let z = lemma_chosen_from(Area::Results, s.results, due_result(s, opts), n, k);
        assert(a[k].victim == v);
    }
    if has_result(a + r, i) {
        let k = choose|k: int| 0 <= k < victims(a + r).len() && victims(a + r)[k] == v;
        assert((a + r)[k].victim == v);
        if k < a.len() {
            let z = lemma_chosen_from(Area::Results, s.results, due_result(s, opts), n, k);
            assert(a[k].victim == v);
        } else {
            let z = lemma_chosen_from(
                Area::Results,
                s.results,
                left_result(s, opts),
                n,
                k - a.len(),
            );
            assert(r[k - a.len()].victim == v);
        }
    }
}

/// A result that is deleted and is not due is one that the budget deletes.
proof fn lemma_result_cut(s: Stock, opts: GcOptions, i: int)
    requires
        0 <= i < s.results.len() <= usize::MAX,
        has_result(doomed(s, opts), i),
        !due_result(s, opts)(i),
    ensures
        left_result(s, opts)(i),
        opts.max_size is Some,
        store_size(s) > opts.max_size->0,
        has_result(cut_files(s, opts, opts.max_size->0 as int), i),
{
    let x = lemma_victim(doomed(s, opts), Victim::Result(i as usize));
    lemma_reason(s, opts, x);
    if opts.max_size is Some && cut_files(s, opts, opts.max_size->0 as int).contains(x) {
        lemma_victims(cut_files(s, opts, opts.max_size->0 as int), x);
    }
}

/// What is cut are the first candidates in order.
proof fn lemma_over_budget_at(
    c: Seq<Candidate>,
    order: Seq<int>,
    k: int,
    current: int,
    budget: int,
)
    requires
        0 <= k <= order.len(),
    ensures
        ({
            let gone = over_budget(c, order, k, current, budget);
            k + gone.len() <= order.len() && forall|j: int|
                0 <= j < gone.len() ==> #[trigger] gone[j] == c[order[k + j]]
        }),
    decreases order.len() - k,
{
    if k < order.len() && current > budget {
        let x = c[order[k]];
        let tail = over_budget(c, order, k + 1, current - x.size, budget);
        let gone = over_budget(c, order, k, current, budget);
        lemma_over_budget_at(c, order, k + 1, current - x.size, budget);
        assert forall|j: int| 0 <= j < gone.len() implies #[trigger] gone[j] == c[order[k + j]] by {
            if j > 0 {
                assert(gone[j] == tail[j - 1]);
                assert(tail[j - 1] == c[order[k + 1 + (j - 1)]]);
            }
        }
    }
}

/// A candidate that is not cut comes after each that is.
proof fn lemma_cut_sooner(c: Seq<Candidate>, current: int, budget: int, x: Candidate, i: int) -> (j:
    int)
    requires
        cut(c, current, budget).contains(x),
        0 <= i < c.len(),
        !cut(c, current, budget).contains(c[i]),
    ensures
        0 <= j < c.len(),
        c[j] == x,
        sooner(c, j, i),
{
    let order = oldest_first(c);
    let gone = cut(c, current, budget);
    lemma_oldest_first(c);
    lemma_over_budget_at(c, order, 0, current, budget);
    let k = choose|k: int| 0 <= k < gone.len() && gone[k] == x;
    assert(gone[k] == c[order[0 + k]]);
    assert(order.contains(order[k]));
    assert(order.contains(i));
    let y = choose|y: int| 0 <= y < order.len() && order[y] == i;
    if y < gone.len() {
        assert(gone[y] == c[order[0 + y]]);
        assert(gone.contains(c[i]));
    }
    assert(sooner(c, order[k], order[y]));
    order[k]
}

/// The youngest result that holds a digest is one of those that do, and none is
/// younger.
proof fn lemma_youngest(s: Stock, opts: GcOptions, d: Digest, n: int)
    requires
        0 <= n <= s.results.len(),
    ensures
        forall|i: int|
            0 <= i < n && #[trigger] refers(s.references, i, d) && !due_result(s, opts)(i) ==> (
            youngest(s, opts, d, n) matches Some(t) && s.results[i].mtime_secs <= t),
        youngest(s, opts, d, n) matches Some(t) ==> exists|i: int|
            0 <= i < n && #[trigger] refers(s.references, i, d) && !due_result(s, opts)(i)
                && s.results[i].mtime_secs == t,
    decreases n,
{
    if n > 0 {
        lemma_youngest(s, opts, d, n - 1);
        if refers(s.references, n - 1, d) && !due_result(s, opts)(n - 1) {
            match youngest(s, opts, d, n - 1) {
                Some(t) if t >= s.results[n - 1].mtime_secs => {
                    let i = choose|i: int|
                        0 <= i < n - 1 && #[trigger] refers(s.references, i, d) && !due_result(
                            s,
                            opts,
                        )(i) && s.results[i].mtime_secs == t;
                    assert(0 <= i < n && refers(s.references, i, d));
                },
                _ => {
                    assert(refers(s.references, n - 1, d));
                },
            }
        } else if let Some(t) = youngest(s, opts, d, n - 1) {
            let i = choose|i: int|
                0 <= i < n - 1 && #[trigger] refers(s.references, i, d) && !due_result(s, opts)(i)
                    && s.results[i].mtime_secs == t;
            assert(0 <= i < n && refers(s.references, i, d));
        }
    }
}

/// A result that a budget may delete and does not, holds what it references.
proof fn lemma_spare_result_holds(
    s: Stock,
    opts: GcOptions,
    i: usize,
    k: usize,
    d: Digest,
    x: Candidate,
)
    requires
        s.results.len() <= usize::MAX,
        s.objects.len() <= usize::MAX,
        opts.max_size is Some,
        store_size(s) > opts.max_size->0,
        i < s.results.len(),
        left_result(s, opts)(i as int),
        !has_result(doomed(s, opts), i as int),
        refers(s.references, i as int, d),
        k < s.objects.len(),
        s.objects[k as int].digest == Some(d),
        x.victim == Victim::Object(k),
    ensures
        !cut_files(s, opts, opts.max_size->0 as int).contains(x),
{
    let budget = opts.max_size->0 as int;
    let r = spare_results(s, opts);
    let all = r + spare_objects(s, opts);
    let free = store_size(s) - bytes_of(by_age(s, opts));
    let n = s.results.len() as int;
    let y = lemma_chosen_has(Area::Results, s.results, left_result(s, opts), n, i as int);
    assert(all[y] == candidate(Area::Results, s.results, i as int));
    if cut_files(s, opts, budget).contains(all[y]) {
        lemma_doomed(s, opts, all[y]);
        lemma_victims(doomed(s, opts), all[y]);
    }
    if cut_files(s, opts, budget).contains(x) {
        let j = lemma_cut_sooner(all, free, budget, x, y);
        lemma_spare(s, opts, j);
        lemma_youngest(s, opts, d, n);
        assert(turn(s, opts, s.objects[k as int]) >= s.results[i as int].mtime_secs);
        assert(x == candidate(Area::Objects, waiting(s, opts), k as int));
    }
}

/// No result ever references a swept object: what a result that survives
/// references survives with it.
pub proof fn surviving_results_keep_their_references(
    s: Stock,
    opts: GcOptions,
    i: usize,
    k: usize,
    d: Digest,
)
    requires
        s.results.len() <= usize::MAX,
        s.objects.len() <= usize::MAX,
        i < s.results.len(),
        !victims(doomed(s, opts)).contains(Victim::Result(i)),
        refers(s.references, i as int, d),
        k < s.objects.len(),
        s.objects[k as int].digest == Some(d),
    ensures
        !victims(doomed(s, opts)).contains(Victim::Object(k)),
{
    lemma_aged_results(s, opts, i as int);
    assert(!has_result(doomed(s, opts), i as int));
    assert(kept_by_age(s, opts).contains(d));
    if victims(doomed(s, opts)).contains(Victim::Object(k)) {
        let x = lemma_victim(doomed(s, opts), Victim::Object(k));
        lemma_reason(s, opts, x);
        if aged(s, opts, x) {
            assert(is_marked(kept_by_age(s, opts), s.objects[k as int]));
        } else if left_result(s, opts)(i as int) {
            lemma_spare_result_holds(s, opts, i, k, d, x);
        } else {
            assert(kept_for_good(s, opts).contains(d));
        }
    }
}

/// A file younger than 24h is deleted only where its age meets the deletion
/// floor, whatever the budget.
pub proof fn the_budget_spares_young_files(s: Stock, opts: GcOptions, v: Victim)
    requires
        s.results.len() <= usize::MAX,
        s.objects.len() <= usize::MAX,
        s.tmp.len() <= usize::MAX,
        victims(doomed(s, opts)).contains(v),
    ensures
        old_enough(file_of(s, v).mtime_secs, opts.now, opts.older_than) || settled(
            file_of(s, v).mtime_secs,
            opts.now,
        ),
{
    let x = lemma_victim(doomed(s, opts), v);
    lemma_reason(s, opts, x);
}

/// What is cut leaves no more than the budget, or is all there was.
proof fn lemma_cut_met(c: Seq<Candidate>, current: int, budget: int)
    ensures
        current - bytes_of(cut(c, current, budget)) <= budget || forall|i: int|
            0 <= i < c.len() ==> cut(c, current, budget).contains(#[trigger] c[i]),
{
    let order = oldest_first(c);
    let gone = cut(c, current, budget);
    lemma_oldest_first(c);
    lemma_budget_met(c, order, 0, current, budget);
    if current - bytes_of(gone) > budget {
        assert forall|i: int| 0 <= i < c.len() implies gone.contains(#[trigger] c[i]) by {
            assert(order.contains(i));
            let j = choose|j: int| 0 <= j < order.len() && order[j] == i;
            assert(gone[j] == c[order[0 + j]]);
        }
    }
}

/// An object that nothing keeps: it is not marked, and no result that survives
/// references it.
pub open spec fn unheld(s: Stock, opts: GcOptions, k: int) -> bool {
    !is_marked(held(s, doomed(s, opts)), s.objects[k])
}

/// An object that nothing keeps in the end is left to the budget, unless it is
/// deleted anyway or younger than 24h.
proof fn lemma_unheld(s: Stock, opts: GcOptions, k: int)
    requires
        s.results.len() <= usize::MAX,
        0 <= k < s.objects.len(),
        unheld(s, opts, k),
        settled(s.objects[k].mtime_secs, opts.now),
        !due_object(s, kept_by_age(s, opts), opts)(k),
    ensures
        left_object(s, kept_by_age(s, opts), kept_for_good(s, opts), opts)(k),
{
    if is_marked(kept_for_good(s, opts), s.objects[k]) {
        let d = s.objects[k].digest->0;
        if !s.marked.contains(d) {
            let all = aged_results(s, opts) + spare_results(s, opts);
            let i = choose|i: int|
                0 <= i < s.results.len() && !has_result(all, i) && #[trigger] refers(
                    s.references,
                    i,
                    d,
                );
            lemma_aged_results(s, opts, i);
            if has_result(doomed(s, opts), i) {
                lemma_result_cut(s, opts, i);
            }
            assert(!has_result(doomed(s, opts), i) && refers(s.references, i, d));
        }
        assert(held(s, doomed(s, opts)).contains(d));
    }
}

proof fn lemma_due_goes(s: Stock, opts: GcOptions)
    ensures
        forall|i: int|
            0 <= i < s.results.len() && #[trigger] due_result(s, opts)(i) ==> victims(
                doomed(s, opts),
            ).contains(Victim::Result(i as usize)),
        forall|i: int|
            0 <= i < s.objects.len() && #[trigger] due_object(s, kept_by_age(s, opts), opts)(i)
                ==> victims(doomed(s, opts)).contains(Victim::Object(i as usize)),
{
    let kept = kept_by_age(s, opts);
    let a = aged_results(s, opts);
    let gone = doomed(s, opts);
    assert forall|i: int| 0 <= i < s.results.len() && #[trigger] due_result(
        s,
        opts,
    )(i) implies victims(gone).contains(Victim::Result(i as usize)) by {
        let k = lemma_chosen_has(
            Area::Results,
            s.results,
            due_result(s, opts),
            s.results.len() as int,
            i,
        );
        assert(gone[k] == candidate(Area::Results, s.results, i));
        assert(victims(gone)[k] == Victim::Result(i as usize));
    }
    assert forall|i: int| 0 <= i < s.objects.len() && #[trigger] due_object(
        s,
        kept,
        opts,
    )(i) implies victims(gone).contains(Victim::Object(i as usize)) by {
        let k = lemma_chosen_has(
            Area::Objects,
            s.objects,
            due_object(s, kept, opts),
            s.objects.len() as int,
            i,
        );
        assert(gone[a.len() + k] == candidate(Area::Objects, s.objects, i));
        assert(victims(gone)[a.len() + k] == Victim::Object(i as usize));
    }
}

/// Where a surviving unmarked result stands among the candidates of a budget.
proof fn lemma_result_at(s: Stock, opts: GcOptions, i: int) -> (k: int)
    requires
        0 <= i < s.results.len() <= usize::MAX,
        !is_marked(s.marked, s.results[i]),
        settled(s.results[i].mtime_secs, opts.now),
        !victims(doomed(s, opts)).contains(Victim::Result(i as usize)),
    ensures
        0 <= k < spare_results(s, opts).len(),
        (spare_results(s, opts) + spare_objects(s, opts))[k] == candidate(
            Area::Results,
            s.results,
            i,
        ),
        opts.max_size is Some && store_size(s) > opts.max_size->0 ==> !cut_files(
            s,
            opts,
            opts.max_size->0 as int,
        ).contains(candidate(Area::Results, s.results, i)),
{
    lemma_due_goes(s, opts);
    let x = candidate(Area::Results, s.results, i);
    lemma_doomed(s, opts, x);
    if doomed(s, opts).contains(x) {
        lemma_victims(doomed(s, opts), x);
    }
    assert(!due_result(s, opts)(i));
    lemma_chosen_has(
        Area::Results,
        s.results,
        left_result(s, opts),
        s.results.len() as int,
        i,
    )
}

/// Where a surviving object that nothing keeps stands among the candidates of a
/// budget.
proof fn lemma_object_at(s: Stock, opts: GcOptions, i: int) -> (k: int)
    requires
        s.results.len() <= usize::MAX,
        0 <= i < s.objects.len() <= usize::MAX,
        unheld(s, opts, i),
        settled(s.objects[i].mtime_secs, opts.now),
        !victims(doomed(s, opts)).contains(Victim::Object(i as usize)),
    ensures
        spare_results(s, opts).len() <= k < (spare_results(s, opts) + spare_objects(
            s,
            opts,
        )).len(),
        (spare_results(s, opts) + spare_objects(s, opts))[k] == candidate(
            Area::Objects,
            waiting(s, opts),
            i,
        ),
        opts.max_size is Some && store_size(s) > opts.max_size->0 ==> !cut_files(
            s,
            opts,
            opts.max_size->0 as int,
        ).contains(candidate(Area::Objects, waiting(s, opts), i)),
{
    lemma_due_goes(s, opts);
    let x = candidate(Area::Objects, waiting(s, opts), i);
    lemma_doomed(s, opts, x);
    if doomed(s, opts).contains(x) {
        lemma_victims(doomed(s, opts), x);
    }
    assert(!due_object(s, kept_by_age(s, opts), opts)(i));
    lemma_unheld(s, opts, i);
    let k = lemma_chosen_has(
        Area::Objects,
        waiting(s, opts),
        left_object(s, kept_by_age(s, opts), kept_for_good(s, opts), opts),
        s.objects.len() as int,
        i,
    );
    spare_results(s, opts).len() + k
}

/// After a sweep with a budget the store fits, or every unmarked result that is at
/// least 24h old is gone, and every such object that nothing keeps.
pub proof fn budgets_are_met(s: Stock, opts: GcOptions)
    requires
        opts.max_size is Some,
        s.results.len() <= usize::MAX,
        s.objects.len() <= usize::MAX,
    ensures
        store_size(s) - bytes_of(doomed(s, opts)) <= opts.max_size->0 || {
            &&& forall|i: int|
                0 <= i < s.results.len() && !is_marked(s.marked, #[trigger] s.results[i])
                    && settled(s.results[i].mtime_secs, opts.now) ==> victims(
                    doomed(s, opts),
                ).contains(Victim::Result(i as usize))
            &&& forall|k: int|
                0 <= k < s.objects.len() && #[trigger] unheld(s, opts, k) && settled(
                    s.objects[k].mtime_secs,
                    opts.now,
                ) ==> victims(doomed(s, opts)).contains(Victim::Object(k as usize))
        },
{
    let budget = opts.max_size->0 as int;
    let gone = doomed(s, opts);
    if store_size(s) > budget {
        let all = spare_results(s, opts) + spare_objects(s, opts);
        let c = cut_files(s, opts, budget);
        lemma_cut_met(all, store_size(s) - bytes_of(by_age(s, opts)), budget);
        lemma_parted_bytes(c);
        lemma_bytes_cat(parted(c, true), parted(c, false));
        lemma_bytes_cat(by_age(s, opts), by_budget(s, opts, budget));
        if store_size(s) - bytes_of(gone) > budget {
            assert forall|i: int|
                0 <= i < s.results.len() && !is_marked(s.marked, #[trigger] s.results[i])
                    && settled(s.results[i].mtime_secs, opts.now) implies victims(gone).contains(
                Victim::Result(i as usize),
            ) by {
                if !victims(gone).contains(Victim::Result(i as usize)) {
                    let k = lemma_result_at(s, opts, i);
                    assert(c.contains(all[k]));
                }
            }
            assert forall|k: int|
                0 <= k < s.objects.len() && #[trigger] unheld(s, opts, k) && settled(
                    s.objects[k].mtime_secs,
                    opts.now,
                ) implies victims(gone).contains(Victim::Object(k as usize)) by {
                if !victims(gone).contains(Victim::Object(k as usize)) {
                    let z = lemma_object_at(s, opts, k);
                    assert(c.contains(all[z]));
                }
            }
        }
    }
}

/// What the budget deletes was modified no later than it takes its turn.
proof fn lemma_cut_time(s: Stock, opts: GcOptions, budget: int, v: Victim) -> (x: Candidate)
    requires
        s.results.len() <= usize::MAX,
        s.objects.len() <= usize::MAX,
        victims(cut_files(s, opts, budget)).contains(v),
    ensures
        cut_files(s, opts, budget).contains(x),
        x.victim == v,
        file_of(s, v).mtime_secs <= x.mtime_secs,
{
    let c = cut_files(s, opts, budget);
    let x = lemma_victim(c, v);
    let k = choose|k: int| 0 <= k < c.len() && c[k] == x;
    let j = lemma_cut_from(
        spare_results(s, opts) + spare_objects(s, opts),
        store_size(s) - bytes_of(by_age(s, opts)),
        budget,
        k,
    );
    lemma_spare(s, opts, j);
    x
}

/// A budget deletes the oldest results: no unmarked result that is at least 24h old
/// and survives is older than a file, result or object, that the budget deletes.
pub proof fn budgets_spare_younger_results(s: Stock, opts: GcOptions, i: usize, v: Victim)
    requires
        s.results.len() <= usize::MAX,
        s.objects.len() <= usize::MAX,
        opts.max_size is Some,
        store_size(s) > opts.max_size->0,
        victims(cut_files(s, opts, opts.max_size->0 as int)).contains(v),
        i < s.results.len(),
        !is_marked(s.marked, s.results[i as int]),
        settled(s.results[i as int].mtime_secs, opts.now),
        !victims(doomed(s, opts)).contains(Victim::Result(i)),
    ensures
        file_of(s, v).mtime_secs <= s.results[i as int].mtime_secs,
{
    let budget = opts.max_size->0 as int;
    let x = lemma_cut_time(s, opts, budget, v);
    let k = lemma_result_at(s, opts, i as int);
    let j = lemma_cut_sooner(
        spare_results(s, opts) + spare_objects(s, opts),
        store_size(s) - bytes_of(by_age(s, opts)),
        budget,
        x,
        k,
    );
}

/// A budget deletes the oldest objects: no object that is at least 24h old, that
/// nothing keeps and that survives is older than a file, result or object, that the
/// budget deletes. An object waits for the results that hold it, so where the
/// budget is met as these go, it is they that are no older.
pub proof fn budgets_spare_younger_objects(s: Stock, opts: GcOptions, k: usize, v: Victim)
    requires
        s.results.len() <= usize::MAX,
        s.objects.len() <= usize::MAX,
        opts.max_size is Some,
        store_size(s) > opts.max_size->0,
        victims(cut_files(s, opts, opts.max_size->0 as int)).contains(v),
        k < s.objects.len(),
        unheld(s, opts, k as int),
        settled(s.objects[k as int].mtime_secs, opts.now),
        !victims(doomed(s, opts)).contains(Victim::Object(k)),
    ensures
        file_of(s, v).mtime_secs <= s.objects[k as int].mtime_secs || (
        s.objects[k as int].digest is Some && exists|i: int|
            0 <= i < s.results.len() && #[trigger] refers(
                s.references,
                i,
                s.objects[k as int].digest->0,
            ) && has_result(cut_files(s, opts, opts.max_size->0 as int), i) && file_of(
                s,
                v,
            ).mtime_secs <= s.results[i].mtime_secs),
{
    let budget = opts.max_size->0 as int;
    let file = s.objects[k as int];
    let x = lemma_cut_time(s, opts, budget, v);
    let z = lemma_object_at(s, opts, k as int);
    let j = lemma_cut_sooner(
        spare_results(s, opts) + spare_objects(s, opts),
        store_size(s) - bytes_of(by_age(s, opts)),
        budget,
        x,
        z,
    );
    assert(x.mtime_secs <= turn(s, opts, file));
    if turn(s, opts, file) != file.mtime_secs {
        let d = file.digest->0;
        lemma_youngest(s, opts, d, s.results.len() as int);
        let i = choose|i: int|
            0 <= i < s.results.len() && #[trigger] refers(s.references, i, d) && !due_result(
                s,
                opts,
            )(i) && s.results[i].mtime_secs == turn(s, opts, file);
        if !has_result(doomed(s, opts), i) {
            assert(held(s, doomed(s, opts)).contains(d));
        }
        lemma_result_cut(s, opts, i);
    }
}

/// A store within its budget loses nothing to it.
pub proof fn stores_within_budget_are_left(s: Stock, opts: GcOptions)
    requires
        opts.max_size is Some ==> store_size(s) <= opts.max_size->0,
    ensures
        doomed(s, opts) == by_age(s, opts),
{
}

/// Without a floor, and with one of nothing, every unmarked result goes, and
/// every object that is neither marked nor referenced by a marked result.
pub proof fn without_a_floor_all_garbage_goes(s: Stock, opts: GcOptions)
    requires
        opts.older_than is None || opts.older_than == Some(0u64),
        s.results.len() <= usize::MAX,
    ensures
        forall|i: int|
            0 <= i < s.results.len() && !is_marked(s.marked, #[trigger] s.results[i]) ==> victims(
                doomed(s, opts),
            ).contains(Victim::Result(i as usize)),
        forall|k: int|
            #![trigger s.objects[k]]
            0 <= k < s.objects.len() && !is_marked(s.marked, s.objects[k]) && (forall|i: int|
                0 <= i < s.results.len() && is_marked(s.marked, #[trigger] s.results[i])
                    && s.objects[k].digest is Some ==> !refers(
                    s.references,
                    i,
                    s.objects[k].digest->0,
                )) ==> victims(doomed(s, opts)).contains(Victim::Object(k as usize)),
{
    lemma_due_goes(s, opts);
    let gone = victims(doomed(s, opts));
    assert forall|i: int|
        0 <= i < s.results.len() && !is_marked(
            s.marked,
            #[trigger] s.results[i],
        ) implies gone.contains(Victim::Result(i as usize)) by {
        assert(due_result(s, opts)(i));
    }
    assert forall|k: int|
        #![trigger s.objects[k]]
        0 <= k < s.objects.len() && !is_marked(s.marked, s.objects[k]) && (forall|i: int|
            0 <= i < s.results.len() && is_marked(s.marked, #[trigger] s.results[i])
                && s.objects[k].digest is Some ==> !refers(
                s.references,
                i,
                s.objects[k].digest->0,
            )) implies gone.contains(Victim::Object(k as usize)) by {
        let kept = kept_by_age(s, opts);
        if is_marked(kept, s.objects[k]) {
            let d = s.objects[k].digest->0;
            let i = choose|i: int|
                0 <= i < s.results.len() && !has_result(
                    aged_results(s, opts),
                    i,
                ) && #[trigger] refers(s.references, i, d);
            lemma_aged_results(s, opts, i);
            assert(is_marked(s.marked, s.results[i]));
        }
        assert(due_object(s, kept, opts)(k));
    }
}

proof fn lemma_chosen_same(
    area: Area,
    files: Seq<StoreFile>,
    p: spec_fn(int) -> bool,
    q: spec_fn(int) -> bool,
    n: int,
)
    requires
        forall|i: int| 0 <= i < n ==> #[trigger] p(i) == q(i),
    ensures
        chosen(area, files, p, n) == chosen(area, files, q, n),
    decreases n,
{
    if n > 0 {
        lemma_chosen_same(area, files, p, q, n - 1);
        assert(p(n - 1) == q(n - 1));
    }
}

proof fn lemma_youngest_same(s: Stock, wet: GcOptions, dry: GcOptions, d: Digest, n: int)
    requires
        wet.older_than == dry.older_than,
        wet.now == dry.now,
    ensures
        youngest(s, wet, d, n) == youngest(s, dry, d, n),
    decreases n,
{
    if n > 0 {
        lemma_youngest_same(s, wet, dry, d, n - 1);
    }
}

/// A dry run reports what the sweep would do.
pub proof fn dry_runs_report_the_same(s: Stock, wet: GcOptions, dry: GcOptions)
    requires
        wet.older_than == dry.older_than,
        wet.max_size == dry.max_size,
        wet.now == dry.now,
    ensures
        reported(s, wet) == reported(s, dry),
{
    let n = s.results.len() as int;
    let m = s.objects.len() as int;
    lemma_chosen_same(Area::Results, s.results, due_result(s, wet), due_result(s, dry), n);
    lemma_chosen_same(Area::Results, s.results, left_result(s, wet), left_result(s, dry), n);
    lemma_chosen_same(Area::Tmp, s.tmp, stale(s, wet), stale(s, dry), s.tmp.len() as int);
    let kept = kept_by_age(s, wet);
    assert(kept == kept_by_age(s, dry));
    lemma_chosen_same(
        Area::Objects,
        s.objects,
        due_object(s, kept, wet),
        due_object(s, kept, dry),
        m,
    );
    assert(by_age(s, wet) == by_age(s, dry));
    assert forall|i: int| 0 <= i < m implies #[trigger] waiting(s, wet)[i] == waiting(s, dry)[i] by {
        if let Some(d) = s.objects[i].digest {
            lemma_youngest_same(s, wet, dry, d, n);
        }
    }
    assert(waiting(s, wet) =~= waiting(s, dry));
    let still = kept_for_good(s, wet);
    assert(still == kept_for_good(s, dry));
    lemma_chosen_same(
        Area::Objects,
        waiting(s, wet),
        left_object(s, kept, still, wet),
        left_object(s, kept, still, dry),
        m,
    );
}

/// Whether no result stands behind an object.
pub open spec fn results_first(c: Seq<Candidate>) -> bool {
    forall|i: int, j: int|
        0 <= i < j < c.len() && (#[trigger] c[j]).victim is Result ==> (
        #[trigger] c[i]).victim is Result
}

/// Results are swept before objects: by age, and again by the budget.
pub proof fn results_go_before_objects(s: Stock, opts: GcOptions, budget: int)
    ensures
        results_first(by_age(s, opts)),
        results_first(by_budget(s, opts, budget)),
{
    let a = aged_results(s, opts);
    let all = by_age(s, opts);
    assert forall|i: int, j: int|
        0 <= i < j < all.len() && (#[trigger] all[j]).victim is Result implies (
    #[trigger] all[i]).victim is Result by {
        let kept = kept_by_age(s, opts);
        let o = chosen(Area::Objects, s.objects, due_object(s, kept, opts), s.objects.len() as int);
        if j < a.len() {
            let z = lemma_chosen_from(
                Area::Results,
                s.results,
                due_result(s, opts),
                s.results.len() as int,
                i,
            );
            assert(all[i] == candidate(Area::Results, s.results, z));
        } else if j < a.len() + o.len() {
            let z = lemma_chosen_from(
                Area::Objects,
                s.objects,
                due_object(s, kept, opts),
                s.objects.len() as int,
                j - a.len(),
            );
            assert(all[j] == candidate(Area::Objects, s.objects, z));
        } else {
            let z = lemma_chosen_from(
                Area::Tmp,
                s.tmp,
                stale(s, opts),
                s.tmp.len() as int,
                j - a.len() - o.len(),
            );
            assert(all[j] == candidate(Area::Tmp, s.tmp, z));
        }
    }
    let c = cut_files(s, opts, budget);
    let (r, o) = (parted(c, true), parted(c, false));
    let both = by_budget(s, opts, budget);
    assert forall|i: int, j: int|
        0 <= i < j < both.len() && (#[trigger] both[j]).victim is Result implies (
    #[trigger] both[i]).victim is Result by {
        if i < r.len() {
            assert(both[i] == r[i]);
            assert(r.contains(r[i]));
            lemma_parted(c, true, r[i]);
        } else {
            assert(both[j] == o[j - r.len()]);
            assert(o.contains(o[j - r.len()]));
            lemma_parted(c, false, o[j - r.len()]);
        }
    }
}

/// What is cut has no more bytes than what there was.
proof fn lemma_cut_bytes(c: Seq<Candidate>, current: int, budget: int)
    ensures
        bytes_of(cut(c, current, budget)) <= bytes_of(c),
{
    lemma_oldest_first(c);
    let order = oldest_first(c);
    lemma_order_distinct(c, order);
    lemma_over_budget_sum(c, order, 0, current, budget);
    let n = cut(c, current, budget).len() as int;
    let at = order.take(n);
    assert(order.subrange(0, n) =~= at);
    assert forall|i: int| 0 <= i < at.len() implies 0 <= (#[trigger] at[i]) < c.len() by {
        assert(order.contains(order[i]));
    }
    lemma_sum_within(c, at);
}

proof fn lemma_over_budget_sum(
    c: Seq<Candidate>,
    order: Seq<int>,
    k: int,
    current: int,
    budget: int,
)
    requires
        0 <= k <= order.len(),
    ensures
        ({
            let gone = over_budget(c, order, k, current, budget);
            k + gone.len() <= order.len() && bytes_of(gone) == sum_at(
                c,
                order.subrange(k, k + gone.len()),
            )
        }),
    decreases order.len() - k,
{
    let gone = over_budget(c, order, k, current, budget);
    if k < order.len() && current > budget {
        let x = c[order[k]];
        lemma_over_budget_sum(c, order, k + 1, current - x.size, budget);
        let tail = over_budget(c, order, k + 1, current - x.size, budget);
        lemma_bytes_cat(seq![x], tail);
        lemma_bytes_push(Seq::empty(), x);
        assert(seq![x] =~= Seq::<Candidate>::empty().push(x));
        let at = order.subrange(k, k + gone.len());
        lemma_sum_remove(c, at, 0);
        assert(at.remove(0) =~= order.subrange(k + 1, k + 1 + tail.len()));
    } else {
        assert(order.subrange(k, k) =~= Seq::<int>::empty());
    }
}

/// No more is freed than the store holds.
pub proof fn no_more_is_freed_than_there_is(s: Stock, opts: GcOptions)
    ensures
        bytes_of(doomed(s, opts)) <= store_size(s),
{
    lemma_budget_bytes(s, opts);
    if let Some(b) = opts.max_size {
        if store_size(s) > b {
            let c = cut_files(s, opts, b as int);
            lemma_parted_bytes(c);
            lemma_bytes_cat(parted(c, true), parted(c, false));
            lemma_bytes_cat(by_age(s, opts), by_budget(s, opts, b as int));
            lemma_cut_bytes(
                spare_results(s, opts) + spare_objects(s, opts),
                store_size(s) - bytes_of(by_age(s, opts)),
                b as int,
            );
        }
    }
}

/// Ages are counted in seconds: a file has settled after a day, and meets a floor once
/// it is that old.
pub proof fn ages_are_counted_in_seconds(mtime: u64, now: u64, floor: u64)
    ensures
        settled(mtime, now) <==> now - mtime >= 24 * 60 * 60,
        old_enough(mtime, now, None),
        old_enough(mtime, now, Some(0u64)),
        floor > 0 ==> (old_enough(mtime, now, Some(floor)) <==> now - mtime >= floor),
{
}

/// A temporary file goes once it is a day old, whatever the floor and the budget, and
/// not before.
pub proof fn temporary_files_go_after_a_day(s: Stock, opts: GcOptions, i: usize)
    requires
        i < s.tmp.len(),
        s.results.len() <= usize::MAX,
        s.objects.len() <= usize::MAX,
        s.tmp.len() <= usize::MAX,
    ensures
        victims(doomed(s, opts)).contains(Victim::Tmp(i)) <==> opts.now
            - s.tmp[i as int].mtime_secs >= 24 * 60 * 60,
{
    let gone = doomed(s, opts);
    let n = s.tmp.len() as int;
    if settled(s.tmp[i as int].mtime_secs, opts.now) {
        let k = lemma_chosen_has(Area::Tmp, s.tmp, stale(s, opts), n, i as int);
        let old = by_age(s, opts);
        let x = chosen(Area::Tmp, s.tmp, stale(s, opts), n)[k];
        let at = old.len() - chosen(Area::Tmp, s.tmp, stale(s, opts), n).len();
        assert(old[at + k] == x);
        assert(gone[at + k] == x);
        assert(victims(gone)[at + k] == Victim::Tmp(i));
    }
    if victims(gone).contains(Victim::Tmp(i)) {
        let x = lemma_victim(gone, Victim::Tmp(i));
        lemma_reason(s, opts, x);
    }
}

/// Without a budget a result or an object goes only once it is as old as the floor,
/// where there is one.
pub proof fn floors_spare_younger_files(s: Stock, opts: GcOptions, i: usize, floor: u64)
    requires
        opts.max_size is None,
        opts.older_than == Some(floor),
        floor > 0,
        s.results.len() <= usize::MAX,
        s.objects.len() <= usize::MAX,
        s.tmp.len() <= usize::MAX,
    ensures
        i < s.results.len() && opts.now - s.results[i as int].mtime_secs < floor ==> !victims(
            doomed(s, opts),
        ).contains(Victim::Result(i)),
        i < s.objects.len() && opts.now - s.objects[i as int].mtime_secs < floor ==> !victims(
            doomed(s, opts),
        ).contains(Victim::Object(i)),
{
    let gone = doomed(s, opts);
    if i < s.results.len() && victims(gone).contains(Victim::Result(i)) {
        let x = lemma_victim(gone, Victim::Result(i));
        lemma_reason(s, opts, x);
    }
    if i < s.objects.len() && victims(gone).contains(Victim::Object(i)) {
        let x = lemma_victim(gone, Victim::Object(i));
        lemma_reason(s, opts, x);
    }
}

} // verus!
