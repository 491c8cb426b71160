//! What a package's compilation reaches: crates, native imports, and build
//! scripts.

use vstd::prelude::*;
use crate::disk::{Disk, StopView};
use crate::features::{is_native, position_of_package};
use crate::model::{Dep, RustModel};
use crate::resolution::{dep_at, dep_list, edge_ok, find, native, Edge, EdgeKind};
use crate::strmap::StrSet;
use crate::workspace::{key_matches, target_matches};

verus! {

/// Whether the feature resolution has an edge: optional edges only where it
/// activated them.
pub open spec fn edge_enabled(m: RustModel, i: int, dep: Dep) -> bool {
    !dep.optional || m.feature_map.edge_on(m.packages@[i].id@, dep.extern_name@)
}

/// Whether an edge is for the host: target-specific edges only when the target
/// matches it. The model keeps every target's edges, so planning filters here.
pub open spec fn edge_for_host(disk: Disk, host: Seq<char>, dep: Dep) -> bool {
    match dep.target {
        Some(target) => key_matches(disk, target@, host, "dependency"@) == Ok::<bool, StopView>(
            true,
        ),
        None => true,
    }
}

/// Whether a dep edge is live.
pub open spec fn edge_live(m: RustModel, disk: Disk, host: Seq<char>, i: int, dep: Dep) -> bool {
    edge_for_host(disk, host, dep) && edge_enabled(m, i, dep)
}

/// Whether the feature resolution has an edge of the package at `i`.
pub fn is_enabled(model: &RustModel, i: usize, dep: &Dep) -> (r: bool)
    requires
        i < model.packages@.len(),
    ensures
        r == edge_enabled(*model, i as int, *dep),
{
    !dep.optional || model.feature_map.edge_active(
        &model.packages[i].id,
        dep.extern_name.as_str(),
    )
}

/// Whether a dep edge of the package at `i` is live: non-optional edges always;
/// optional edges only when the feature resolution activated them;
/// target-specific edges only when the target matches the host.
pub fn dep_active(model: &RustModel, disk: &Disk, host: &str, i: usize, dep: &Dep) -> (r: bool)
    requires
        i < model.packages@.len(),
    ensures
        r == edge_live(*model, *disk, host@, i as int, *dep),
{
    if let Some(target) = &dep.target {
        match target_matches(disk, target.as_str(), host, "dependency") {
            Ok(true) => {},
            _ => return false,
        }
    }
    is_enabled(model, i, dep)
}

/// The kinds of edges that a walk follows. Native imports are leaves: no walk
/// follows an edge to one.
#[derive(Clone, Copy, PartialEq, Eq, Structural, Debug)]
pub enum Walk {
    /// Live normal edges: what a crate links.
    Links,
    /// Enabled normal and build edges: what takes part in a build.
    Builds,
}

/// Whether a walk follows an edge.
pub open spec fn follows(m: RustModel, disk: Disk, host: Seq<char>, walk: Walk, e: Edge) -> bool {
    let dep = dep_at(m.packages@, e);
    match walk {
        Walk::Links => e.1 == EdgeKind::Normal && edge_live(m, disk, host, e.0, dep) && !native(
            m,
            dep.package.name@,
        ),
        Walk::Builds => e.1 != EdgeKind::Dev && edge_enabled(m, e.0, dep) && !native(
            m,
            dep.package.name@,
        ),
    }
}

/// Whether an edge that the walk follows leads from one package to another.
pub open spec fn leads(m: RustModel, disk: Disk, host: Seq<char>, walk: Walk, i: int, j: int) -> bool {
    exists|kind: EdgeKind, k: int|
        #![trigger dep_list(m.packages@[i], kind)[k]]
        edge_ok(m.packages@, (i, kind, k)) && follows(m, disk, host, walk, (i, kind, k)) && find(
            m.packages@,
            dep_list(m.packages@[i], kind)[k].package@,
        ) == Some(j)
}

/// Whether a walk can go along these packages.
pub open spec fn is_path(m: RustModel, disk: Disk, host: Seq<char>, walk: Walk, path: Seq<int>) -> bool {
    forall|k: int| 0 <= k < path.len() - 1 ==> leads(m, disk, host, walk, #[trigger] path[k], path[k + 1])
}

/// Whether a walk from one of the roots can come to a package.
pub open spec fn reaches(
    m: RustModel,
    disk: Disk,
    host: Seq<char>,
    walk: Walk,
    roots: Set<int>,
    j: int,
) -> bool {
    exists|path: Seq<int>|
        path.len() > 0 && roots.contains(path[0]) && path.last() == j && #[trigger] is_path(
            m,
            disk,
            host,
            walk,
            path,
        )
}

pub proof fn lemma_reach_root(m: RustModel, disk: Disk, host: Seq<char>, walk: Walk, roots: Set<int>, j: int)
    requires
        roots.contains(j),
    ensures
        reaches(m, disk, host, walk, roots, j),
{
    let path = seq![j];
    assert(is_path(m, disk, host, walk, path));
    assert(path.last() == j);
}

/// What a reached package leads to is reached.
pub proof fn lemma_reach_step(
    m: RustModel,
    disk: Disk,
    host: Seq<char>,
    walk: Walk,
    roots: Set<int>,
    i: int,
    j: int,
)
    requires
        reaches(m, disk, host, walk, roots, i),
        leads(m, disk, host, walk, i, j),
    ensures
        reaches(m, disk, host, walk, roots, j),
{
    let path = choose|path: Seq<int>|
        path.len() > 0 && roots.contains(path[0]) && path.last() == i && #[trigger] is_path(
            m,
            disk,
            host,
            walk,
            path,
        );
    let longer = path.push(j);
    assert forall|k: int| 0 <= k < longer.len() - 1 implies leads(
        m,
        disk,
        host,
        walk,
        #[trigger] longer[k],
        longer[k + 1],
    ) by {
        if k < path.len() - 1 {
            assert(longer[k] == path[k]);
            assert(longer[k + 1] == path[k + 1]);
        }
    }
    assert(is_path(m, disk, host, walk, longer));
    assert(longer[0] == path[0]);
    assert(longer.last() == j);
}

/// A set that holds the roots and what its members lead to holds all that is
/// reached.
pub proof fn lemma_closed_holds_reached(
    m: RustModel,
    disk: Disk,
    host: Seq<char>,
    walk: Walk,
    roots: Set<int>,
    held: Set<int>,
    j: int,
)
    requires
        roots.subset_of(held),
        forall|a: int, b: int|
            held.contains(a) && #[trigger] leads(m, disk, host, walk, a, b) ==> held.contains(b),
        reaches(m, disk, host, walk, roots, j),
    ensures
        held.contains(j),
{
    let path = choose|path: Seq<int>|
        path.len() > 0 && roots.contains(path[0]) && path.last() == j && #[trigger] is_path(
            m,
            disk,
            host,
            walk,
            path,
        );
    lemma_path_held(m, disk, host, walk, held, path, path.len() - 1);
}

proof fn lemma_path_held(
    m: RustModel,
    disk: Disk,
    host: Seq<char>,
    walk: Walk,
    held: Set<int>,
    path: Seq<int>,
    k: int,
)
    requires
        0 <= k < path.len(),
        held.contains(path[0]),
        is_path(m, disk, host, walk, path),
        forall|a: int, b: int|
            held.contains(a) && #[trigger] leads(m, disk, host, walk, a, b) ==> held.contains(b),
    ensures
        held.contains(path[k]),
    decreases k,
{
    if k > 0 {
        lemma_path_held(m, disk, host, walk, held, path, k - 1);
        assert(leads(m, disk, host, walk, path[k - 1], path[k]));
    }
}

/// The packages marked in a list.
pub open spec fn marked(v: Seq<bool>) -> Set<int> {
    Set::new(|j: int| 0 <= j < v.len() && v[j])
}

/// Whether a walk's stack holds a package.
spec fn waits(stack: Seq<usize>, j: int) -> bool {
    exists|k: int| 0 <= k < stack.len() && #[trigger] stack[k] == j
}

/// Puts the packages on the stack that the package at `i` leads to by one list
/// of edges.
fn push_led(
    model: &RustModel,
    disk: &Disk,
    host: &str,
    walk: Walk,
    i: usize,
    kind: EdgeKind,
    stack: &mut Vec<usize>,
)
    requires
        i < model.packages@.len(),
        forall|k: int| 0 <= k < old(stack)@.len() ==> #[trigger] old(stack)@[k] < model.packages@.len(),
    ensures
        forall|k: int|
            0 <= k < final(stack)@.len() ==> #[trigger] final(stack)@[k] < model.packages@.len(),
        forall|j: int| #[trigger]
            waits(final(stack)@, j) <==> waits(old(stack)@, j) || exists|k: int|
                #![trigger dep_list(model.packages@[i as int], kind)[k]]
                edge_ok(model.packages@, (i as int, kind, k)) && follows(
                    *model,
                    *disk,
                    host@,
                    walk,
                    (i as int, kind, k),
                ) && find(
                    model.packages@,
                    dep_list(model.packages@[i as int], kind)[k].package@,
                ) == Some(j),
{
    let package = &model.packages[i];
    let deps: &Vec<Dep> = match kind {
        EdgeKind::Normal => &package.deps,
        EdgeKind::Build => &package.build_deps,
        EdgeKind::Dev => &package.dev_deps,
    };
    let ghost ps = model.packages@;
    let ghost start = stack@;
    let mut n: usize = 0;
    while n < deps.len()
        invariant
            n <= deps@.len(),
            i < ps.len(),
            ps == model.packages@,
            deps@ == dep_list(ps[i as int], kind),
            *package == ps[i as int],
            forall|k: int| 0 <= k < stack@.len() ==> #[trigger] stack@[k] < ps.len(),
            forall|j: int| #[trigger]
                waits(stack@, j) <==> waits(start, j) || exists|k: int|
                    #![trigger dep_list(ps[i as int], kind)[k]]
                    0 <= k < n && follows(*model, *disk, host@, walk, (i as int, kind, k)) && find(
                        ps,
                        dep_list(ps[i as int], kind)[k].package@,
                    ) == Some(j),
        decreases deps@.len() - n,
    {
        let dep = &deps[n];
        let ghost e = (i as int, kind, n as int);
        assert(dep_at(ps, e) == *dep);
        let go = match walk {
            Walk::Links => kind == EdgeKind::Normal && dep_active(model, disk, host, i, dep)
                && !is_native(model, dep.package.name.as_str()),
            Walk::Builds => kind != EdgeKind::Dev && is_enabled(model, i, dep) && !is_native(
                model,
                dep.package.name.as_str(),
            ),
        };
        assert(go == follows(*model, *disk, host@, walk, e));
        let ghost before = stack@;
        let mut added: Option<usize> = None;
        if go {
            if let Some(j) = position_of_package(&model.packages, &dep.package) {
                stack.push(j);
                added = Some(j);
            }
        }
        proof {
            assert(dep_list(ps[i as int], kind)[n as int] == *dep);
            assert forall|j: int| #[trigger]
                waits(stack@, j) <==> waits(start, j) || exists|k: int|
                #![trigger dep_list(ps[i as int], kind)[k]]
                0 <= k < n + 1 && follows(*model, *disk, host@, walk, (i as int, kind, k)) && find(
                    ps,
                    dep_list(ps[i as int], kind)[k].package@,
                ) == Some(j) by {
                if waits(before, j) {
                    let k = choose|k: int| 0 <= k < before.len() && #[trigger] before[k] == j;
                    assert(stack@[k] == j);
                    if !waits(start, j) {
                        let k = choose|k: int|
                            #![trigger dep_list(ps[i as int], kind)[k]]
                            0 <= k < n && follows(
                                *model,
                                *disk,
                                host@,
                                walk,
                                (i as int, kind, k),
                            ) && find(ps, dep_list(ps[i as int], kind)[k].package@) == Some(j);
                        assert(0 <= k < n + 1);
                        assert(dep_list(ps[i as int], kind)[k] == dep_list(ps[i as int], kind)[k]);
                    }
                }
                if added == Some(j as usize) && 0 <= j <= usize::MAX {
                    assert(stack@[stack@.len() - 1] == j);
                }
                if waits(stack@, j) && !waits(before, j) {
                    let k = choose|k: int| 0 <= k < stack@.len() && #[trigger] stack@[k] == j;
                    if k < before.len() {
                        assert(before[k] == j);
                    }
                }
                if exists|k: int|
                    #![trigger dep_list(ps[i as int], kind)[k]]
                    0 <= k < n + 1 && follows(
                        *model,
                        *disk,
                        host@,
                        walk,
                        (i as int, kind, k),
                    ) && find(ps, dep_list(ps[i as int], kind)[k].package@) == Some(j) {
                    let k = choose|k: int|
                        #![trigger dep_list(ps[i as int], kind)[k]]
                        0 <= k < n + 1 && follows(
                            *model,
                            *disk,
                            host@,
                            walk,
                            (i as int, kind, k),
                        ) && find(ps, dep_list(ps[i as int], kind)[k].package@) == Some(j);
                    if k < n {
                        assert(waits(before, j));
                    } else {
                        assert(stack@[stack@.len() - 1] == j);
                    }
                }
            }
        }
        n += 1;
    }
}

/// Marks the packages that a walk reaches from the roots.
pub fn mark_reached(model: &RustModel, disk: &Disk, host: &str, walk: Walk, roots: &Vec<usize>) -> (r: Vec<
    bool,
>)
    requires
        forall|k: int| 0 <= k < roots@.len() ==> #[trigger] roots@[k] < model.packages@.len(),
    ensures
        r@.len() == model.packages@.len(),
        forall|j: int|
            0 <= j < r@.len() ==> (#[trigger] r@[j] <==> reaches(
                *model,
                *disk,
                host@,
                walk,
                Set::new(|i: int| exists|k: int| 0 <= k < roots@.len() && #[trigger] roots@[k] == i),
                j,
            )),
{
    let ghost m = *model;
    let ghost ps = model.packages@;
    let ghost starts = Set::new(
        |i: int| exists|k: int| 0 <= k < roots@.len() && #[trigger] roots@[k] == i,
    );
    let mut seen: Vec<bool> = Vec::new();
    let mut i: usize = 0;
    while i < model.packages.len()
        invariant
            i <= ps.len(),
            ps == model.packages@,
            seen@.len() == i,
            forall|j: int| 0 <= j < i ==> !(#[trigger] seen@[j]),
        decreases ps.len() - i,
    {
        seen.push(false);
        i += 1;
    }
    let mut stack: Vec<usize> = Vec::new();
    let mut k: usize = 0;
    while k < roots.len()
        invariant
            k <= roots@.len(),
            stack@ == roots@.take(k as int),
            forall|x: int| 0 <= x < roots@.len() ==> #[trigger] roots@[x] < ps.len(),
        decreases roots@.len() - k,
    {
        stack.push(roots[k]);
        k += 1;
        assert(stack@ =~= roots@.take(k as int));
    }
    proof {
        assert(stack@ =~= roots@);
        assert forall|j: int| waits(stack@, j) implies reaches(m, *disk, host@, walk, starts, j) by {
            lemma_reach_root(m, *disk, host@, walk, starts, j);
        }
        assert forall|j: int| starts.contains(j) implies marked(seen@).contains(j) || waits(
            stack@,
            j,
        ) by {}
    }
    loop
        invariant
            m == *model,
            ps == model.packages@,
            seen@.len() == ps.len(),
            forall|x: int| 0 <= x < stack@.len() ==> #[trigger] stack@[x] < ps.len(),
            forall|j: int| #[trigger]
                waits(stack@, j) ==> reaches(m, *disk, host@, walk, starts, j),
            forall|j: int|
                marked(seen@).contains(j) ==> #[trigger] reaches(
                    m,
                    *disk,
                    host@,
                    walk,
                    starts,
                    j,
                ),
            forall|j: int| #[trigger]
                starts.contains(j) ==> marked(seen@).contains(j) || waits(stack@, j),
            forall|a: int, b: int|
                marked(seen@).contains(a) && #[trigger] leads(m, *disk, host@, walk, a, b)
                    ==> marked(seen@).contains(b) || waits(stack@, b),
        ensures
            stack@.len() == 0,
        decreases unseen(seen@), stack@.len(),
    {
        let ghost stack_before = stack@;
        let ghost seen_before = seen@;
        match stack.pop() {
            None => {
                break;
            },
            Some(at) => {
                proof {
                    assert(stack_before[stack_before.len() - 1] == at);
                    assert(waits(stack_before, at as int));
                    assert forall|j: int| #[trigger]
                        waits(stack_before, j) implies waits(stack@, j) || j == at by {
                        let x = choose|x: int|
                            0 <= x < stack_before.len() && #[trigger] stack_before[x] == j;
                        if x < stack@.len() {
                            assert(stack@[x] == j);
                        }
                    }
                    assert forall|j: int| #[trigger] waits(stack@, j) implies waits(
                        stack_before,
                        j,
                    ) by {
                        let x = choose|x: int| 0 <= x < stack@.len() && #[trigger] stack@[x] == j;
                        assert(stack_before[x] == j);
                    }
                }
                if !seen[at] {
                    proof {
                        lemma_unseen(seen@, at as int);
                    }
                    seen[at] = true;
                    let ghost rest = stack@;
                    push_led(model, disk, host, walk, at, EdgeKind::Normal, &mut stack);
                    let ghost mid = stack@;
                    push_led(model, disk, host, walk, at, EdgeKind::Build, &mut stack);
                    proof {
                        assert forall|j: int| #[trigger] waits(stack@, j) <==> waits(rest, j) || leads(
                            m,
                            *disk,
                            host@,
                            walk,
                            at as int,
                            j,
                        ) by {
                            lemma_led(m, *disk, host@, walk, at as int, j);
                        }
                        assert forall|j: int| #[trigger] waits(stack@, j) implies reaches(
                            m,
                            *disk,
                            host@,
                            walk,
                            starts,
                            j,
                        ) by {
                            if !waits(rest, j) {
                                lemma_reach_step(
                                    m,
                                    *disk,
                                    host@,
                                    walk,
                                    starts,
                                    at as int,
                                    j,
                                );
                            }
                        }
                        assert forall|j: int|
                            marked(seen@).contains(j) implies #[trigger] reaches(
                            m,
                            *disk,
                            host@,
                            walk,
                            starts,
                            j,
                        ) by {
                            if j != at {
                                assert(marked(seen_before).contains(j));
                            }
                        }
                        assert forall|a: int, b: int|
                            marked(seen@).contains(a) && #[trigger] leads(
                                m,
                                *disk,
                                host@,
                                walk,
                                a,
                                b,
                            ) implies marked(seen@).contains(b) || waits(stack@, b) by {
                            if a != at {
                                assert(marked(seen_before).contains(a));
                                if marked(seen_before).contains(b) {
                                    assert(marked(seen@).contains(b));
                                } else {
                                    assert(waits(stack_before, b));
                                    if b == at {
                                        assert(marked(seen@).contains(b));
                                    }
                                }
                            }
                        }
                        assert forall|j: int| #[trigger] starts.contains(j) implies marked(
                            seen@,
                        ).contains(j) || waits(stack@, j) by {
                            if marked(seen_before).contains(j) {
                                assert(marked(seen@).contains(j));
                            } else {
                                assert(waits(stack_before, j));
                                if j == at {
                                    assert(marked(seen@).contains(j));
                                }
                            }
                        }
                    }
                } else {
                    assert(marked(seen@).contains(at as int));
                }
            },
        }
    }
    proof {
        assert forall|j: int| 0 <= j < seen@.len() implies (#[trigger] seen@[j] <==> reaches(
            m,
            *disk,
            host@,
            walk,
            starts,
            j,
        )) by {
            if seen@[j] {
                assert(marked(seen@).contains(j));
            }
            if reaches(m, *disk, host@, walk, starts, j) {
                lemma_closed_holds_reached(
                    m,
                    *disk,
                    host@,
                    walk,
                    starts,
                    marked(seen@),
                    j,
                );
            }
        }
    }
    seen
}

/// What a package leads to, by its normal and its build edges; no walk follows
/// dev edges.
proof fn lemma_led(m: RustModel, disk: Disk, host: Seq<char>, walk: Walk, i: int, j: int)
    requires
        0 <= i < m.packages@.len(),
    ensures
        leads(m, disk, host, walk, i, j) <==> (exists|k: int|
            #![trigger dep_list(m.packages@[i], EdgeKind::Normal)[k]]
            edge_ok(m.packages@, (i, EdgeKind::Normal, k)) && follows(
                m,
                disk,
                host,
                walk,
                (i, EdgeKind::Normal, k),
            ) && find(m.packages@, dep_list(m.packages@[i], EdgeKind::Normal)[k].package@) == Some(
                j,
            )) || (exists|k: int|
            #![trigger dep_list(m.packages@[i], EdgeKind::Build)[k]]
            edge_ok(m.packages@, (i, EdgeKind::Build, k)) && follows(
                m,
                disk,
                host,
                walk,
                (i, EdgeKind::Build, k),
            ) && find(m.packages@, dep_list(m.packages@[i], EdgeKind::Build)[k].package@) == Some(
                j,
            )),
{
    if leads(m, disk, host, walk, i, j) {
        let (kind, k) = choose|kind: EdgeKind, k: int|
            #![trigger dep_list(m.packages@[i], kind)[k]]
            edge_ok(m.packages@, (i, kind, k)) && follows(m, disk, host, walk, (i, kind, k))
                && find(m.packages@, dep_list(m.packages@[i], kind)[k].package@) == Some(j);
        assert(kind != EdgeKind::Dev);
        assert(dep_list(m.packages@[i], kind)[k] == dep_list(m.packages@[i], kind)[k]);
    }
}

/// The native imports that the first `n` edges of a list lead to.
spec fn native_at(m: RustModel, i: int, kind: EdgeKind, n: int, name: Seq<char>) -> bool {
    exists|k: int|
        #![trigger dep_list(m.packages@[i], kind)[k]]
        0 <= k < n && edge_enabled(m, i, dep_list(m.packages@[i], kind)[k]) && dep_list(
            m.packages@[i],
            kind,
        )[k].package.name@ == name && native(m, name)
}

/// Whether an enabled normal or build edge of a package leads to this native
/// import.
pub open spec fn imports_native(m: RustModel, i: int, name: Seq<char>) -> bool {
    exists|kind: EdgeKind, k: int|
        #![trigger dep_list(m.packages@[i], kind)[k]]
        edge_ok(m.packages@, (i, kind, k)) && kind != EdgeKind::Dev && edge_enabled(
            m,
            i,
            dep_list(m.packages@[i], kind)[k],
        ) && dep_list(m.packages@[i], kind)[k].package.name@ == name && native(m, name)
}

/// The transitive native closure of a package: every native import reachable
/// through the dependency graph (inactive optional edges skipped).
pub open spec fn native_closure(m: RustModel, disk: Disk, host: Seq<char>, i: int) -> Set<Seq<char>> {
    Set::new(
        |name: Seq<char>|
            exists|j: int|
                #![trigger imports_native(m, j, name)]
                0 <= j < m.packages@.len() && reaches(
                    m,
                    disk,
                    host,
                    Walk::Builds,
                    set![i],
                    j,
                ) && imports_native(m, j, name),
    )
}

fn add_native(model: &RustModel, i: usize, kind: EdgeKind, out: &mut StrSet)
    requires
        i < model.packages@.len(),
    ensures
        forall|name: Seq<char>| #[trigger]
            final(out)@.contains(name) <==> old(out)@.contains(name) || native_at(
                *model,
                i as int,
                kind,
                dep_list(model.packages@[i as int], kind).len() as int,
                name,
            ),
{
    let package = &model.packages[i];
    let deps: &Vec<Dep> = match kind {
        EdgeKind::Normal => &package.deps,
        EdgeKind::Build => &package.build_deps,
        EdgeKind::Dev => &package.dev_deps,
    };
    let ghost start = out@;
    let ghost m = *model;
    let mut n: usize = 0;
    while n < deps.len()
        invariant
            n <= deps@.len(),
            m == *model,
            i < m.packages@.len(),
            deps@ == dep_list(m.packages@[i as int], kind),
            forall|name: Seq<char>| #[trigger]
                out@.contains(name) <==> start.contains(name) || native_at(
                    m,
                    i as int,
                    kind,
                    n as int,
                    name,
                ),
        decreases deps@.len() - n,
    {
        let dep = &deps[n];
        let ghost before = out@;
        let hit = is_enabled(model, i, dep) && is_native(model, dep.package.name.as_str());
        if hit {
            out.insert(dep.package.name.clone());
        }
        proof {
            assert(dep_list(m.packages@[i as int], kind)[n as int] == *dep);
            assert forall|name: Seq<char>| #[trigger]
                out@.contains(name) <==> start.contains(name) || native_at(
                    m,
                    i as int,
                    kind,
                    n as int + 1,
                    name,
                ) by {
                if native_at(m, i as int, kind, n as int, name) {
                    let k = choose|k: int|
                        #![trigger dep_list(m.packages@[i as int], kind)[k]]
                        0 <= k < n && edge_enabled(
                            m,
                            i as int,
                            dep_list(m.packages@[i as int], kind)[k],
                        ) && dep_list(m.packages@[i as int], kind)[k].package.name@ == name
                            && native(m, name);
                    assert(0 <= k < n + 1);
                    assert(dep_list(m.packages@[i as int], kind)[k].package.name@ == name);
                    assert(before.contains(name));
                }
                if native_at(m, i as int, kind, n as int + 1, name) && !native_at(
                    m,
                    i as int,
                    kind,
                    n as int,
                    name,
                ) {
                    let k = choose|k: int|
                        #![trigger dep_list(m.packages@[i as int], kind)[k]]
                        0 <= k < n + 1 && edge_enabled(
                            m,
                            i as int,
                            dep_list(m.packages@[i as int], kind)[k],
                        ) && dep_list(m.packages@[i as int], kind)[k].package.name@ == name
                            && native(m, name);
                    if k < n {
                        assert(dep_list(m.packages@[i as int], kind)[k].package.name@ == name);
                    }
                    assert(k == n);
                    assert(hit);
                }
            }
        }
        n += 1;
    }
}

/// Collects the transitive native closure of the package at `i`.
pub fn collect_cc(model: &RustModel, disk: &Disk, host: &str, i: usize) -> (r: StrSet)
    requires
        i < model.packages@.len(),
    ensures
        r@ == native_closure(*model, *disk, host@, i as int),
{
    let ghost m = *model;
    let mut roots: Vec<usize> = Vec::new();
    roots.push(i);
    let reached = mark_reached(model, disk, host, Walk::Builds, &roots);
    proof {
        let starts = Set::new(
            |x: int| exists|k: int| 0 <= k < roots@.len() && #[trigger] roots@[k] == x,
        );
        assert forall|x: int| starts.contains(x) <==> x == i by {
            if x == i {
                assert(roots@[0] == x);
            }
        }
        assert(starts =~= set![i as int]);
    }
    let mut out = StrSet::new();
    let mut j: usize = 0;
    while j < model.packages.len()
        invariant
            j <= m.packages@.len(),
            m == *model,
            reached@.len() == m.packages@.len(),
            forall|x: int|
                0 <= x < reached@.len() ==> (#[trigger] reached@[x] <==> reaches(
                    m,
                    *disk,
                    host@,
                    Walk::Builds,
                    set![i as int],
                    x,
                )),
            forall|name: Seq<char>| #[trigger]
                out@.contains(name) <==> exists|x: int|
                    #![trigger imports_native(m, x, name)]
                    0 <= x < j && reaches(m, *disk, host@, Walk::Builds, set![i as int], x)
                        && imports_native(m, x, name),
        decreases m.packages@.len() - j,
    {
        let ghost before = out@;
        if reached[j] {
            add_native(model, j, EdgeKind::Normal, &mut out);
            add_native(model, j, EdgeKind::Build, &mut out);
        }
        proof {
            assert forall|name: Seq<char>| #[trigger]
                out@.contains(name) <==> exists|x: int|
                #![trigger imports_native(m, x, name)]
                0 <= x < j + 1 && reaches(m, *disk, host@, Walk::Builds, set![i as int], x)
                    && imports_native(m, x, name) by {
                lemma_imports(m, j as int, name);
                if before.contains(name) {
                    let x = choose|x: int|
                        #![trigger imports_native(m, x, name)]
                        0 <= x < j && reaches(m, *disk, host@, Walk::Builds, set![i as int], x)
                            && imports_native(m, x, name);
                    assert(0 <= x < j + 1 && imports_native(m, x, name));
                }
                if out@.contains(name) && !before.contains(name) {
                    assert(imports_native(m, j as int, name));
                }
                if exists|x: int|
                    #![trigger imports_native(m, x, name)]
                    0 <= x < j + 1 && reaches(m, *disk, host@, Walk::Builds, set![i as int], x)
                        && imports_native(m, x, name) {
                    let x = choose|x: int|
                        #![trigger imports_native(m, x, name)]
                        0 <= x < j + 1 && reaches(
                            m,
                            *disk,
                            host@,
                            Walk::Builds,
                            set![i as int],
                            x,
                        ) && imports_native(m, x, name);
                    if x < j {
                        assert(before.contains(name));
                    }
                }
            }
        }
        j += 1;
    }
    assert(out@ =~= native_closure(m, *disk, host@, i as int));
    out
}

proof fn lemma_imports(m: RustModel, i: int, name: Seq<char>)
    requires
        0 <= i < m.packages@.len(),
    ensures
        imports_native(m, i, name) <==> native_at(
            m,
            i,
            EdgeKind::Normal,
            dep_list(m.packages@[i], EdgeKind::Normal).len() as int,
            name,
        ) || native_at(
            m,
            i,
            EdgeKind::Build,
            dep_list(m.packages@[i], EdgeKind::Build).len() as int,
            name,
        ),
{
    if imports_native(m, i, name) {
        let (kind, k) = choose|kind: EdgeKind, k: int|
            #![trigger dep_list(m.packages@[i], kind)[k]]
            edge_ok(m.packages@, (i, kind, k)) && kind != EdgeKind::Dev && edge_enabled(
                m,
                i,
                dep_list(m.packages@[i], kind)[k],
            ) && dep_list(m.packages@[i], kind)[k].package.name@ == name && native(m, name);
        assert(dep_list(m.packages@[i], kind)[k].package.name@ == name);
    }
}

// ---- Build scripts whose directives apply ------------------------------------

/// The packages that the first `n` enabled edges of a list lead to, in order.
pub open spec fn led_by(m: RustModel, i: int, kind: EdgeKind, n: int) -> Seq<int>
    decreases n,
{
    if n <= 0 {
        Seq::empty()
    } else {
        let before = led_by(m, i, kind, n - 1);
        let dep = dep_list(m.packages@[i], kind)[n - 1];
        if edge_enabled(m, i, dep) {
            match find(m.packages@, dep.package@) {
                Some(j) => before.push(j),
                None => before,
            }
        } else {
            before
        }
    }
}

/// The packages that a package's enabled normal and build edges lead to, in
/// order.
pub open spec fn led_to(m: RustModel, i: int) -> Seq<int> {
    led_by(m, i, EdgeKind::Normal, m.packages@[i].deps@.len() as int) + led_by(
        m,
        i,
        EdgeKind::Build,
        m.packages@[i].build_deps@.len() as int,
    )
}

/// How many packages are not marked.
pub open spec fn unseen(v: Seq<bool>) -> nat
    decreases v.len(),
{
    if v.len() == 0 {
        0
    } else {
        unseen(v.drop_last()) + (if v.last() {
            0nat
        } else {
            1nat
        })
    }
}

/// Marking one more leaves one less.
pub proof fn lemma_unseen(v: Seq<bool>, j: int)
    requires
        0 <= j < v.len(),
        !v[j],
    ensures
        unseen(v.update(j, true)) + 1 == unseen(v),
    decreases v.len(),
{
    let w = v.update(j, true);
    if j < v.len() - 1 {
        assert(w.drop_last() =~= v.drop_last().update(j, true));
        lemma_unseen(v.drop_last(), j);
    } else {
        assert(w.drop_last() =~= v.drop_last());
    }
}

/// The packages that a depth-first walk comes to, each once, in the order it
/// comes to them: the last on the stack first.
pub open spec fn depth_first(m: RustModel, stack: Seq<int>, seen: Seq<bool>) -> Seq<int>
    decreases unseen(seen), stack.len(),
    via depth_first_decreases
{
    if stack.len() == 0 {
        Seq::empty()
    } else {
        let j = stack.last();
        let rest = stack.drop_last();
        if j < 0 || j >= seen.len() || seen[j] {
            depth_first(m, rest, seen)
        } else {
            seq![j] + depth_first(m, rest + led_to(m, j), seen.update(j, true))
        }
    }
}

#[via_fn]
proof fn depth_first_decreases(m: RustModel, stack: Seq<int>, seen: Seq<bool>) {
    if stack.len() > 0 {
        let j = stack.last();
        if 0 <= j < seen.len() && !seen[j] {
            lemma_unseen(seen, j);
        }
    }
}

/// Packages by position.
pub open spec fn positions(v: Seq<usize>) -> Seq<int> {
    v.map_values(|x: usize| x as int)
}

fn push_led_to(model: &RustModel, i: usize, kind: EdgeKind, stack: &mut Vec<usize>)
    requires
        i < model.packages@.len(),
        forall|k: int| 0 <= k < old(stack)@.len() ==> #[trigger] old(stack)@[k] < model.packages@.len(),
    ensures
        forall|k: int|
            0 <= k < final(stack)@.len() ==> #[trigger] final(stack)@[k] < model.packages@.len(),
        positions(final(stack)@) == positions(old(stack)@) + led_by(
            *model,
            i as int,
            kind,
            dep_list(model.packages@[i as int], kind).len() as int,
        ),
{
    let package = &model.packages[i];
    let deps: &Vec<Dep> = match kind {
        EdgeKind::Normal => &package.deps,
        EdgeKind::Build => &package.build_deps,
        EdgeKind::Dev => &package.dev_deps,
    };
    let ghost start = positions(stack@);
    let mut n: usize = 0;
    assert(start =~= start + Seq::<int>::empty());
    while n < deps.len()
        invariant
            n <= deps@.len(),
            i < model.packages@.len(),
            deps@ == dep_list(model.packages@[i as int], kind),
            forall|k: int| 0 <= k < stack@.len() ==> #[trigger] stack@[k] < model.packages@.len(),
            positions(stack@) == start + led_by(*model, i as int, kind, n as int),
        decreases deps@.len() - n,
    {
        let dep = &deps[n];
        assert(dep_list(model.packages@[i as int], kind)[n as int] == *dep);
        let ghost before = stack@;
        if is_enabled(model, i, dep) {
            if let Some(j) = position_of_package(&model.packages, &dep.package) {
                stack.push(j);
                assert(positions(stack@) =~= positions(before).push(j as int));
                assert(positions(stack@) =~= start + led_by(*model, i as int, kind, n as int + 1));
            }
        }
        n += 1;
    }
}

/// The packages other than `i` itself whose build scripts apply to it, in the
/// order their directives do: a depth-first walk over enabled edges, the last
/// one first.
pub open spec fn script_order(m: RustModel, i: int) -> Seq<int> {
    depth_first(m, led_to(m, i), Seq::new(m.packages@.len(), |j: int| false))
}

/// Walks the packages below the one at `i`.
pub fn walk_scripts(model: &RustModel, i: usize) -> (r: Vec<usize>)
    requires
        i < model.packages@.len(),
    ensures
        positions(r@) == script_order(*model, i as int),
        forall|k: int| 0 <= k < r@.len() ==> #[trigger] r@[k] < model.packages@.len(),
{
    let ghost m = *model;
    let mut seen: Vec<bool> = Vec::new();
    let mut n: usize = 0;
    while n < model.packages.len()
        invariant
            n <= model.packages@.len(),
            seen@ == Seq::new(n as nat, |j: int| false),
        decreases model.packages@.len() - n,
    {
        seen.push(false);
        n += 1;
        assert(seen@ =~= Seq::new(n as nat, |j: int| false));
    }
    let mut stack: Vec<usize> = Vec::new();
    push_led_to(model, i, EdgeKind::Normal, &mut stack);
    push_led_to(model, i, EdgeKind::Build, &mut stack);
    let mut out: Vec<usize> = Vec::new();
    proof {
        assert(positions(stack@) =~= led_to(m, i as int));
        assert(positions(out@) + depth_first(m, positions(stack@), seen@) =~= script_order(
            m,
            i as int,
        ));
    }
    loop
        invariant_except_break
            positions(out@) + depth_first(m, positions(stack@), seen@) == script_order(m, i as int),
        invariant
            m == *model,
            seen@.len() == m.packages@.len(),
            forall|k: int| 0 <= k < stack@.len() ==> #[trigger] stack@[k] < m.packages@.len(),
            forall|k: int| 0 <= k < out@.len() ==> #[trigger] out@[k] < m.packages@.len(),
        ensures
            positions(out@) == script_order(m, i as int),
        decreases unseen(seen@), stack@.len(),
    {
        let ghost stack_before = positions(stack@);
        let ghost seen_before = seen@;
        let ghost out_before = positions(out@);
        match stack.pop() {
            None => {
                assert(depth_first(m, stack_before, seen@) =~= Seq::<int>::empty());
                assert(out_before + Seq::<int>::empty() =~= out_before);
                break;
            },
            Some(j) => {
                assert(positions(stack@) =~= stack_before.drop_last());
                assert(stack_before.last() == j);
                if !seen[j] {
                    proof {
                        lemma_unseen(seen@, j as int);
                    }
                    seen[j] = true;
                    let ghost rest = positions(stack@);
                    push_led_to(model, j, EdgeKind::Normal, &mut stack);
                    push_led_to(model, j, EdgeKind::Build, &mut stack);
                    out.push(j);
                    proof {
                        assert(positions(stack@) =~= rest + led_to(m, j as int));
                        assert(positions(out@) =~= out_before.push(j as int));
                        let after = depth_first(m, positions(stack@), seen@);
                        assert(depth_first(m, stack_before, seen_before) == seq![j as int] + after);
                        assert(out_before + (seq![j as int] + after) =~= positions(out@) + after);
                    }
                }
            },
        }
    }
    out
}

} // verus!
