//! Which edge of a unit's closure is found not to lead to a crate.

use vstd::prelude::*;
use crate::features::{is_native, position_of_package};
use crate::graph::{
    dep_active, edge_live, leads, lemma_closed_holds_reached, lemma_reach_root, lemma_reach_step,
    lemma_unseen, marked, unseen, Walk,
};
use crate::model::Dep;
use crate::resolution::{dep_at, dep_list, edge_ok, find, lemma_find, native, EdgeKind};
use crate::text::opt_view;
use crate::units::{
    check_edge, closure_fault, edge_fault, links, links_directly, needs_list, Needs, Planner,
};

verus! {

/// Whether an edge of a package is live.
pub open spec fn live(p: Planner<'_>, j: int, dep: Dep) -> bool {
    edge_live(*p.model, *p.disk, p.toolchain.host_triple@, j, dep)
}

/// A walk along an edge, with the packages it has come to: what it comes to then,
/// and what is wrong with the first edge on the way that leads to no crate.
pub open spec fn edge_walk(p: Planner<'_>, j: int, dep: Dep, seen: Seq<bool>, n: nat) -> (
    Seq<bool>,
    Option<Seq<char>>,
)
    decreases n, 1int, 0int,
{
    if !live(p, j, dep) || native(*p.model, dep.package.name@) {
        (seen, None)
    } else {
        match (edge_fault(*p.model, dep), find(p.model.packages@, dep.package@)) {
            (None, Some(i)) => package_walk(p, i, seen, n),
            (fault, _) => (seen, fault),
        }
    }
}

/// A walk along the first `k` of these edges of a package, the last of them first.
pub open spec fn list_walk(
    p: Planner<'_>,
    j: int,
    deps: Seq<Dep>,
    k: int,
    seen: Seq<bool>,
    n: nat,
) -> (Seq<bool>, Option<Seq<char>>)
    decreases n, 2int, k,
{
    if k <= 0 {
        (seen, None)
    } else {
        let (after, fault) = edge_walk(p, j, deps[k - 1], seen, n);
        if fault is Some {
            (after, fault)
        } else {
            list_walk(p, j, deps, k - 1, after, n)
        }
    }
}

/// A walk from a package, depth first, along its live normal edges, to packages
/// that it has not come to before. `n` bounds how many these are.
pub open spec fn package_walk(p: Planner<'_>, j: int, seen: Seq<bool>, n: nat) -> (
    Seq<bool>,
    Option<Seq<char>>,
)
    decreases n, 0int, 0int,
{
    if n == 0 || j < 0 || j >= seen.len() || seen[j] {
        (seen, None)
    } else {
        let deps = p.model.packages@[j].deps@;
        list_walk(p, j, deps, deps.len() as int, seen.update(j, true), (n - 1) as nat)
    }
}

/// A walk along the edges of a list that a unit links.
pub open spec fn needed_walk(
    p: Planner<'_>,
    i: int,
    needs: Needs,
    kind: EdgeKind,
    before: (Seq<bool>, Option<Seq<char>>),
) -> (Seq<bool>, Option<Seq<char>>) {
    let deps = dep_list(p.model.packages@[i], kind);
    if before.1 is Some || !needs_list(needs, kind) {
        before
    } else {
        list_walk(p, i, deps, deps.len() as int, before.0, p.model.packages@.len())
    }
}

/// The walk along all that a unit links, the last edge first: dev, build and normal
/// dependencies, and its package's own library.
pub open spec fn unit_walk(p: Planner<'_>, i: int, needs: Needs) -> (
    Seq<bool>,
    Option<Seq<char>>,
) {
    let none = Seq::new(p.model.packages@.len(), |j: int| false);
    let dev = needed_walk(p, i, needs, EdgeKind::Dev, (none, None));
    let build = needed_walk(p, i, needs, EdgeKind::Build, dev);
    let normal = needed_walk(p, i, needs, EdgeKind::Normal, build);
    if normal.1 is None && needs.own && p.model.packages@[i].lib is Some {
        package_walk(p, i, normal.0, p.model.packages@.len())
    } else {
        normal
    }
}

/// What is wrong with the first edge, in the order of the walk, that leads to no
/// crate.
#[verifier::opaque]
pub open spec fn first_unlinkable(p: Planner<'_>, i: int, needs: Needs) -> Option<Seq<char>> {
    unit_walk(p, i, needs).1
}

// ---- The walk ---------------------------------------------------------------------

fn walk_edge(p: &Planner<'_>, j: usize, dep: &Dep, seen: &mut Vec<bool>, n: usize) -> (r: Option<
    String,
>)
    requires
        j < p.model.packages@.len(),
        old(seen)@.len() == p.model.packages@.len(),
    ensures
        final(seen)@.len() == old(seen)@.len(),
        (final(seen)@, opt_view(r)) == edge_walk(*p, j as int, *dep, old(seen)@, n as nat),
    decreases n, 1int, 0int,
{
    let triple = p.toolchain.host_triple.as_str();
    if !dep_active(p.model, p.disk, triple, j, dep) || is_native(
        p.model,
        dep.package.name.as_str(),
    ) {
        return None;
    }
    if let Some(message) = check_edge(p.model, dep) {
        return Some(message);
    }
    match position_of_package(&p.model.packages, &dep.package) {
        Some(i) => walk_package(p, i, seen, n),
        None => None,
    }
}

fn walk_list(p: &Planner<'_>, j: usize, deps: &Vec<Dep>, seen: &mut Vec<bool>, n: usize) -> (r:
    Option<String>)
    requires
        j < p.model.packages@.len(),
        old(seen)@.len() == p.model.packages@.len(),
    ensures
        final(seen)@.len() == old(seen)@.len(),
        (final(seen)@, opt_view(r)) == list_walk(
            *p,
            j as int,
            deps@,
            deps@.len() as int,
            old(seen)@,
            n as nat,
        ),
    decreases n, 2int, 0int,
{
    let ghost whole = list_walk(*p, j as int, deps@, deps@.len() as int, seen@, n as nat);
    let mut k: usize = deps.len();
    while k > 0
        invariant
            k <= deps@.len(),
            j < p.model.packages@.len(),
            seen@.len() == p.model.packages@.len(),
            old(seen)@.len() == p.model.packages@.len(),
            whole == list_walk(
                *p,
                j as int,
                deps@,
                deps@.len() as int,
                old(seen)@,
                n as nat,
            ),
            whole == list_walk(*p, j as int, deps@, k as int, seen@, n as nat),
        decreases k,
    {
        if let Some(message) = walk_edge(p, j, &deps[k - 1], seen, n) {
            return Some(message);
        }
        k -= 1;
    }
    None
}

fn walk_package(p: &Planner<'_>, j: usize, seen: &mut Vec<bool>, n: usize) -> (r: Option<String>)
    requires
        j < p.model.packages@.len(),
        old(seen)@.len() == p.model.packages@.len(),
    ensures
        final(seen)@.len() == old(seen)@.len(),
        (final(seen)@, opt_view(r)) == package_walk(*p, j as int, old(seen)@, n as nat),
    decreases n, 0int, 0int,
{
    if n == 0 || seen[j] {
        return None;
    }
    seen[j] = true;
    let deps = &p.model.packages[j].deps;
    walk_list(p, j, deps, seen, n - 1)
}

/// Finds what is wrong with the first edge that leads to no crate, of all that a
/// unit links.
pub(crate) fn find_unlinkable(p: &Planner<'_>, i: usize, needs: Needs) -> (r: Option<String>)
    requires
        i < p.model.packages@.len(),
    ensures
        opt_view(r) == first_unlinkable(*p, i as int, needs),
{
    proof {
        reveal(first_unlinkable);
    }
    let n = p.model.packages.len();
    let package = &p.model.packages[i];
    let mut seen: Vec<bool> = Vec::new();
    while seen.len() < n
        invariant
            seen@.len() <= n,
            forall|j: int| 0 <= j < seen@.len() ==> !(#[trigger] seen@[j]),
        decreases n - seen@.len(),
    {
        seen.push(false);
    }
    assert(seen@ =~= Seq::new(p.model.packages@.len(), |j: int| false));
    if needs.dev {
        let deps = &package.dev_deps;
        if let Some(message) = walk_list(p, i, deps, &mut seen, n) {
            return Some(message);
        }
    }
    if needs.build {
        let deps = &package.build_deps;
        if let Some(message) = walk_list(p, i, deps, &mut seen, n) {
            return Some(message);
        }
    }
    if needs.normal {
        let deps = &package.deps;
        if let Some(message) = walk_list(p, i, deps, &mut seen, n) {
            return Some(message);
        }
    }
    if needs.own && package.lib.is_some() {
        walk_package(p, i, &mut seen, n)
    } else {
        None
    }
}

// ---- Laws -------------------------------------------------------------------------

/// Whether an edge is no obstacle once these packages have been come to: it is not
/// followed, or leads to one of them.
spec fn followed(p: Planner<'_>, j: int, dep: Dep, seen: Seq<bool>) -> bool {
    live(p, j, dep) && !native(*p.model, dep.package.name@) ==> edge_fault(*p.model, dep) is None
        && (find(p.model.packages@, dep.package@) matches Some(i) && marked(seen).contains(i))
}

/// Whether every normal edge of a package is followed.
spec fn finished(p: Planner<'_>, j: int, seen: Seq<bool>) -> bool {
    forall|k: int|
        0 <= k < p.model.packages@[j].deps@.len() ==> followed(
            p,
            j,
            #[trigger] p.model.packages@[j].deps@[k],
            seen,
        )
}

/// Whether a walk has come to no fewer packages, and is finished with the new ones.
spec fn grows(p: Planner<'_>, a: Seq<bool>, b: Seq<bool>) -> bool {
    &&& a.len() == b.len()
    &&& forall|j: int| 0 <= j < a.len() && a[j] ==> #[trigger] b[j]
    &&& forall|j: int| 0 <= j < a.len() && !a[j] && #[trigger] b[j] ==> finished(p, j, b)
    &&& unseen(b) <= unseen(a)
}

proof fn lemma_followed_more(p: Planner<'_>, j: int, dep: Dep, a: Seq<bool>, b: Seq<bool>)
    requires
        followed(p, j, dep, a),
        a.len() == b.len(),
        forall|x: int| 0 <= x < a.len() && a[x] ==> #[trigger] b[x],
    ensures
        followed(p, j, dep, b),
{
}

proof fn lemma_grows_on(p: Planner<'_>, a: Seq<bool>, b: Seq<bool>, c: Seq<bool>)
    requires
        grows(p, a, b),
        grows(p, b, c),
    ensures
        grows(p, a, c),
{
    assert forall|j: int| 0 <= j < a.len() && !a[j] && #[trigger] c[j] implies finished(
        p,
        j,
        c,
    ) by {
        if b[j] {
            assert(finished(p, j, b));
            assert forall|k: int| 0 <= k < p.model.packages@[j].deps@.len() implies followed(
                p,
                j,
                #[trigger] p.model.packages@[j].deps@[k],
                c,
            ) by {
                lemma_followed_more(p, j, p.model.packages@[j].deps@[k], b, c);
            }
        }
    }
}

proof fn lemma_edge_walk(p: Planner<'_>, j: int, dep: Dep, seen: Seq<bool>, n: nat)
    requires
        seen.len() == p.model.packages@.len(),
        unseen(seen) <= n,
        edge_walk(p, j, dep, seen, n).1 is None,
    ensures
        grows(p, seen, edge_walk(p, j, dep, seen, n).0),
        followed(p, j, dep, edge_walk(p, j, dep, seen, n).0),
    decreases n, 1int, 0int,
{
    if live(p, j, dep) && !native(*p.model, dep.package.name@) {
        lemma_find(p.model.packages@, dep.package@);
        let i = find(p.model.packages@, dep.package@)->0;
        lemma_package_walk(p, i, seen, n);
    }
}

proof fn lemma_list_walk(p: Planner<'_>, j: int, deps: Seq<Dep>, k: int, seen: Seq<bool>, n: nat)
    requires
        0 <= k <= deps.len(),
        seen.len() == p.model.packages@.len(),
        unseen(seen) <= n,
        list_walk(p, j, deps, k, seen, n).1 is None,
    ensures
        grows(p, seen, list_walk(p, j, deps, k, seen, n).0),
        forall|x: int|
            0 <= x < k ==> followed(
                p,
                j,
                #[trigger] deps[x],
                list_walk(p, j, deps, k, seen, n).0,
            ),
    decreases n, 2int, k,
{
    if k > 0 {
        let after = edge_walk(p, j, deps[k - 1], seen, n).0;
        lemma_edge_walk(p, j, deps[k - 1], seen, n);
        lemma_list_walk(p, j, deps, k - 1, after, n);
        let end = list_walk(p, j, deps, k - 1, after, n).0;
        lemma_grows_on(p, seen, after, end);
        lemma_followed_more(p, j, deps[k - 1], after, end);
    }
}

proof fn lemma_package_walk(p: Planner<'_>, j: int, seen: Seq<bool>, n: nat)
    requires
        0 <= j < seen.len(),
        seen.len() == p.model.packages@.len(),
        unseen(seen) <= n,
        package_walk(p, j, seen, n).1 is None,
    ensures
        grows(p, seen, package_walk(p, j, seen, n).0),
        package_walk(p, j, seen, n).0[j],
    decreases n, 0int, 0int,
{
    if !seen[j] {
        let next = seen.update(j, true);
        let deps = p.model.packages@[j].deps@;
        lemma_unseen(seen, j);
        assert(n > 0);
        lemma_list_walk(p, j, deps, deps.len() as int, next, (n - 1) as nat);
        let end = package_walk(p, j, seen, n).0;
        assert forall|x: int| 0 <= x < seen.len() && seen[x] implies #[trigger] end[x] by {
            assert(next[x]);
        }
        assert(next[j]);
        assert forall|x: int| 0 <= x < seen.len() && !seen[x] && #[trigger] end[x] implies finished(
            p,
            x,
            end,
        ) by {
            if x != j {
                assert(!next[x]);
            }
        }
    }
}

proof fn lemma_none_seen(n: nat)
    ensures
        unseen(Seq::new(n, |j: int| false)) == n,
    decreases n,
{
    if n > 0 {
        let all = Seq::new(n, |j: int| false);
        assert(all.drop_last() =~= Seq::new((n - 1) as nat, |j: int| false));
        lemma_none_seen((n - 1) as nat);
    }
}

proof fn lemma_needed_walk(
    p: Planner<'_>,
    i: int,
    needs: Needs,
    kind: EdgeKind,
    before: (Seq<bool>, Option<Seq<char>>),
)
    requires
        before.0.len() == p.model.packages@.len(),
        unseen(before.0) <= p.model.packages@.len(),
        needed_walk(p, i, needs, kind, before).1 is None,
    ensures
        before.1 is None,
        grows(p, before.0, needed_walk(p, i, needs, kind, before).0),
        needs_list(needs, kind) ==> forall|k: int|
            0 <= k < dep_list(p.model.packages@[i], kind).len() ==> followed(
                p,
                i,
                #[trigger] dep_list(p.model.packages@[i], kind)[k],
                needed_walk(p, i, needs, kind, before).0,
            ),
{
    let deps = dep_list(p.model.packages@[i], kind);
    if needs_list(needs, kind) {
        lemma_list_walk(
            p,
            i,
            deps,
            deps.len() as int,
            before.0,
            p.model.packages@.len(),
        );
    }
}

/// A walk that finds nothing wrong comes to all that a unit links, and is finished
/// with it.
proof fn lemma_unit_walk(p: Planner<'_>, i: int, needs: Needs)
    requires
        0 <= i < p.model.packages@.len(),
        first_unlinkable(p, i, needs) is None,
    ensures
        ({
            let seen = unit_walk(p, i, needs).0;
            &&& seen.len() == p.model.packages@.len()
            &&& forall|j: int| 0 <= j < seen.len() && #[trigger] seen[j] ==> finished(p, j, seen)
            &&& needs.own && p.model.packages@[i].lib is Some ==> seen[i]
            &&& forall|kind: EdgeKind, k: int|
                #![trigger dep_list(p.model.packages@[i], kind)[k]]
                needs_list(needs, kind) && 0 <= k < dep_list(p.model.packages@[i], kind).len()
                    ==> followed(p, i, dep_list(p.model.packages@[i], kind)[k], seen)
        }),
{
    reveal(first_unlinkable);
    let n = p.model.packages@.len();
    let none = Seq::new(n, |j: int| false);
    lemma_none_seen(n);
    let dev = needed_walk(p, i, needs, EdgeKind::Dev, (none, None));
    let build = needed_walk(p, i, needs, EdgeKind::Build, dev);
    let normal = needed_walk(p, i, needs, EdgeKind::Normal, build);
    let end = unit_walk(p, i, needs).0;
    assert(normal.1 is None);
    assert(build.1 is None);
    assert(dev.1 is None);
    lemma_needed_walk(p, i, needs, EdgeKind::Dev, (none, None));
    lemma_needed_walk(p, i, needs, EdgeKind::Build, dev);
    lemma_needed_walk(p, i, needs, EdgeKind::Normal, build);
    if needs.own && p.model.packages@[i].lib is Some {
        lemma_package_walk(p, i, normal.0, n);
    }
    lemma_grows_on(p, none, dev.0, build.0);
    lemma_grows_on(p, none, build.0, normal.0);
    lemma_grows_on(p, dev.0, build.0, normal.0);
    lemma_grows_on(p, none, normal.0, end);
    lemma_grows_on(p, dev.0, normal.0, end);
    lemma_grows_on(p, build.0, normal.0, end);
    assert forall|j: int| 0 <= j < end.len() && #[trigger] end[j] implies finished(p, j, end) by {
        assert(!none[j]);
    }
    assert forall|kind: EdgeKind, k: int|
        #![trigger dep_list(p.model.packages@[i], kind)[k]]
        needs_list(needs, kind) && 0 <= k < dep_list(
            p.model.packages@[i],
            kind,
        ).len() implies followed(p, i, dep_list(p.model.packages@[i], kind)[k], end) by {
        let dep = dep_list(p.model.packages@[i], kind)[k];
        match kind {
            EdgeKind::Dev => lemma_followed_more(p, i, dep, dev.0, end),
            EdgeKind::Build => lemma_followed_more(p, i, dep, build.0, end),
            EdgeKind::Normal => lemma_followed_more(p, i, dep, normal.0, end),
        }
    }
}

/// Whether this is what is wrong with a live edge that a unit links directly.
pub open spec fn direct_fault(p: Planner<'_>, i: int, needs: Needs, message: Seq<char>) -> bool {
    exists|kind: EdgeKind, k: int|
        #![trigger dep_list(p.model.packages@[i], kind)[k]]
        needs_list(needs, kind) && 0 <= k < dep_list(p.model.packages@[i], kind).len() && live(
            p,
            i,
            dep_list(p.model.packages@[i], kind)[k],
        ) && edge_fault(*p.model, dep_list(p.model.packages@[i], kind)[k]) == Some(message)
}

/// Where a unit's walk finds nothing wrong, every live edge of all that it links
/// leads to a crate or to a native import.
pub proof fn walks_find_every_fault(p: Planner<'_>, i: int, needs: Needs, message: Seq<char>)
    requires
        0 <= i < p.model.packages@.len(),
        first_unlinkable(p, i, needs) is None,
    ensures
        !closure_fault(p, i, needs, message),
        !direct_fault(p, i, needs, message),
{
    let m = *p.model;
    let host = p.toolchain.host_triple@;
    let seen = unit_walk(p, i, needs).0;
    let roots = Set::new(|x: int| links_directly(p, i, needs, x));
    lemma_unit_walk(p, i, needs);
    assert forall|j: int| #[trigger] roots.contains(j) implies marked(seen).contains(j) by {
        if !(needs.own && m.packages@[i].lib is Some && j == i) {
            let (kind, k) = choose|kind: EdgeKind, k: int|
                #![trigger dep_list(m.packages@[i], kind)[k]]
                0 <= k < dep_list(m.packages@[i], kind).len() && needs_list(needs, kind)
                    && edge_live(m, *p.disk, host, i, dep_list(m.packages@[i], kind)[k])
                    && !native(m, dep_list(m.packages@[i], kind)[k].package.name@) && find(
                    m.packages@,
                    dep_list(m.packages@[i], kind)[k].package@,
                ) == Some(j);
            assert(followed(p, i, dep_list(m.packages@[i], kind)[k], seen));
        }
    }
    assert forall|a: int, b: int|
        marked(seen).contains(a) && #[trigger] leads(
            m,
            *p.disk,
            host,
            Walk::Links,
            a,
            b,
        ) implies marked(seen).contains(b) by {
        let (kind, k) = choose|kind: EdgeKind, k: int|
            #![trigger dep_list(m.packages@[a], kind)[k]]
            edge_ok(m.packages@, (a, kind, k)) && crate::graph::follows(
                m,
                *p.disk,
                host,
                Walk::Links,
                (a, kind, k),
            ) && find(m.packages@, dep_list(m.packages@[a], kind)[k].package@) == Some(b);
        assert(finished(p, a, seen));
        assert(followed(p, a, m.packages@[a].deps@[k], seen));
    }
    if closure_fault(p, i, needs, message) {
        let (j, k) = choose|j: int, k: int|
            #![trigger m.packages@[j].deps@[k]]
            0 <= j < m.packages@.len() && 0 <= k < m.packages@[j].deps@.len() && links(
                p,
                i,
                needs,
                j,
            ) && edge_live(m, *p.disk, host, j, m.packages@[j].deps@[k]) && edge_fault(
                m,
                m.packages@[j].deps@[k],
            ) == Some(message);
        lemma_closed_holds_reached(m, *p.disk, host, Walk::Links, roots, marked(seen), j);
        assert(finished(p, j, seen));
        assert(followed(p, j, m.packages@[j].deps@[k], seen));
    }
    if direct_fault(p, i, needs, message) {
        let (kind, k) = choose|kind: EdgeKind, k: int|
            #![trigger dep_list(m.packages@[i], kind)[k]]
            needs_list(needs, kind) && 0 <= k < dep_list(m.packages@[i], kind).len() && live(
                p,
                i,
                dep_list(m.packages@[i], kind)[k],
            ) && edge_fault(m, dep_list(m.packages@[i], kind)[k]) == Some(message);
        assert(followed(p, i, dep_list(m.packages@[i], kind)[k], seen));
    }
}

proof fn lemma_edge_found(
    p: Planner<'_>,
    i: int,
    needs: Needs,
    j: int,
    dep: Dep,
    seen: Seq<bool>,
    n: nat,
)
    requires
        seen.len() == p.model.packages@.len(),
        edge_walk(p, j, dep, seen, n).1 is Some,
        live(p, j, dep) && !native(*p.model, dep.package.name@) ==> (find(
            p.model.packages@,
            dep.package@,
        ) matches Some(x) ==> links(p, i, needs, x)),
    ensures
        (live(p, j, dep) && edge_walk(p, j, dep, seen, n).1 == edge_fault(*p.model, dep))
            || closure_fault(p, i, needs, edge_walk(p, j, dep, seen, n).1->0),
    decreases n, 1int, 0int,
{
    if edge_fault(*p.model, dep) is None {
        lemma_find(p.model.packages@, dep.package@);
        lemma_package_found(p, i, needs, find(p.model.packages@, dep.package@)->0, seen, n);
    }
}

proof fn lemma_list_found(
    p: Planner<'_>,
    i: int,
    needs: Needs,
    j: int,
    k: int,
    seen: Seq<bool>,
    n: nat,
)
    requires
        0 <= j < p.model.packages@.len(),
        0 <= k <= p.model.packages@[j].deps@.len(),
        seen.len() == p.model.packages@.len(),
        links(p, i, needs, j),
        list_walk(p, j, p.model.packages@[j].deps@, k, seen, n).1 is Some,
    ensures
        closure_fault(
            p,
            i,
            needs,
            list_walk(p, j, p.model.packages@[j].deps@, k, seen, n).1->0,
        ),
    decreases n, 2int, k,
{
    let deps = p.model.packages@[j].deps@;
    if k > 0 {
        let dep = deps[k - 1];
        let r = edge_walk(p, j, dep, seen, n);
        if r.1 is Some {
            lemma_edge_links(p, i, needs, j, k - 1);
            lemma_edge_found(p, i, needs, j, dep, seen, n);
            assert(p.model.packages@[j].deps@[k - 1] == dep);
        } else {
            lemma_walk_len(p, j, dep, seen, n);
            lemma_list_found(p, i, needs, j, k - 1, r.0, n);
        }
    }
}

/// What a live edge of a linked package leads to is linked.
proof fn lemma_edge_links(p: Planner<'_>, i: int, needs: Needs, j: int, k: int)
    requires
        0 <= j < p.model.packages@.len(),
        0 <= k < p.model.packages@[j].deps@.len(),
        links(p, i, needs, j),
    ensures
        ({
            let dep = p.model.packages@[j].deps@[k];
            live(p, j, dep) && !native(*p.model, dep.package.name@) ==> (find(
                p.model.packages@,
                dep.package@,
            ) matches Some(x) ==> links(p, i, needs, x))
        }),
{
    let m = *p.model;
    let host = p.toolchain.host_triple@;
    let dep = m.packages@[j].deps@[k];
    if live(p, j, dep) && !native(m, dep.package.name@) {
        if let Some(x) = find(m.packages@, dep.package@) {
            assert(dep_list(m.packages@[j], EdgeKind::Normal)[k] == dep);
            assert(dep_at(m.packages@, (j, EdgeKind::Normal, k)) == dep);
            assert(edge_ok(m.packages@, (j, EdgeKind::Normal, k)));
            assert(leads(m, *p.disk, host, Walk::Links, j, x));
            lemma_reach_step(
                m,
                *p.disk,
                host,
                Walk::Links,
                Set::new(|y: int| links_directly(p, i, needs, y)),
                j,
                x,
            );
        }
    }
}

proof fn lemma_package_found(
    p: Planner<'_>,
    i: int,
    needs: Needs,
    j: int,
    seen: Seq<bool>,
    n: nat,
)
    requires
        0 <= j < p.model.packages@.len(),
        seen.len() == p.model.packages@.len(),
        links(p, i, needs, j),
        package_walk(p, j, seen, n).1 is Some,
    ensures
        closure_fault(p, i, needs, package_walk(p, j, seen, n).1->0),
    decreases n, 0int, 0int,
{
    let deps = p.model.packages@[j].deps@;
    lemma_list_found(
        p,
        i,
        needs,
        j,
        deps.len() as int,
        seen.update(j, true),
        (n - 1) as nat,
    );
}

/// A walk keeps the number of packages.
proof fn lemma_walk_len(p: Planner<'_>, j: int, dep: Dep, seen: Seq<bool>, n: nat)
    ensures
        edge_walk(p, j, dep, seen, n).0.len() == seen.len(),
    decreases n, 1int, 0int,
{
    if let Some(i) = find(p.model.packages@, dep.package@) {
        if n > 0 && 0 <= i < seen.len() && !seen[i] {
            let deps = p.model.packages@[i].deps@;
            lemma_list_len(p, i, deps, deps.len() as int, seen.update(i, true), (n - 1) as nat);
        }
    }
}

proof fn lemma_list_len(p: Planner<'_>, j: int, deps: Seq<Dep>, k: int, seen: Seq<bool>, n: nat)
    ensures
        list_walk(p, j, deps, k, seen, n).0.len() == seen.len(),
    decreases n, 2int, k,
{
    if k > 0 {
        lemma_walk_len(p, j, deps[k - 1], seen, n);
        lemma_list_len(p, j, deps, k - 1, edge_walk(p, j, deps[k - 1], seen, n).0, n);
    }
}

proof fn lemma_direct_found(
    p: Planner<'_>,
    i: int,
    needs: Needs,
    kind: EdgeKind,
    k: int,
    seen: Seq<bool>,
    n: nat,
)
    requires
        0 <= i < p.model.packages@.len(),
        needs_list(needs, kind),
        0 <= k <= dep_list(p.model.packages@[i], kind).len(),
        seen.len() == p.model.packages@.len(),
        list_walk(p, i, dep_list(p.model.packages@[i], kind), k, seen, n).1 is Some,
    ensures
        ({
            let message = list_walk(
                p,
                i,
                dep_list(p.model.packages@[i], kind),
                k,
                seen,
                n,
            ).1->0;
            direct_fault(p, i, needs, message) || closure_fault(p, i, needs, message)
        }),
    decreases k,
{
    let m = *p.model;
    let deps = dep_list(m.packages@[i], kind);
    if k > 0 {
        let dep = deps[k - 1];
        let r = edge_walk(p, i, dep, seen, n);
        if r.1 is Some {
            if live(p, i, dep) && !native(m, dep.package.name@) {
                if let Some(x) = find(m.packages@, dep.package@) {
                    assert(dep_list(m.packages@[i], kind)[k - 1] == dep);
                    assert(links_directly(p, i, needs, x));
                    lemma_reach_root(
                        m,
                        *p.disk,
                        p.toolchain.host_triple@,
                        Walk::Links,
                        Set::new(|y: int| links_directly(p, i, needs, y)),
                        x,
                    );
                }
            }
            lemma_edge_found(p, i, needs, i, dep, seen, n);
            assert(dep_list(m.packages@[i], kind)[k - 1] == dep);
        } else {
            lemma_walk_len(p, i, dep, seen, n);
            lemma_direct_found(p, i, needs, kind, k - 1, r.0, n);
        }
    }
}

proof fn lemma_needed_found(
    p: Planner<'_>,
    i: int,
    needs: Needs,
    kind: EdgeKind,
    before: (Seq<bool>, Option<Seq<char>>),
)
    requires
        0 <= i < p.model.packages@.len(),
        before.0.len() == p.model.packages@.len(),
        before.1 is None,
    ensures
        needed_walk(p, i, needs, kind, before).0.len() == p.model.packages@.len(),
        needed_walk(p, i, needs, kind, before).1 matches Some(message) ==> direct_fault(
            p,
            i,
            needs,
            message,
        ) || closure_fault(p, i, needs, message),
{
    let deps = dep_list(p.model.packages@[i], kind);
    let n = p.model.packages@.len();
    if needs_list(needs, kind) {
        lemma_list_len(p, i, deps, deps.len() as int, before.0, n);
        if list_walk(p, i, deps, deps.len() as int, before.0, n).1 is Some {
            lemma_direct_found(p, i, needs, kind, deps.len() as int, before.0, n);
        }
    }
}

/// What a unit's walk finds wrong is wrong with a live edge of its own, or of a
/// package that it links.
pub proof fn walks_find_only_faults(p: Planner<'_>, i: int, needs: Needs)
    requires
        0 <= i < p.model.packages@.len(),
        first_unlinkable(p, i, needs) is Some,
    ensures
        direct_fault(p, i, needs, first_unlinkable(p, i, needs)->0) || closure_fault(
            p,
            i,
            needs,
            first_unlinkable(p, i, needs)->0,
        ),
{
    reveal(first_unlinkable);
    let n = p.model.packages@.len();
    let none = Seq::new(n, |j: int| false);
    let dev = needed_walk(p, i, needs, EdgeKind::Dev, (none, None));
    lemma_needed_found(p, i, needs, EdgeKind::Dev, (none, None));
    if dev.1 is None {
        let build = needed_walk(p, i, needs, EdgeKind::Build, dev);
        lemma_needed_found(p, i, needs, EdgeKind::Build, dev);
        if build.1 is None {
            let normal = needed_walk(p, i, needs, EdgeKind::Normal, build);
            lemma_needed_found(p, i, needs, EdgeKind::Normal, build);
            if normal.1 is None {
                assert(links_directly(p, i, needs, i));
                lemma_reach_root(
                    *p.model,
                    *p.disk,
                    p.toolchain.host_triple@,
                    Walk::Links,
                    Set::new(|y: int| links_directly(p, i, needs, y)),
                    i,
                );
                lemma_package_found(p, i, needs, i, normal.0, n);
            }
        }
    }
}

} // verus!
