//! Nothing is on without a reason: a feature resolution comes to no more than
//! what its requests lead to.

use vstd::prelude::*;
use crate::feature_laws::{fact_domain, task_domain};
use crate::features::FeatureRequest;
use crate::model::{PackageIdView, ResolverVersion, RustModel};
use crate::resolution::{
    activate, activate_all, ask_default, asked, begun, dep_at, dep_list, dep_reference, edge_ok,
    expand, find, follow, host_edges, lemma_begun, lemma_find, lemma_host_edges, lemma_named_edge,
    lemma_step, list_name, named_edge, native, open_feature, plain, plain_edges, plain_of,
    provisional, requested,
    resolution, run, state_ok, step, takes_part, task_ok, turn_on, Domain, Edge, EdgeKind, Fact,
    Outcome, Resolution, Task,
};
use crate::text::strip_prefix_spec;

verus! {

/// A bound on what a resolution comes to.
pub struct Bound {
    /// What may come to hold.
    pub facts: Set<Fact>,
    /// Which features may be asked of packages.
    pub asked: Set<(int, Seq<char>, Domain)>,
    /// Which edges may be activated.
    pub edges: Set<(Edge, Domain)>,
}

/// Whether a bound has what a feature request asks for.
pub open spec fn has_request(m: RustModel, b: Bound, request: FeatureRequest) -> bool {
    match find(m.packages@, request.package@) {
        None => false,
        Some(i) => {
            &&& b.facts.contains(Fact::Expanded(i, Domain::Target))
            &&& request.default_features ==> b.facts.contains(Fact::Defaulted(i, Domain::Target))
            &&& forall|k: int|
                0 <= k < request.features@.len() ==> b.asked.contains(
                    (i, (#[trigger] request.features@[k])@, Domain::Target),
                )
        },
    }
}

/// Whether a bound has what an activated edge asks of its package.
pub open spec fn has_edge(m: RustModel, b: Bound, e: Edge, d: Domain) -> bool {
    let ps = m.packages@;
    let dep = dep_at(ps, e);
    &&& dep.optional ==> b.facts.contains(Fact::Active(e, d))
    &&& native(m, dep.package.name@) || provisional(dep) || match find(ps, dep.package@) {
        None => true,
        Some(j) => {
            &&& b.facts.contains(Fact::Expanded(j, d))
            &&& dep.default_features ==> b.facts.contains(Fact::Defaulted(j, d))
            &&& forall|k: int|
                0 <= k < dep.features@.len() ==> b.asked.contains(
                    (j, (#[trigger] dep.features@[k])@, d),
                )
        },
    }
}

/// Whether a bound has the name of an optional dependency among a package's
/// features: a declared feature of that name is asked for.
pub open spec fn has_listed(m: RustModel, b: Bound, i: int, name: Seq<char>, d: Domain) -> bool {
    if m.packages@[i].features@.contains_key(name) {
        b.asked.contains((i, name, d))
    } else {
        b.facts.contains(Fact::On(i, name, d))
    }
}

/// Whether a bound has what a reference of a feature leads to.
pub open spec fn has_reference(
    m: RustModel,
    dev: bool,
    b: Bound,
    i: int,
    reference: Seq<char>,
    d: Domain,
) -> bool {
    if let Some(name) = strip_prefix_spec(reference, "dep:"@) {
        match named_edge(m, dev, i, name, d) {
            None => true,
            Some((e, ed)) => dep_at(m.packages@, e).optional ==> b.edges.contains((e, ed)),
        }
    } else if !reference.contains('/') {
        b.asked.contains((i, reference, d))
    } else {
        let (name, weak, feature) = dep_reference(reference);
        match named_edge(m, dev, i, name, d) {
            None => true,
            Some((e, ed)) => {
                let dep = dep_at(m.packages@, e);
                &&& b.edges.contains((e, ed))
                &&& !weak && dep.optional ==> has_listed(m, b, i, dep.package.name@, d)
                &&& provisional(dep) || match find(m.packages@, dep.package@) {
                    None => true,
                    Some(j) => b.asked.contains((j, feature, ed)),
                }
            },
        }
    }
}

/// Whether a bound has what a feature asked of a package leads to.
pub open spec fn has_feature(
    m: RustModel,
    dev: bool,
    b: Bound,
    i: int,
    f: Seq<char>,
    d: Domain,
) -> bool {
    let p = m.packages@[i];
    if p.features@.contains_key(f) {
        &&& b.facts.contains(Fact::On(i, f, d))
        &&& b.facts.contains(Fact::Expanded(i, d))
        &&& forall|k: int|
            0 <= k < p.features@[f]@.len() ==> has_reference(
                m,
                dev,
                b,
                i,
                (#[trigger] p.features@[f]@[k])@,
                d,
            )
    } else {
        match named_edge(m, dev, i, f, d) {
            None => true,
            Some((e, ed)) => dep_at(m.packages@, e).optional ==> b.edges.contains((e, ed))
                && has_listed(m, b, i, dep_at(m.packages@, e).package.name@, d),
        }
    }
}

/// Whether a bound is closed: it has what the requests ask for and, under resolver
/// 3, the host domain's edges, and with each thing all that this leads to.
pub open spec fn closed_bound(
    m: RustModel,
    dev: bool,
    requests: Seq<FeatureRequest>,
    b: Bound,
) -> bool {
    &&& forall|k: int| 0 <= k < requests.len() ==> has_request(m, b, #[trigger] requests[k])
    &&& m.resolver == ResolverVersion::V3 ==> forall|k: int|
        0 <= k < host_edges(m, m.packages@.len() as int).len() ==> b.edges.contains(
            #[trigger] host_edges(m, m.packages@.len() as int)[k],
        )
    &&& forall|i: int, d: Domain, kind: EdgeKind, k: int|
        0 <= i < m.packages@.len() && b.facts.contains(Fact::Expanded(i, d)) && takes_part(
            m.resolver,
            dev,
            kind,
            d,
        ) && 0 <= k < dep_list(m.packages@[i], kind).len() && plain(m, (i, kind, k))
            ==> #[trigger] b.edges.contains(((i, kind, k), d))
    &&& forall|i: int, d: Domain|
        0 <= i < m.packages@.len() && #[trigger] b.facts.contains(Fact::Defaulted(i, d))
            && m.packages@[i].has_default_feature ==> b.asked.contains(
            (find(m.packages@, m.packages@[i].id@)->0, "default"@, d),
        )
    &&& forall|e: Edge, d: Domain|
        edge_ok(m.packages@, e) && #[trigger] b.edges.contains((e, d)) ==> has_edge(m, b, e, d)
    &&& forall|i: int, f: Seq<char>, d: Domain|
        0 <= i < m.packages@.len() && #[trigger] b.asked.contains((i, f, d)) ==> has_feature(
            m,
            dev,
            b,
            i,
            f,
            d,
        )
}

/// Whether a state and its work lie within a bound.
spec fn within(m: RustModel, b: Bound, st: Resolution) -> bool {
    &&& st.facts.subset_of(b.facts)
    &&& forall|k: int|
        0 <= k < st.queue.len() ==> match find(m.packages@, (#[trigger] st.queue[k]).0) {
            Some(j) => b.asked.contains((j, st.queue[k].1, st.queue[k].2)),
            None => true,
        }
    &&& forall|k: int| 0 <= k < st.edges.len() ==> b.edges.contains(#[trigger] st.edges[k])
    &&& forall|k: int|
        0 <= k < st.stack.len() ==> match #[trigger] st.stack[k] {
            Task::Feature { package, feature, domain } => b.asked.contains(
                (package, feature, domain),
            ),
            Task::Refs { package, feature, next, domain } => b.asked.contains(
                (package, feature, domain),
            ),
        }
}

proof fn lemma_plain_within(
    m: RustModel,
    dev: bool,
    b: Bound,
    i: int,
    kind: EdgeKind,
    d: Domain,
    n: int,
)
    requires
        0 <= i < m.packages@.len(),
        0 <= n <= dep_list(m.packages@[i], kind).len(),
        forall|k: int|
            0 <= k < dep_list(m.packages@[i], kind).len() && plain(m, (i, kind, k))
                ==> #[trigger] b.edges.contains(((i, kind, k), d)),
    ensures
        forall|x: int|
            0 <= x < plain_edges(m, i, kind, d, n).len() ==> b.edges.contains(
                #[trigger] plain_edges(m, i, kind, d, n)[x],
            ),
    decreases n,
{
    if n > 0 {
        lemma_plain_within(m, dev, b, i, kind, d, n - 1);
        let before = plain_edges(m, i, kind, d, n - 1);
        let after = plain_edges(m, i, kind, d, n);
        assert forall|x: int| 0 <= x < after.len() implies b.edges.contains(#[trigger] after[x]) by {
            if x < before.len() {
                assert(after[x] == before[x]);
            } else {
                assert(b.edges.contains(((i, kind, n - 1), d)));
            }
        }
    }
}

proof fn lemma_expand_within(
    m: RustModel,
    dev: bool,
    requests: Seq<FeatureRequest>,
    b: Bound,
    st: Resolution,
    i: int,
    d: Domain,
)
    requires
        closed_bound(m, dev, requests, b),
        within(m, b, st),
        0 <= i < m.packages@.len(),
        b.facts.contains(Fact::Expanded(i, d)),
    ensures
        within(m, b, expand(m, dev, st, i, d)),
{
    let r = expand(m, dev, st, i, d);
    let p = m.packages@[i];
    if r != st {
        let x = plain_of(m, dev, i, EdgeKind::Normal, d);
        let y = plain_of(m, dev, i, EdgeKind::Build, d);
        let z = plain_of(m, dev, i, EdgeKind::Dev, d);
        if takes_part(m.resolver, dev, EdgeKind::Normal, d) {
            lemma_plain_within(m, dev, b, i, EdgeKind::Normal, d, p.deps@.len() as int);
        }
        if takes_part(m.resolver, dev, EdgeKind::Build, d) {
            lemma_plain_within(m, dev, b, i, EdgeKind::Build, d, p.build_deps@.len() as int);
        }
        if takes_part(m.resolver, dev, EdgeKind::Dev, d) {
            lemma_plain_within(m, dev, b, i, EdgeKind::Dev, d, p.dev_deps@.len() as int);
        }
        assert forall|k: int| 0 <= k < r.edges.len() implies b.edges.contains(
            #[trigger] r.edges[k],
        ) by {
            let n = st.edges.len() as int;
            if k < n {
                assert(r.edges[k] == st.edges[k]);
            } else if k < n + x.len() {
                assert(r.edges[k] == x[k - n]);
            } else if k < n + x.len() + y.len() {
                assert(r.edges[k] == y[k - n - x.len()]);
            } else {
                assert(r.edges[k] == z[k - n - x.len() - y.len()]);
            }
        }
    }
}

proof fn lemma_default_within(
    m: RustModel,
    dev: bool,
    requests: Seq<FeatureRequest>,
    b: Bound,
    st: Resolution,
    i: int,
    d: Domain,
)
    requires
        closed_bound(m, dev, requests, b),
        within(m, b, st),
        0 <= i < m.packages@.len(),
        b.facts.contains(Fact::Defaulted(i, d)),
    ensures
        within(m, b, ask_default(m, st, i, d)),
{
    let r = ask_default(m, st, i, d);
    lemma_find(m.packages@, m.packages@[i].id@);
    if r != st {
        assert forall|k: int| 0 <= k < r.queue.len() implies match find(
            m.packages@,
            (#[trigger] r.queue[k]).0,
        ) {
            Some(j) => b.asked.contains((j, r.queue[k].1, r.queue[k].2)),
            None => true,
        } by {
            if k < st.queue.len() {
                assert(r.queue[k] == st.queue[k]);
            }
        }
    }
}

/// Queueing features asked of a package stays within a bound that has them.
proof fn lemma_queue_within(
    m: RustModel,
    b: Bound,
    st: Resolution,
    more: Seq<(PackageIdView, Seq<char>, Domain)>,
)
    requires
        within(m, b, st),
        forall|k: int|
            0 <= k < more.len() ==> match find(m.packages@, (#[trigger] more[k]).0) {
                Some(j) => b.asked.contains((j, more[k].1, more[k].2)),
                None => true,
            },
    ensures
        within(m, b, Resolution { queue: st.queue + more, ..st }),
{
    let r = Resolution { queue: st.queue + more, ..st };
    assert forall|k: int| 0 <= k < r.queue.len() implies match find(
        m.packages@,
        (#[trigger] r.queue[k]).0,
    ) {
        Some(j) => b.asked.contains((j, r.queue[k].1, r.queue[k].2)),
        None => true,
    } by {
        if k < st.queue.len() {
            assert(r.queue[k] == st.queue[k]);
        } else {
            assert(r.queue[k] == more[k - st.queue.len()]);
        }
    }
}

proof fn lemma_activate_within(
    m: RustModel,
    dev: bool,
    requests: Seq<FeatureRequest>,
    b: Bound,
    st: Resolution,
    e: Edge,
    d: Domain,
)
    requires
        closed_bound(m, dev, requests, b),
        within(m, b, st),
        edge_ok(m.packages@, e),
        b.edges.contains((e, d)),
    ensures
        activate(m, dev, st, e, d) matches Ok(r) ==> within(m, b, r),
{
    let ps = m.packages@;
    let dep = dep_at(ps, e);
    let mark = Fact::Active(e, d);
    assert(has_edge(m, b, e, d));
    lemma_find(ps, dep.package@);
    if !(dep.optional && st.facts.contains(mark)) {
        let marked = if dep.optional {
            Resolution { facts: st.facts.insert(mark), ..st }
        } else {
            st
        };
        assert(within(m, b, marked));
        if !native(m, dep.package.name@) && !provisional(dep) {
            if let Some(j) = find(ps, dep.package@) {
                lemma_expand_within(m, dev, requests, b, marked, j, d);
                let reached = expand(m, dev, marked, j, d);
                if dep.default_features {
                    lemma_default_within(m, dev, requests, b, reached, j, d);
                }
                let defaulted = if dep.default_features {
                    ask_default(m, reached, j, d)
                } else {
                    reached
                };
                let more = asked(dep.package@, dep.features@, d);
                assert forall|k: int| 0 <= k < more.len() implies match find(
                    m.packages@,
                    (#[trigger] more[k]).0,
                ) {
                    Some(x) => b.asked.contains((x, more[k].1, more[k].2)),
                    None => true,
                } by {
                    assert(more[k] == (dep.package@, dep.features@[k]@, d));
                }
                lemma_queue_within(m, b, defaulted, more);
            }
        }
    }
}

/// A fact within a bound may come to hold.
proof fn lemma_fact_within(m: RustModel, b: Bound, st: Resolution, fact: Fact)
    requires
        within(m, b, st),
        b.facts.contains(fact),
    ensures
        within(m, b, Resolution { facts: st.facts.insert(fact), ..st }),
{
}

/// Work on a feature that may be asked for stays within the bound.
proof fn lemma_task_within(m: RustModel, b: Bound, st: Resolution, t: Task)
    requires
        within(m, b, st),
        match t {
            Task::Feature { package, feature, domain } => b.asked.contains(
                (package, feature, domain),
            ),
            Task::Refs { package, feature, next, domain } => b.asked.contains(
                (package, feature, domain),
            ),
        },
    ensures
        within(m, b, Resolution { stack: st.stack.push(t), ..st }),
{
    let r = Resolution { stack: st.stack.push(t), ..st };
    assert forall|k: int| 0 <= k < r.stack.len() implies match #[trigger] r.stack[k] {
        Task::Feature { package, feature, domain } => b.asked.contains((package, feature, domain)),
        Task::Refs { package, feature, next, domain } => b.asked.contains(
            (package, feature, domain),
        ),
    } by {
        if k < st.stack.len() {
            assert(r.stack[k] == st.stack[k]);
        }
    }
}

proof fn lemma_open_within(
    m: RustModel,
    dev: bool,
    requests: Seq<FeatureRequest>,
    b: Bound,
    st: Resolution,
    i: int,
    f: Seq<char>,
    d: Domain,
)
    requires
        closed_bound(m, dev, requests, b),
        within(m, b, st),
        0 <= i < m.packages@.len(),
        m.packages@[i].features@.contains_key(f),
        b.asked.contains((i, f, d)),
    ensures
        within(m, b, open_feature(m, dev, st, i, f, d)),
{
    assert(has_feature(m, dev, b, i, f, d));
    if !st.facts.contains(Fact::On(i, f, d)) {
        lemma_fact_within(m, b, st, Fact::On(i, f, d));
        let on = Resolution { facts: st.facts.insert(Fact::On(i, f, d)), ..st };
        lemma_expand_within(m, dev, requests, b, on, i, d);
        lemma_task_within(
            m,
            b,
            expand(m, dev, on, i, d),
            Task::Refs { package: i, feature: f, next: 0, domain: d },
        );
    }
}

proof fn lemma_list_within(
    m: RustModel,
    dev: bool,
    requests: Seq<FeatureRequest>,
    b: Bound,
    st: Resolution,
    i: int,
    name: Seq<char>,
    d: Domain,
)
    requires
        closed_bound(m, dev, requests, b),
        within(m, b, st),
        0 <= i < m.packages@.len(),
        has_listed(m, b, i, name, d),
    ensures
        within(m, b, list_name(m, dev, st, i, name, d)),
{
    if m.packages@[i].features@.contains_key(name) {
        lemma_open_within(m, dev, requests, b, st, i, name, d);
    } else {
        lemma_fact_within(m, b, st, Fact::On(i, name, d));
    }
}

proof fn lemma_turn_on_within(
    m: RustModel,
    dev: bool,
    requests: Seq<FeatureRequest>,
    b: Bound,
    st: Resolution,
    i: int,
    f: Seq<char>,
    d: Domain,
)
    requires
        closed_bound(m, dev, requests, b),
        within(m, b, st),
        0 <= i < m.packages@.len(),
        b.asked.contains((i, f, d)),
    ensures
        turn_on(m, dev, st, i, f, d) matches Ok(r) ==> within(m, b, r),
{
    assert(has_feature(m, dev, b, i, f, d));
    let p = m.packages@[i];
    if p.features@.contains_key(f) {
        lemma_open_within(m, dev, requests, b, st, i, f, d);
    } else {
        lemma_named_edge(m, dev, i, f, d);
        if let Some((e, ed)) = named_edge(m, dev, i, f, d) {
            let dep = dep_at(m.packages@, e);
            if dep.optional {
                lemma_activate_within(m, dev, requests, b, st, e, ed);
                if let Ok(active) = activate(m, dev, st, e, ed) {
                    lemma_list_within(m, dev, requests, b, active, i, dep.package.name@, d);
                }
            }
        }
    }
}

proof fn lemma_follow_within(
    m: RustModel,
    dev: bool,
    requests: Seq<FeatureRequest>,
    b: Bound,
    st: Resolution,
    i: int,
    x: Seq<char>,
    d: Domain,
)
    requires
        closed_bound(m, dev, requests, b),
        within(m, b, st),
        0 <= i < m.packages@.len(),
        has_reference(m, dev, b, i, x, d),
    ensures
        follow(m, dev, st, i, x, d) matches Ok(r) ==> within(m, b, r),
{
    if let Some(name) = strip_prefix_spec(x, "dep:"@) {
        lemma_named_edge(m, dev, i, name, d);
        if let Some((e, ed)) = named_edge(m, dev, i, name, d) {
            if dep_at(m.packages@, e).optional {
                lemma_activate_within(m, dev, requests, b, st, e, ed);
            }
        }
    } else if !x.contains('/') {
        lemma_task_within(
            m,
            b,
            st,
            Task::Feature { package: i, feature: x, domain: d },
        );
    } else {
        let (name, weak, feature) = dep_reference(x);
        lemma_named_edge(m, dev, i, name, d);
        if let Some((e, ed)) = named_edge(m, dev, i, name, d) {
            let dep = dep_at(m.packages@, e);
            lemma_activate_within(m, dev, requests, b, st, e, ed);
            if let Ok(active) = activate(m, dev, st, e, ed) {
                let listed = if !weak && dep.optional {
                    list_name(m, dev, active, i, dep.package.name@, d)
                } else {
                    active
                };
                if !weak && dep.optional {
                    lemma_list_within(m, dev, requests, b, active, i, dep.package.name@, d);
                }
                assert(within(m, b, listed));
                if !provisional(dep) {
                    if let Some(j) = find(m.packages@, dep.package@) {
                        let more = seq![(dep.package@, feature, ed)];
                        lemma_queue_within(m, b, listed, more);
                        assert(listed.queue.push((dep.package@, feature, ed)) =~= listed.queue
                            + more);
                    }
                }
            }
        }
    }
}

proof fn lemma_step_within(
    m: RustModel,
    dev: bool,
    requests: Seq<FeatureRequest>,
    b: Bound,
    st: Resolution,
)
    requires
        closed_bound(m, dev, requests, b),
        state_ok(m, st),
        within(m, b, st),
    ensures
        match step(m, dev, st) {
            Outcome::Running(r) => within(m, b, r),
            Outcome::Finished(r) => within(m, b, r),
            Outcome::Failed(_) => true,
        },
{
    if st.stack.len() > 0 {
        let rest = Resolution { stack: st.stack.drop_last(), ..st };
        let last = st.stack[st.stack.len() - 1];
        assert(task_ok(m, last));
        assert(within(m, b, rest)) by {
            assert forall|k: int| 0 <= k < rest.stack.len() implies match #[trigger] rest.stack[k] {
                Task::Feature { package, feature, domain } => b.asked.contains(
                    (package, feature, domain),
                ),
                Task::Refs { package, feature, next, domain } => b.asked.contains(
                    (package, feature, domain),
                ),
            } by {
                assert(rest.stack[k] == st.stack[k]);
            }
        }
        match last {
            Task::Feature { package, feature, domain } => {
                lemma_turn_on_within(m, dev, requests, b, rest, package, feature, domain);
            },
            Task::Refs { package, feature, next, domain } => {
                let references = m.packages@[package].features@[feature]@;
                if next < references.len() {
                    let t = Task::Refs { package, feature, next: next + 1, domain };
                    lemma_task_within(m, b, rest, t);
                    let later = Resolution { stack: rest.stack.push(t), ..rest };
                    assert(has_feature(m, dev, b, package, feature, domain));
                    assert(has_reference(
                        m,
                        dev,
                        b,
                        package,
                        m.packages@[package].features@[feature]@[next]@,
                        domain,
                    ));
                    lemma_follow_within(
                        m,
                        dev,
                        requests,
                        b,
                        later,
                        package,
                        references[next]@,
                        domain,
                    );
                }
            },
        }
    } else if st.draining {
        if st.edges.len() > 0 {
            let (e, d) = st.edges[st.edges.len() - 1];
            let rest = Resolution { edges: st.edges.drop_last(), ..st };
            assert(within(m, b, rest)) by {
                assert forall|k: int| 0 <= k < rest.edges.len() implies b.edges.contains(
                    #[trigger] rest.edges[k],
                ) by {
                    assert(rest.edges[k] == st.edges[k]);
                }
            }
            lemma_activate_within(m, dev, requests, b, rest, e, d);
        }
    } else if st.queue.len() > 0 {
        let (id, feature, domain) = st.queue[st.queue.len() - 1];
        if let Some(package) = find(m.packages@, id) {
            let r = Resolution {
                queue: st.queue.drop_last(),
                stack: seq![Task::Feature { package, feature, domain }],
                ..st
            };
            assert forall|k: int| 0 <= k < r.queue.len() implies match find(
                m.packages@,
                (#[trigger] r.queue[k]).0,
            ) {
                Some(j) => b.asked.contains((j, r.queue[k].1, r.queue[k].2)),
                None => true,
            } by {
                assert(r.queue[k] == st.queue[k]);
            }
        }
    }
}

proof fn lemma_requested_within(
    m: RustModel,
    dev: bool,
    requests: Seq<FeatureRequest>,
    b: Bound,
    n: int,
)
    requires
        closed_bound(m, dev, requests, b),
        0 <= n <= requests.len(),
    ensures
        requested(m, dev, requests, n) matches Ok(st) ==> within(m, b, st),
    decreases n,
{
    if n > 0 && requested(m, dev, requests, n) is Ok {
        lemma_requested_within(m, dev, requests, b, n - 1);
        let st = requested(m, dev, requests, n - 1)->Ok_0;
        let request = requests[n - 1];
        assert(has_request(m, b, request));
        lemma_find(m.packages@, request.package@);
        let i = find(m.packages@, request.package@)->0;
        let reached = expand(m, dev, st, i, Domain::Target);
        let defaulted = if request.default_features {
            ask_default(m, reached, i, Domain::Target)
        } else {
            reached
        };
        lemma_expand_within(m, dev, requests, b, st, i, Domain::Target);
        if request.default_features {
            lemma_default_within(m, dev, requests, b, reached, i, Domain::Target);
        }
        let more = asked(request.package@, request.features@, Domain::Target);
        assert forall|k: int| 0 <= k < more.len() implies match find(
            m.packages@,
            (#[trigger] more[k]).0,
        ) {
            Some(x) => b.asked.contains((x, more[k].1, more[k].2)),
            None => true,
        } by {
            assert(more[k] == (request.package@, request.features@[k]@, Domain::Target));
        }
        lemma_queue_within(m, b, defaulted, more);
    }
}

proof fn lemma_activate_all_within(
    m: RustModel,
    dev: bool,
    requests: Seq<FeatureRequest>,
    b: Bound,
    from: Resolution,
    edges: Seq<(Edge, Domain)>,
    n: int,
)
    requires
        closed_bound(m, dev, requests, b),
        within(m, b, from),
        0 <= n <= edges.len(),
        forall|k: int| 0 <= k < edges.len() ==> edge_ok(m.packages@, (#[trigger] edges[k]).0),
        forall|k: int| 0 <= k < edges.len() ==> b.edges.contains(#[trigger] edges[k]),
    ensures
        activate_all(m, dev, from, edges, n) matches Ok(r) ==> within(m, b, r),
    decreases n,
{
    if n > 0 {
        lemma_activate_all_within(m, dev, requests, b, from, edges, n - 1);
        if let Ok(st) = activate_all(m, dev, from, edges, n - 1) {
            assert(b.edges.contains(edges[n - 1]));
            lemma_activate_within(m, dev, requests, b, st, edges[n - 1].0, edges[n - 1].1);
        }
    }
}

proof fn lemma_run_within(
    m: RustModel,
    dev: bool,
    requests: Seq<FeatureRequest>,
    b: Bound,
    n: nat,
)
    requires
        closed_bound(m, dev, requests, b),
    ensures
        match run(m, dev, begun(m, dev, requests), n) {
            Outcome::Running(st) => within(m, b, st) && state_ok(m, st),
            Outcome::Finished(st) => within(m, b, st),
            Outcome::Failed(_) => true,
        },
    decreases n,
{
    let from = begun(m, dev, requests);
    if n == 0 {
        lemma_begun(m, dev, requests);
        lemma_requested_within(m, dev, requests, b, requests.len() as int);
        if m.resolver == ResolverVersion::V3 {
            let edges = host_edges(m, m.packages@.len() as int);
            lemma_host_edges(m, m.packages@.len() as int);
            if let Ok(st) = requested(m, dev, requests, requests.len() as int) {
                lemma_activate_all_within(m, dev, requests, b, st, edges, edges.len() as int);
            }
        }
    } else {
        lemma_run_within(m, dev, requests, b, (n - 1) as nat);
        if let Outcome::Running(st) = run(m, dev, from, (n - 1) as nat) {
            lemma_step(m, dev, st);
            lemma_step_within(m, dev, requests, b, st);
        }
    }
}

/// Nothing is on without a reason: whatever comes to hold lies within every bound
/// that has what is asked for, and with each thing all that this leads to.
pub proof fn nothing_is_on_without_a_reason(
    m: RustModel,
    requests: Seq<FeatureRequest>,
    dev: bool,
    st: Resolution,
    b: Bound,
)
    requires
        resolution(m, requests, dev) == Outcome::Finished(st),
        closed_bound(m, dev, requests, b),
    ensures
        st.facts.subset_of(b.facts),
{
    let from = begun(m, dev, requests);
    let n = choose|n: nat| !(#[trigger] run(m, dev, from, n) is Running);
    lemma_run_within(m, dev, requests, b, n);
}

proof fn lemma_plain_domain(m: RustModel, i: int, kind: EdgeKind, d: Domain, n: int)
    ensures
        forall|k: int|
            0 <= k < plain_edges(m, i, kind, d, n).len() ==> (#[trigger] plain_edges(
                m,
                i,
                kind,
                d,
                n,
            )[k]).1 == d,
    decreases n,
{
    if n > 0 {
        lemma_plain_domain(m, i, kind, d, n - 1);
    }
}

/// Whether all that is new in a state belongs to one domain.
pub open spec fn adds_only(a: Resolution, b: Resolution, d: Domain) -> bool {
    &&& forall|fact: Fact| #[trigger]
        b.facts.contains(fact) && !a.facts.contains(fact) ==> fact_domain(fact) == d
    &&& a.queue.len() <= b.queue.len()
    &&& a.edges.len() <= b.edges.len()
    &&& a.stack.len() <= b.stack.len()
    &&& forall|k: int|
        0 <= k < b.queue.len() ==> if k < a.queue.len() {
            #[trigger] b.queue[k] == a.queue[k]
        } else {
            b.queue[k].2 == d
        }
    &&& forall|k: int|
        0 <= k < b.edges.len() ==> if k < a.edges.len() {
            #[trigger] b.edges[k] == a.edges[k]
        } else {
            b.edges[k].1 == d
        }
    &&& forall|k: int|
        0 <= k < b.stack.len() ==> if k < a.stack.len() {
            #[trigger] b.stack[k] == a.stack[k]
        } else {
            task_domain(b.stack[k]) == d
        }
}

proof fn lemma_adds_chain(a: Resolution, b: Resolution, c: Resolution, d: Domain)
    requires
        adds_only(a, b, d),
        adds_only(b, c, d),
    ensures
        adds_only(a, c, d),
{
    assert forall|k: int| 0 <= k < c.queue.len() implies if k < a.queue.len() {
        #[trigger] c.queue[k] == a.queue[k]
    } else {
        c.queue[k].2 == d
    } by {
        if k < b.queue.len() {
            assert(c.queue[k] == b.queue[k]);
        }
    }
    assert forall|k: int| 0 <= k < c.edges.len() implies if k < a.edges.len() {
        #[trigger] c.edges[k] == a.edges[k]
    } else {
        c.edges[k].1 == d
    } by {
        if k < b.edges.len() {
            assert(c.edges[k] == b.edges[k]);
        }
    }
    assert forall|k: int| 0 <= k < c.stack.len() implies if k < a.stack.len() {
        #[trigger] c.stack[k] == a.stack[k]
    } else {
        task_domain(c.stack[k]) == d
    } by {
        if k < b.stack.len() {
            assert(c.stack[k] == b.stack[k]);
        }
    }
}

proof fn lemma_expand_adds(m: RustModel, dev: bool, st: Resolution, i: int, d: Domain)
    ensures
        adds_only(st, expand(m, dev, st, i, d), d),
{
    let p = m.packages@[i];
    let r = expand(m, dev, st, i, d);
    lemma_plain_domain(m, i, EdgeKind::Normal, d, p.deps@.len() as int);
    lemma_plain_domain(m, i, EdgeKind::Build, d, p.build_deps@.len() as int);
    lemma_plain_domain(m, i, EdgeKind::Dev, d, p.dev_deps@.len() as int);
    let x = plain_of(m, dev, i, EdgeKind::Normal, d);
    let y = plain_of(m, dev, i, EdgeKind::Build, d);
    let z = plain_of(m, dev, i, EdgeKind::Dev, d);
    let n = st.edges.len() as int;
    assert forall|k: int| 0 <= k < r.edges.len() implies if k < n {
        #[trigger] r.edges[k] == st.edges[k]
    } else {
        r.edges[k].1 == d
    } by {
        if k < n {
        } else if k < n + x.len() {
            assert(r.edges[k] == x[k - n]);
        } else if k < n + x.len() + y.len() {
            assert(r.edges[k] == y[k - n - x.len()]);
        } else {
            assert(r.edges[k] == z[k - n - x.len() - y.len()]);
        }
    }
}

/// An activated edge asks of its own domain only: whatever comes to hold, is
/// queued or is to be activated because of it belongs there. So a build edge that
/// is activated for the host asks nothing of the target domain.
pub proof fn activations_stay_in_their_domain(
    m: RustModel,
    dev: bool,
    st: Resolution,
    e: Edge,
    d: Domain,
)
    requires
        activate(m, dev, st, e, d) is Ok,
    ensures
        adds_only(st, activate(m, dev, st, e, d)->Ok_0, d),
{
    let dep = dep_at(m.packages@, e);
    let marked = if dep.optional {
        Resolution { facts: st.facts.insert(Fact::Active(e, d)), ..st }
    } else {
        st
    };
    assert(adds_only(st, marked, d));
    if let Some(j) = find(m.packages@, dep.package@) {
        lemma_expand_adds(m, dev, marked, j, d);
        let reached = expand(m, dev, marked, j, d);
        let asked = ask_default(m, reached, j, d);
        assert(adds_only(reached, asked, d));
        lemma_adds_chain(st, marked, reached, d);
        lemma_adds_chain(st, reached, asked, d);
        let r = activate(m, dev, st, e, d)->Ok_0;
        if !(dep.optional && st.facts.contains(Fact::Active(e, d))) && !native(
            m,
            dep.package.name@,
        ) && !provisional(dep) {
            let before = if dep.default_features {
                asked
            } else {
                reached
            };
            assert(adds_only(before, r, d));
            lemma_adds_chain(st, before, r, d);
        }
    }
}

proof fn lemma_list_adds(m: RustModel, dev: bool, st: Resolution, i: int, f: Seq<char>, d: Domain)
    ensures
        adds_only(st, open_feature(m, dev, st, i, f, d), d),
        adds_only(st, list_name(m, dev, st, i, f, d), d),
{
    if !st.facts.contains(Fact::On(i, f, d)) {
        let on = Resolution { facts: st.facts.insert(Fact::On(i, f, d)), ..st };
        assert(adds_only(st, on, d));
        let reached = expand(m, dev, on, i, d);
        lemma_expand_adds(m, dev, on, i, d);
        lemma_adds_chain(st, on, reached, d);
        let r = open_feature(m, dev, st, i, f, d);
        assert(adds_only(reached, r, d));
        lemma_adds_chain(st, reached, r, d);
    }
}

/// A feature that is turned on for the host asks of the host domain only, and so
/// does each of its references: what is active for the host never leaks into the
/// target domain.
pub proof fn host_features_stay_in_the_host_domain(
    m: RustModel,
    dev: bool,
    st: Resolution,
    i: int,
    x: Seq<char>,
)
    requires
        0 <= i < m.packages@.len(),
    ensures
        turn_on(m, dev, st, i, x, Domain::Host) matches Ok(r) ==> adds_only(st, r, Domain::Host),
        follow(m, dev, st, i, x, Domain::Host) matches Ok(r) ==> adds_only(st, r, Domain::Host),
{
    let d = Domain::Host;
    lemma_list_adds(m, dev, st, i, x, d);
    if let Some((e, ed)) = named_edge(m, dev, i, x, d) {
        if activate(m, dev, st, e, ed) is Ok {
            let active = activate(m, dev, st, e, ed)->Ok_0;
            let name = dep_at(m.packages@, e).package.name@;
            activations_stay_in_their_domain(m, dev, st, e, ed);
            lemma_list_adds(m, dev, active, i, name, d);
            lemma_adds_chain(st, active, list_name(m, dev, active, i, name, d), d);
        }
    }
    let name = if strip_prefix_spec(x, "dep:"@) is Some {
        strip_prefix_spec(x, "dep:"@)->0
    } else {
        dep_reference(x).0
    };
    if let Some((e, ed)) = named_edge(m, dev, i, name, d) {
        if activate(m, dev, st, e, ed) is Ok {
            let active = activate(m, dev, st, e, ed)->Ok_0;
            let own = dep_at(m.packages@, e).package.name@;
            activations_stay_in_their_domain(m, dev, st, e, ed);
            lemma_list_adds(m, dev, active, i, own, d);
            let listed = list_name(m, dev, active, i, own, d);
            lemma_adds_chain(st, active, listed, d);
            if let Ok(r) = follow(m, dev, st, i, x, d) {
                if strip_prefix_spec(x, "dep:"@) is None && x.contains('/') {
                    let before = if !dep_reference(x).1 && dep_at(m.packages@, e).optional {
                        listed
                    } else {
                        active
                    };
                    assert(adds_only(before, r, d));
                    lemma_adds_chain(st, before, r, d);
                }
            }
        }
    }
}

} // verus!
