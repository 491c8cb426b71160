//! What holds of every feature resolution.

use vstd::prelude::*;
use crate::feature_reasons::{
    closed_bound, has_edge, has_feature, has_reference, has_request, nothing_is_on_without_a_reason,
    Bound,
};
use crate::features::{records, FeatureMap, FeatureRequest};
use crate::model::{Package, PackageIdView, ResolverVersion, RustModel};
use crate::resolution::{
    activate, activate_all, active_of, ask_default, asked, begun, dep_at, dep_list, dep_reference,
    edge_ok, expand, find, follow, host_edges, lemma_activate, lemma_begun, lemma_find,
    lemma_host_edges, lemma_named_edge, lemma_plain_edges, lemma_requested, lemma_step, list_name,
    named_edge, native, on_of, open_feature, plain, plain_edges, plain_of, provisional, requested,
    resolution, run, state_ok, step, takes_part, task_ok, turn_on, Domain, Edge, EdgeKind, Fact,
    Outcome, Resolution, Task,
};
use crate::text::{strip_prefix_spec, texts};

verus! {

/// Whether a feature asked of a package is on: a declared one itself, another
/// name by the optional dependency that goes by it.
pub open spec fn feature_done(
    m: RustModel,
    dev: bool,
    facts: Set<Fact>,
    i: int,
    f: Seq<char>,
    d: Domain,
) -> bool {
    if m.packages@[i].features@.contains_key(f) {
        facts.contains(Fact::On(i, f, d))
    } else {
        match named_edge(m, dev, i, f, d) {
            Some((e, ed)) => {
                let dep = dep_at(m.packages@, e);
                &&& dep.optional
                &&& facts.contains(Fact::Active(e, ed))
                &&& facts.contains(Fact::On(i, dep.package.name@, d))
            },
            None => false,
        }
    }
}

/// Whether a feature asked of a package is on, or will be looked at.
spec fn feature_met(m: RustModel, dev: bool, st: Resolution, i: int, f: Seq<char>, d: Domain) -> bool {
    ||| feature_done(m, dev, st.facts, i, f, d)
    ||| exists|id: PackageIdView| #[trigger]
        st.queue.contains((id, f, d)) && find(m.packages@, id) == Some(i)
    ||| st.stack.contains(Task::Feature { package: i, feature: f, domain: d })
}

/// Whether an edge's requests have reached the dependency.
spec fn edge_passed(m: RustModel, dev: bool, st: Resolution, e: Edge, d: Domain) -> bool {
    let dep = dep_at(m.packages@, e);
    native(m, dep.package.name@) || provisional(dep) || match find(m.packages@, dep.package@) {
        None => false,
        Some(j) => {
            &&& st.facts.contains(Fact::Expanded(j, d))
            &&& dep.default_features ==> st.facts.contains(Fact::Defaulted(j, d))
            &&& forall|k: int|
                0 <= k < dep.features@.len() ==> #[trigger] feature_met(
                    m,
                    dev,
                    st,
                    j,
                    dep.features@[k]@,
                    d,
                )
        },
    }
}

/// Whether an edge's requests have reached the dependency, or will be looked at.
spec fn edge_met(m: RustModel, dev: bool, st: Resolution, e: Edge, d: Domain) -> bool {
    st.edges.contains((e, d)) || edge_passed(m, dev, st, e, d)
}

/// Whether what a reference asks for has been asked for.
spec fn followed(m: RustModel, dev: bool, st: Resolution, i: int, x: Seq<char>, d: Domain) -> bool {
    if let Some(name) = strip_prefix_spec(x, "dep:"@) {
        match named_edge(m, dev, i, name, d) {
            None => false,
            Some((e, ed)) => dep_at(m.packages@, e).optional ==> st.facts.contains(
                Fact::Active(e, ed),
            ),
        }
    } else if !x.contains('/') {
        feature_met(m, dev, st, i, x, d)
    } else {
        let (name, weak, feature) = dep_reference(x);
        match named_edge(m, dev, i, name, d) {
            None => false,
            Some((e, ed)) => {
                let dep = dep_at(m.packages@, e);
                &&& dep.optional ==> st.facts.contains(Fact::Active(e, ed))
                &&& dep.optional && !weak ==> st.facts.contains(Fact::On(i, dep.package.name@, d))
                &&& !dep.optional ==> edge_passed(m, dev, st, e, ed)
                &&& provisional(dep) || match find(m.packages@, dep.package@) {
                    None => false,
                    Some(j) => feature_met(m, dev, st, j, feature, ed),
                }
            },
        }
    }
}

/// Whether a reference has been followed, or will be.
spec fn ref_met(m: RustModel, dev: bool, st: Resolution, i: int, f: Seq<char>, k: int, d: Domain) -> bool {
    ||| exists|next: int|
        next <= k && #[trigger] st.stack.contains(
            Task::Refs { package: i, feature: f, next, domain: d },
        )
    ||| followed(m, dev, st, i, m.packages@[i].features@[f]@[k]@, d)
}

/// Whether a feature's name is also that of a package that an optional edge
/// leads to: such a name is listed as on when the edge is activated.
pub open spec fn shadowed(p: Package, f: Seq<char>) -> bool {
    exists|kind: EdgeKind, k: int|
        #![trigger dep_list(p, kind)[k]]
        0 <= k < dep_list(p, kind).len() && dep_list(p, kind)[k].optional && dep_list(
            p,
            kind,
        )[k].package.name@ == f
}

/// What a fact brings with it.
spec fn duty(m: RustModel, dev: bool, st: Resolution, fact: Fact) -> bool {
    match fact {
        Fact::Expanded(i, d) => 0 <= i < m.packages@.len() && forall|kind: EdgeKind, k: int|
            takes_part(m.resolver, dev, kind, d) && edge_ok(m.packages@, (i, kind, k)) && plain(
                m,
                (i, kind, k),
            ) ==> #[trigger] edge_met(m, dev, st, (i, kind, k), d),
        Fact::Defaulted(i, d) => 0 <= i < m.packages@.len() && find(
            m.packages@,
            m.packages@[i].id@,
        ) == Some(i) && (m.packages@[i].has_default_feature ==> feature_met(m, dev, st, i, "default"@, d)),
        Fact::On(i, f, d) => {
            &&& 0 <= i < m.packages@.len()
            &&& m.packages@[i].features@.contains_key(f) || shadowed(m.packages@[i], f)
            &&& m.packages@[i].features@.contains_key(f) ==> st.facts.contains(
                Fact::Expanded(i, d),
            ) && forall|k: int|
                0 <= k < m.packages@[i].features@[f]@.len() ==> #[trigger] ref_met(
                    m,
                    dev,
                    st,
                    i,
                    f,
                    k,
                    d,
                )
        },
        Fact::Active(e, d) => edge_ok(m.packages@, e) && dep_at(m.packages@, e).optional
            && edge_passed(m, dev, st, e, d),
    }
}

/// Whether every fact's duty is met.
spec fn dutiful(m: RustModel, dev: bool, st: Resolution) -> bool {
    forall|fact: Fact| #[trigger] st.facts.contains(fact) ==> duty(m, dev, st, fact)
}

/// Whether what was pending in `a` is met in `b`.
spec fn keeps(m: RustModel, dev: bool, a: Resolution, b: Resolution) -> bool {
    &&& a.facts.subset_of(b.facts)
    &&& forall|id: PackageIdView, f: Seq<char>, d: Domain|
        #![trigger a.queue.contains((id, f, d))]
        a.queue.contains((id, f, d)) && find(m.packages@, id) is Some ==> feature_met(
            m,
            dev,
            b,
            find(m.packages@, id)->0,
            f,
            d,
        )
    &&& forall|i: int, f: Seq<char>, d: Domain|
        #![trigger a.stack.contains(Task::Feature { package: i, feature: f, domain: d })]
        a.stack.contains(Task::Feature { package: i, feature: f, domain: d }) ==> feature_met(
            m,
            dev,
            b,
            i,
            f,
            d,
        )
    &&& forall|e: Edge, d: Domain|
        #![trigger a.edges.contains((e, d))]
        a.edges.contains((e, d)) ==> edge_met(m, dev, b, e, d)
    &&& forall|i: int, f: Seq<char>, next: int, d: Domain, k: int|
        #![trigger a.stack.contains(Task::Refs { package: i, feature: f, next, domain: d }), ref_met(m, dev, b, i, f, k, d)]
        a.stack.contains(Task::Refs { package: i, feature: f, next, domain: d }) && next <= k
            < m.packages@[i].features@[f]@.len() ==> ref_met(m, dev, b, i, f, k, d)
}

proof fn lemma_feature_keeps(
    m: RustModel,
    dev: bool,
    a: Resolution,
    b: Resolution,
    i: int,
    f: Seq<char>,
    d: Domain,
)
    requires
        keeps(m, dev, a, b),
        feature_met(m, dev, a, i, f, d),
    ensures
        feature_met(m, dev, b, i, f, d),
{
    if !feature_done(m, dev, a.facts, i, f, d) {
        if !a.stack.contains(Task::Feature { package: i, feature: f, domain: d }) {
            let id = choose|id: PackageIdView| #[trigger]
                a.queue.contains((id, f, d)) && find(m.packages@, id) == Some(i);
            assert(a.queue.contains((id, f, d)));
        }
    }
}

proof fn lemma_passed_keeps(m: RustModel, dev: bool, a: Resolution, b: Resolution, e: Edge, d: Domain)
    requires
        keeps(m, dev, a, b),
        edge_passed(m, dev, a, e, d),
    ensures
        edge_passed(m, dev, b, e, d),
{
    let dep = dep_at(m.packages@, e);
    if !native(m, dep.package.name@) && !provisional(dep) {
        let j = find(m.packages@, dep.package@)->0;
        assert forall|k: int| 0 <= k < dep.features@.len() implies #[trigger] feature_met(
            m,
            dev,
            b,
            j,
            dep.features@[k]@,
            d,
        ) by {
            lemma_feature_keeps(m, dev, a, b, j, dep.features@[k]@, d);
        }
    }
}

proof fn lemma_edge_keeps(m: RustModel, dev: bool, a: Resolution, b: Resolution, e: Edge, d: Domain)
    requires
        keeps(m, dev, a, b),
        edge_met(m, dev, a, e, d),
    ensures
        edge_met(m, dev, b, e, d),
{
    if edge_passed(m, dev, a, e, d) {
        lemma_passed_keeps(m, dev, a, b, e, d);
    }
}

proof fn lemma_followed_keeps(
    m: RustModel,
    dev: bool,
    a: Resolution,
    b: Resolution,
    i: int,
    x: Seq<char>,
    d: Domain,
)
    requires
        keeps(m, dev, a, b),
        followed(m, dev, a, i, x, d),
    ensures
        followed(m, dev, b, i, x, d),
{
    if strip_prefix_spec(x, "dep:"@) is Some {
    } else if !x.contains('/') {
        lemma_feature_keeps(m, dev, a, b, i, x, d);
    } else {
        let (name, weak, feature) = dep_reference(x);
        let (e, ed) = named_edge(m, dev, i, name, d)->0;
        let dep = dep_at(m.packages@, e);
        if !dep.optional {
            lemma_passed_keeps(m, dev, a, b, e, ed);
        }
        if !provisional(dep) {
            lemma_feature_keeps(m, dev, a, b, find(m.packages@, dep.package@)->0, feature, ed);
        }
    }
}

proof fn lemma_ref_keeps(
    m: RustModel,
    dev: bool,
    a: Resolution,
    b: Resolution,
    i: int,
    f: Seq<char>,
    k: int,
    d: Domain,
)
    requires
        keeps(m, dev, a, b),
        0 <= k < m.packages@[i].features@[f]@.len(),
        ref_met(m, dev, a, i, f, k, d),
    ensures
        ref_met(m, dev, b, i, f, k, d),
{
    if followed(m, dev, a, i, m.packages@[i].features@[f]@[k]@, d) {
        lemma_followed_keeps(m, dev, a, b, i, m.packages@[i].features@[f]@[k]@, d);
    } else {
        let next = choose|next: int|
            next <= k && #[trigger] a.stack.contains(
                Task::Refs { package: i, feature: f, next, domain: d },
            );
        assert(a.stack.contains(Task::Refs { package: i, feature: f, next, domain: d }));
    }
}

proof fn lemma_duty_keeps(m: RustModel, dev: bool, a: Resolution, b: Resolution, fact: Fact)
    requires
        keeps(m, dev, a, b),
        duty(m, dev, a, fact),
    ensures
        duty(m, dev, b, fact),
{
    match fact {
        Fact::Expanded(i, d) => {
            assert forall|kind: EdgeKind, k: int|
                takes_part(m.resolver, dev, kind, d) && edge_ok(m.packages@, (i, kind, k)) && plain(
                    m,
                    (i, kind, k),
                ) implies #[trigger] edge_met(m, dev, b, (i, kind, k), d) by {
                assert(edge_met(m, dev, a, (i, kind, k), d));
                lemma_edge_keeps(m, dev, a, b, (i, kind, k), d);
            }
        },
        Fact::Defaulted(i, d) => {
            if m.packages@[i].has_default_feature {
                lemma_feature_keeps(m, dev, a, b, i, "default"@, d);
            }
        },
        Fact::On(i, f, d) => {
            if m.packages@[i].features@.contains_key(f) {
                assert forall|k: int|
                    0 <= k < m.packages@[i].features@[f]@.len() implies #[trigger] ref_met(
                    m,
                    dev,
                    b,
                    i,
                    f,
                    k,
                    d,
                ) by {
                    assert(ref_met(m, dev, a, i, f, k, d));
                    lemma_ref_keeps(m, dev, a, b, i, f, k, d);
                }
            }
        },
        Fact::Active(e, d) => {
            lemma_passed_keeps(m, dev, a, b, e, d);
        },
    }
}

/// Whether nothing is taken away from `a` in `b`.
spec fn grows(a: Resolution, b: Resolution) -> bool {
    &&& a.facts.subset_of(b.facts)
    &&& forall|x: (PackageIdView, Seq<char>, Domain)|
        #![trigger a.queue.contains(x)]
        #![trigger b.queue.contains(x)]
        a.queue.contains(x) ==> b.queue.contains(x)
    &&& forall|t: Task|
        #![trigger a.stack.contains(t)]
        #![trigger b.stack.contains(t)]
        a.stack.contains(t) ==> b.stack.contains(t)
    &&& forall|x: (Edge, Domain)|
        #![trigger a.edges.contains(x)]
        #![trigger b.edges.contains(x)]
        a.edges.contains(x) ==> b.edges.contains(x)
}

proof fn lemma_grows_keeps(m: RustModel, dev: bool, a: Resolution, b: Resolution)
    requires
        grows(a, b),
    ensures
        keeps(m, dev, a, b),
{
    assert forall|i: int, f: Seq<char>, next: int, d: Domain, k: int|
        #![trigger a.stack.contains(Task::Refs { package: i, feature: f, next, domain: d }), ref_met(m, dev, b, i, f, k, d)]
        a.stack.contains(Task::Refs { package: i, feature: f, next, domain: d }) && next <= k
            < m.packages@[i].features@[f]@.len() implies ref_met(m, dev, b, i, f, k, d) by {
        assert(b.stack.contains(Task::Refs { package: i, feature: f, next, domain: d }));
    }
    assert forall|id: PackageIdView, f: Seq<char>, d: Domain|
        #![trigger a.queue.contains((id, f, d))]
        a.queue.contains((id, f, d)) && find(m.packages@, id) is Some implies feature_met(
        m,
        dev,
        b,
        find(m.packages@, id)->0,
        f,
        d,
    ) by {
        assert(b.queue.contains((id, f, d)));
    }
}

/// Whether nothing is taken away and the duties of what is new are met.
spec fn fair(m: RustModel, dev: bool, a: Resolution, b: Resolution) -> bool {
    &&& grows(a, b)
    &&& forall|fact: Fact| #[trigger]
        b.facts.contains(fact) && !a.facts.contains(fact) ==> duty(m, dev, b, fact)
    &&& forall|x: (Edge, Domain)| #[trigger]
        b.edges.contains(x) ==> a.edges.contains(x) || plain(m, x.0)
}

/// Whether only plain edges are queued.
spec fn all_plain(m: RustModel, st: Resolution) -> bool {
    forall|x: (Edge, Domain)| #[trigger] st.edges.contains(x) ==> plain(m, x.0)
}

/// Duties of old facts stay met where what was pending is; those of new facts
/// are met where the change is fair.
proof fn lemma_new_duties(m: RustModel, dev: bool, st: Resolution, rest: Resolution, r: Resolution)
    requires
        dutiful(m, dev, st),
        all_plain(m, st),
        rest.facts == st.facts,
        forall|x: (Edge, Domain)| #[trigger] rest.edges.contains(x) ==> st.edges.contains(x),
        fair(m, dev, rest, r),
        keeps(m, dev, st, r),
    ensures
        dutiful(m, dev, r),
        all_plain(m, r),
{
    assert forall|fact: Fact| #[trigger] r.facts.contains(fact) implies duty(m, dev, r, fact) by {
        if st.facts.contains(fact) {
            lemma_duty_keeps(m, dev, st, r, fact);
        }
    }
}

proof fn lemma_fair_chain(m: RustModel, dev: bool, a: Resolution, b: Resolution, c: Resolution)
    requires
        fair(m, dev, a, b),
        fair(m, dev, b, c),
    ensures
        fair(m, dev, a, c),
{
    lemma_grows_keeps(m, dev, b, c);
    assert forall|fact: Fact| #[trigger]
        c.facts.contains(fact) && !a.facts.contains(fact) implies duty(m, dev, c, fact) by {
        if b.facts.contains(fact) {
            lemma_duty_keeps(m, dev, b, c, fact);
        }
    }
}

proof fn lemma_contains_add<A>(s: Seq<A>, t: Seq<A>, x: A)
    ensures
        (s + t).contains(x) <==> s.contains(x) || t.contains(x),
{
    if s.contains(x) {
        let k = choose|k: int| 0 <= k < s.len() && s[k] == x;
        assert((s + t)[k] == x);
    }
    if t.contains(x) {
        let k = choose|k: int| 0 <= k < t.len() && t[k] == x;
        assert((s + t)[s.len() + k] == x);
    }
    if (s + t).contains(x) {
        let k = choose|k: int| 0 <= k < (s + t).len() && (s + t)[k] == x;
        if k < s.len() {
            assert(s[k] == x);
        } else {
            assert(t[k - s.len()] == x);
        }
    }
}

proof fn lemma_contains_push<A>(s: Seq<A>, y: A, x: A)
    ensures
        s.push(y).contains(x) <==> s.contains(x) || x == y,
{
    assert(s.push(y) =~= s + seq![y]);
    lemma_contains_add(s, seq![y], x);
    if x == y {
        assert(seq![y][0] == x);
    }
}

proof fn lemma_plain_contains(m: RustModel, i: int, kind: EdgeKind, d: Domain, n: int, k: int)
    requires
        0 <= k < n,
        plain(m, (i, kind, k)),
    ensures
        plain_edges(m, i, kind, d, n).contains(((i, kind, k), d)),
    decreases n,
{
    let before = plain_edges(m, i, kind, d, n - 1);
    if k < n - 1 {
        lemma_plain_contains(m, i, kind, d, n - 1, k);
        lemma_contains_push(before, ((i, kind, n - 1), d), ((i, kind, k), d));
    } else {
        lemma_contains_push(before, ((i, kind, n - 1), d), ((i, kind, k), d));
    }
}

proof fn lemma_expand_fair(m: RustModel, dev: bool, st: Resolution, i: int, d: Domain)
    requires
        0 <= i < m.packages@.len(),
    ensures
        fair(m, dev, st, expand(m, dev, st, i, d)),
        expand(m, dev, st, i, d).facts.contains(Fact::Expanded(i, d)),
        expand(m, dev, st, i, d).stack == st.stack,
{
    let r = expand(m, dev, st, i, d);
    if r != st {
        let a = plain_of(m, dev, i, EdgeKind::Normal, d);
        let b = plain_of(m, dev, i, EdgeKind::Build, d);
        let c = plain_of(m, dev, i, EdgeKind::Dev, d);
        assert forall|x: (Edge, Domain)| true implies (#[trigger] r.edges.contains(x)
            <==> st.edges.contains(x) || a.contains(x) || b.contains(x) || c.contains(x)) by {
            lemma_contains_add(st.edges + a + b, c, x);
            lemma_contains_add(st.edges + a, b, x);
            lemma_contains_add(st.edges, a, x);
        }
        assert forall|kind: EdgeKind, k: int|
            takes_part(m.resolver, dev, kind, d) && edge_ok(m.packages@, (i, kind, k)) && plain(
                m,
                (i, kind, k),
            ) implies #[trigger] edge_met(m, dev, r, (i, kind, k), d) by {
            lemma_plain_contains(
                m,
                i,
                kind,
                d,
                dep_list(m.packages@[i], kind).len() as int,
                k,
            );
            assert(plain_of(m, dev, i, kind, d).contains(((i, kind, k), d)));
            assert(r.edges.contains(((i, kind, k), d)));
        }
        assert(duty(m, dev, r, Fact::Expanded(i, d)));
        let p = m.packages@[i];
        lemma_plain_edges(m, i, EdgeKind::Normal, d, p.deps@.len() as int);
        lemma_plain_edges(m, i, EdgeKind::Build, d, p.build_deps@.len() as int);
        lemma_plain_edges(m, i, EdgeKind::Dev, d, p.dev_deps@.len() as int);
    }
}

proof fn lemma_default_fair(m: RustModel, dev: bool, st: Resolution, i: int, d: Domain)
    requires
        0 <= i < m.packages@.len(),
        find(m.packages@, m.packages@[i].id@) == Some(i),
    ensures
        fair(m, dev, st, ask_default(m, st, i, d)),
        ask_default(m, st, i, d).facts.contains(Fact::Defaulted(i, d)),
        ask_default(m, st, i, d).stack == st.stack,
{
    let r = ask_default(m, st, i, d);
    if r != st {
        let x = (m.packages@[i].id@, "default"@, d);
        if m.packages@[i].has_default_feature {
            assert forall|y: (PackageIdView, Seq<char>, Domain)| true implies (
            #[trigger] r.queue.contains(y) <==> st.queue.contains(y) || y == x) by {
                lemma_contains_push(st.queue, x, y);
            }
            assert(r.queue.contains(x));
        }
        assert(duty(m, dev, r, Fact::Defaulted(i, d)));
    }
}

/// An activated edge has its requests passed on, or is one that was active.
proof fn lemma_activate_fair(m: RustModel, dev: bool, st: Resolution, e: Edge, d: Domain)
    requires
        edge_ok(m.packages@, e),
    ensures
        activate(m, dev, st, e, d) matches Ok(r) ==> {
            &&& fair(m, dev, st, r)
            &&& r.stack == st.stack
            &&& dep_at(m.packages@, e).optional ==> r.facts.contains(Fact::Active(e, d))
            &&& !dep_at(m.packages@, e).optional ==> edge_passed(m, dev, r, e, d)
        },
{
    let ps = m.packages@;
    let dep = dep_at(ps, e);
    let mark = Fact::Active(e, d);
    lemma_find(ps, dep.package@);
    if let Ok(r) = activate(m, dev, st, e, d) {
        if !(dep.optional && st.facts.contains(mark)) {
            let marked = if dep.optional {
                Resolution { facts: st.facts.insert(mark), ..st }
            } else {
                st
            };
            if native(m, dep.package.name@) || provisional(dep) {
                assert(edge_passed(m, dev, r, e, d));
            } else {
                let j = find(ps, dep.package@)->0;
                assert(find(ps, ps[j].id@) == Some(j));
                let reached = expand(m, dev, marked, j, d);
                let defaulted = if dep.default_features {
                    ask_default(m, reached, j, d)
                } else {
                    reached
                };
                lemma_expand_fair(m, dev, marked, j, d);
                lemma_default_fair(m, dev, reached, j, d);
                let more = asked(dep.package@, dep.features@, d);
                assert forall|x: (PackageIdView, Seq<char>, Domain)| true implies (
                #[trigger] r.queue.contains(x) <==> defaulted.queue.contains(x) || more.contains(
                    x,
                )) by {
                    lemma_contains_add(defaulted.queue, more, x);
                }
                assert forall|k: int| 0 <= k < dep.features@.len() implies #[trigger] feature_met(
                    m,
                    dev,
                    r,
                    j,
                    dep.features@[k]@,
                    d,
                ) by {
                    assert(more[k] == (dep.package@, dep.features@[k]@, d));
                    assert(more.contains((dep.package@, dep.features@[k]@, d)));
                    assert(r.queue.contains((dep.package@, dep.features@[k]@, d)));
                }
                assert(edge_passed(m, dev, r, e, d));
                assert(grows(defaulted, r));
                assert(fair(m, dev, defaulted, r));
                lemma_fair_chain(m, dev, marked, reached, defaulted);
                lemma_fair_chain(m, dev, marked, defaulted, r);
            }
            if dep.optional {
                assert(duty(m, dev, r, mark));
            }
            assert(fair(m, dev, st, r));
        }
    }
}

proof fn lemma_shadowed(m: RustModel, e: Edge)
    requires
        edge_ok(m.packages@, e),
        dep_at(m.packages@, e).optional,
    ensures
        shadowed(m.packages@[e.0], dep_at(m.packages@, e).package.name@),
{
    let p = m.packages@[e.0];
    assert(dep_list(p, e.1)[e.2].optional);
}

proof fn lemma_open_fair(m: RustModel, dev: bool, st: Resolution, i: int, f: Seq<char>, d: Domain)
    requires
        0 <= i < m.packages@.len(),
        m.packages@[i].features@.contains_key(f),
    ensures
        fair(m, dev, st, open_feature(m, dev, st, i, f, d)),
        open_feature(m, dev, st, i, f, d).facts.contains(Fact::On(i, f, d)),
{
    let r = open_feature(m, dev, st, i, f, d);
    if !st.facts.contains(Fact::On(i, f, d)) {
        let on = Resolution { facts: st.facts.insert(Fact::On(i, f, d)), ..st };
        let reached = expand(m, dev, on, i, d);
        lemma_expand_fair(m, dev, on, i, d);
        let t = Task::Refs { package: i, feature: f, next: 0, domain: d };
        assert forall|x: Task| true implies (#[trigger] r.stack.contains(x) <==> st.stack.contains(
            x,
        ) || x == t) by {
            lemma_contains_push(st.stack, t, x);
        }
        assert(grows(reached, r));
        assert(fair(m, dev, reached, r));
        lemma_fair_chain(m, dev, on, reached, r);
        assert(r.stack.contains(t));
        assert(duty(m, dev, r, Fact::On(i, f, d)));
        assert(fair(m, dev, st, r));
    }
}

proof fn lemma_list_fair(m: RustModel, dev: bool, st: Resolution, i: int, f: Seq<char>, d: Domain)
    requires
        0 <= i < m.packages@.len(),
        shadowed(m.packages@[i], f),
    ensures
        fair(m, dev, st, list_name(m, dev, st, i, f, d)),
        list_name(m, dev, st, i, f, d).facts.contains(Fact::On(i, f, d)),
{
    let r = list_name(m, dev, st, i, f, d);
    if m.packages@[i].features@.contains_key(f) {
        lemma_open_fair(m, dev, st, i, f, d);
    } else {
        assert(grows(st, r));
        assert(duty(m, dev, r, Fact::On(i, f, d)));
    }
}

proof fn lemma_turn_on_fair(m: RustModel, dev: bool, st: Resolution, i: int, f: Seq<char>, d: Domain)
    requires
        0 <= i < m.packages@.len(),
    ensures
        turn_on(m, dev, st, i, f, d) matches Ok(r) ==> fair(m, dev, st, r) && feature_done(
            m,
            dev,
            r.facts,
            i,
            f,
            d,
        ),
{
    let p = m.packages@[i];
    if let Ok(r) = turn_on(m, dev, st, i, f, d) {
        if p.features@.contains_key(f) {
            lemma_open_fair(m, dev, st, i, f, d);
        } else {
            lemma_named_edge(m, dev, i, f, d);
            let (e, ed) = named_edge(m, dev, i, f, d)->0;
            lemma_activate_fair(m, dev, st, e, ed);
            let active = activate(m, dev, st, e, ed)->Ok_0;
            lemma_shadowed(m, e);
            lemma_list_fair(m, dev, active, i, dep_at(m.packages@, e).package.name@, d);
            lemma_fair_chain(m, dev, st, active, r);
        }
    }
}

proof fn lemma_follow_fair(m: RustModel, dev: bool, st: Resolution, i: int, x: Seq<char>, d: Domain)
    requires
        0 <= i < m.packages@.len(),
    ensures
        follow(m, dev, st, i, x, d) matches Ok(r) ==> fair(m, dev, st, r) && followed(
            m,
            dev,
            r,
            i,
            x,
            d,
        ),
{
    if let Ok(r) = follow(m, dev, st, i, x, d) {
        if let Some(name) = strip_prefix_spec(x, "dep:"@) {
            lemma_named_edge(m, dev, i, name, d);
            let (e, ed) = named_edge(m, dev, i, name, d)->0;
            if dep_at(m.packages@, e).optional {
                lemma_activate_fair(m, dev, st, e, ed);
            }
        } else if !x.contains('/') {
            let t = Task::Feature { package: i, feature: x, domain: d };
            assert forall|y: Task| true implies (#[trigger] r.stack.contains(y)
                <==> st.stack.contains(y) || y == t) by {
                lemma_contains_push(st.stack, t, y);
            }
            assert(r.stack.contains(t));
        } else {
            let (name, weak, feature) = dep_reference(x);
            lemma_named_edge(m, dev, i, name, d);
            let (e, ed) = named_edge(m, dev, i, name, d)->0;
            let dep = dep_at(m.packages@, e);
            lemma_activate_fair(m, dev, st, e, ed);
            let active = activate(m, dev, st, e, ed)->Ok_0;
            let listed = if !weak && dep.optional {
                list_name(m, dev, active, i, dep.package.name@, d)
            } else {
                active
            };
            if !weak && dep.optional {
                lemma_shadowed(m, e);
                lemma_list_fair(m, dev, active, i, dep.package.name@, d);
            }
            assert(fair(m, dev, active, listed));
            lemma_fair_chain(m, dev, st, active, listed);
            if !provisional(dep) {
                let y = (dep.package@, feature, ed);
                assert forall|z: (PackageIdView, Seq<char>, Domain)| true implies (
                #[trigger] r.queue.contains(z) <==> listed.queue.contains(z) || z == y) by {
                    lemma_contains_push(listed.queue, y, z);
                }
                assert(r.queue.contains(y));
            }
            assert(grows(listed, r));
            assert(fair(m, dev, listed, r));
            lemma_fair_chain(m, dev, st, listed, r);
            if !dep.optional {
                assert(grows(active, r));
                lemma_grows_keeps(m, dev, active, r);
                lemma_passed_keeps(m, dev, active, r, e, ed);
            }
        }
    }
}

proof fn lemma_drop_last_contains<A>(s: Seq<A>, x: A)
    requires
        s.len() > 0,
    ensures
        s.contains(x) <==> s.drop_last().contains(x) || x == s.last(),
{
    assert(s =~= s.drop_last().push(s.last()));
    lemma_contains_push(s.drop_last(), s.last(), x);
}

/// A step meets what it takes, and the duties of what is new.
proof fn lemma_step_dutiful(m: RustModel, dev: bool, st: Resolution)
    requires
        state_ok(m, st),
        dutiful(m, dev, st),
        all_plain(m, st),
    ensures
        step(m, dev, st) matches Outcome::Running(r) ==> keeps(m, dev, st, r) && dutiful(m, dev, r)
            && all_plain(m, r),
{
    if let Outcome::Running(r) = step(m, dev, st) {
        assert forall|t: Task| st.stack.len() > 0 implies (#[trigger] st.stack.contains(t)
            <==> st.stack.drop_last().contains(t) || t == st.stack.last()) by {
            lemma_drop_last_contains(st.stack, t);
        }
        assert forall|x: (Edge, Domain)| st.edges.len() > 0 implies (#[trigger] st.edges.contains(x)
            <==> st.edges.drop_last().contains(x) || x == st.edges.last()) by {
            lemma_drop_last_contains(st.edges, x);
        }
        assert forall|x: (PackageIdView, Seq<char>, Domain)| st.queue.len() > 0 implies (
        #[trigger] st.queue.contains(x) <==> st.queue.drop_last().contains(x) || x
            == st.queue.last()) by {
            lemma_drop_last_contains(st.queue, x);
        }
        if st.stack.len() > 0 {
            let rest = Resolution { stack: st.stack.drop_last(), ..st };
            assert(task_ok(m, st.stack.last()));
            match st.stack.last() {
                Task::Feature { package, feature, domain } => {
                    lemma_turn_on_fair(m, dev, rest, package, feature, domain);
                    lemma_grows_keeps(m, dev, rest, r);
                    assert(keeps(m, dev, st, r));
                    lemma_new_duties(m, dev, st, rest, r);
                },
                Task::Refs { package, feature, next, domain } => {
                    let references = m.packages@[package].features@[feature]@;
                    if next < references.len() {
                        let t = Task::Refs { package, feature, next: next + 1, domain };
                        let later = Resolution { stack: rest.stack.push(t), ..rest };
                        assert forall|y: Task| true implies (#[trigger] later.stack.contains(y)
                            <==> rest.stack.contains(y) || y == t) by {
                            lemma_contains_push(rest.stack, t, y);
                        }
                        lemma_follow_fair(m, dev, later, package, references[next]@, domain);
                        lemma_grows_keeps(m, dev, later, r);
                        assert(later.stack.contains(t));
                        assert(r.stack.contains(t));
                        assert forall|i: int, f: Seq<char>, n: int, d: Domain, k: int|
                            #![trigger st.stack.contains(Task::Refs { package: i, feature: f, next: n, domain: d }), ref_met(m, dev, r, i, f, k, d)]
                            st.stack.contains(
                                Task::Refs { package: i, feature: f, next: n, domain: d },
                            ) && n <= k < m.packages@[i].features@[f]@.len() implies ref_met(
                            m,
                            dev,
                            r,
                            i,
                            f,
                            k,
                            d,
                        ) by {
                            let x = Task::Refs { package: i, feature: f, next: n, domain: d };
                            if rest.stack.contains(x) {
                                assert(later.stack.contains(x));
                                assert(r.stack.contains(x));
                            } else if k > next {
                                assert(r.stack.contains(t));
                            } else {
                                assert(followed(m, dev, r, i, references[next]@, d));
                            }
                        }
                        assert forall|i: int, f: Seq<char>, d: Domain|
                            #![trigger st.stack.contains(Task::Feature { package: i, feature: f, domain: d })]
                            st.stack.contains(
                                Task::Feature { package: i, feature: f, domain: d },
                            ) implies feature_met(m, dev, r, i, f, d) by {
                            assert(later.stack.contains(
                                Task::Feature { package: i, feature: f, domain: d },
                            ));
                        }
                        assert(keeps(m, dev, st, r));
                        lemma_new_duties(m, dev, st, later, r);
                    } else {
                        assert forall|i: int, f: Seq<char>, n: int, d: Domain, k: int|
                            #![trigger st.stack.contains(Task::Refs { package: i, feature: f, next: n, domain: d }), ref_met(m, dev, r, i, f, k, d)]
                            st.stack.contains(
                                Task::Refs { package: i, feature: f, next: n, domain: d },
                            ) && n <= k < m.packages@[i].features@[f]@.len() implies ref_met(
                            m,
                            dev,
                            r,
                            i,
                            f,
                            k,
                            d,
                        ) by {
                            let x = Task::Refs { package: i, feature: f, next: n, domain: d };
                            assert(r.stack.contains(x));
                        }
                        assert(keeps(m, dev, st, r));
                        assert(fair(m, dev, rest, r));
                        lemma_new_duties(m, dev, st, rest, r);
                    }
                },
            }
        } else if st.draining {
            if st.edges.len() > 0 {
                let (e, d) = st.edges.last();
                let rest = Resolution { edges: st.edges.drop_last(), ..st };
                assert(edge_ok(m.packages@, st.edges[st.edges.len() - 1].0));
                lemma_activate_fair(m, dev, rest, e, d);
                lemma_grows_keeps(m, dev, rest, r);
                assert(st.edges.contains((e, d)));
                assert(edge_met(m, dev, r, e, d));
                assert(keeps(m, dev, st, r));
                lemma_new_duties(m, dev, st, rest, r);
            } else {
                assert(grows(st, r));
                lemma_grows_keeps(m, dev, st, r);
                lemma_new_duties(m, dev, st, st, r);
            }
        } else if st.queue.len() > 0 {
            let (id, feature, domain) = st.queue.last();
            let i = find(m.packages@, id)->0;
            let t = Task::Feature { package: i, feature, domain };
            assert(r.stack[0] == t);
            assert(r.stack.contains(t));
            assert(feature_met(m, dev, r, i, feature, domain));
            assert forall|qid: PackageIdView, f: Seq<char>, d: Domain|
                #![trigger st.queue.contains((qid, f, d))]
                st.queue.contains((qid, f, d)) && find(
                    m.packages@,
                    qid,
                ) is Some implies feature_met(m, dev, r, find(m.packages@, qid)->0, f, d) by {
                if r.queue.contains((qid, f, d)) {
                } else {
                    assert((qid, f, d) == st.queue.last());
                }
            }
            assert forall|e: Edge, d: Domain|
                #![trigger st.edges.contains((e, d))]
                st.edges.contains((e, d)) implies edge_met(m, dev, r, e, d) by {
                assert(r.edges.contains((e, d)));
            }
            assert(keeps(m, dev, st, r));
            assert(fair(m, dev, Resolution { queue: st.queue.drop_last(), ..st }, r));
            lemma_new_duties(
                m,
                dev,
                st,
                Resolution { queue: st.queue.drop_last(), ..st },
                r,
            );
        } else {
            assert(grows(st, r));
            lemma_grows_keeps(m, dev, st, r);
            lemma_new_duties(m, dev, st, st, r);
        }
    }
}

/// Whether what a request asks for has been asked for.
spec fn request_met(m: RustModel, dev: bool, st: Resolution, request: FeatureRequest) -> bool {
    match find(m.packages@, request.package@) {
        None => false,
        Some(i) => {
            &&& st.facts.contains(Fact::Expanded(i, Domain::Target))
            &&& request.default_features ==> st.facts.contains(
                Fact::Defaulted(i, Domain::Target),
            )
            &&& forall|k: int|
                0 <= k < request.features@.len() ==> #[trigger] feature_met(
                    m,
                    dev,
                    st,
                    i,
                    request.features@[k]@,
                    Domain::Target,
                )
        },
    }
}

proof fn lemma_request_keeps(
    m: RustModel,
    dev: bool,
    a: Resolution,
    b: Resolution,
    request: FeatureRequest,
)
    requires
        keeps(m, dev, a, b),
        request_met(m, dev, a, request),
    ensures
        request_met(m, dev, b, request),
{
    if let Some(i) = find(m.packages@, request.package@) {
        assert forall|k: int| 0 <= k < request.features@.len() implies #[trigger] feature_met(
            m,
            dev,
            b,
            i,
            request.features@[k]@,
            Domain::Target,
        ) by {
            lemma_feature_keeps(m, dev, a, b, i, request.features@[k]@, Domain::Target);
        }
    }
}

/// Whether all duties are met, and the first `n` requests and host edges.
spec fn in_order(
    m: RustModel,
    dev: bool,
    requests: Seq<FeatureRequest>,
    hosts: Seq<(Edge, Domain)>,
    st: Resolution,
) -> bool {
    &&& state_ok(m, st)
    &&& dutiful(m, dev, st)
    &&& all_plain(m, st)
    &&& forall|k: int| 0 <= k < requests.len() ==> request_met(m, dev, st, #[trigger] requests[k])
    &&& forall|k: int|
        0 <= k < hosts.len() ==> edge_passed(m, dev, st, (#[trigger] hosts[k]).0, hosts[k].1)
}

proof fn lemma_requested_dutiful(m: RustModel, dev: bool, requests: Seq<FeatureRequest>, n: int)
    requires
        0 <= n <= requests.len(),
    ensures
        requested(m, dev, requests, n) matches Ok(st) ==> in_order(
            m,
            dev,
            requests.take(n),
            Seq::empty(),
            st,
        ),
    decreases n,
{
    lemma_requested(m, dev, requests, n);
    if n > 0 && requested(m, dev, requests, n) is Ok {
        let st = requested(m, dev, requests, n)->Ok_0;
        lemma_requested_dutiful(m, dev, requests, n - 1);
        let old_st = requested(m, dev, requests, n - 1)->Ok_0;
        let request = requests[n - 1];
        let id = request.package@;
        lemma_find(m.packages@, id);
        let i = find(m.packages@, id)->0;
        let e = expand(m, dev, old_st, i, Domain::Target);
        let reached = if request.default_features {
            ask_default(m, e, i, Domain::Target)
        } else {
            e
        };
        lemma_expand_fair(m, dev, old_st, i, Domain::Target);
        lemma_default_fair(m, dev, e, i, Domain::Target);
        lemma_fair_chain(m, dev, old_st, e, reached);
        let more = asked(id, request.features@, Domain::Target);
        assert forall|x: (PackageIdView, Seq<char>, Domain)| true implies (
        #[trigger] st.queue.contains(x) <==> reached.queue.contains(x) || more.contains(x)) by {
            lemma_contains_add(reached.queue, more, x);
        }
        assert(grows(reached, st));
        assert(fair(m, dev, reached, st));
        lemma_fair_chain(m, dev, old_st, reached, st);
        lemma_grows_keeps(m, dev, old_st, st);
        lemma_new_duties(m, dev, old_st, old_st, st);
        assert forall|k: int| 0 <= k < request.features@.len() implies #[trigger] feature_met(
            m,
            dev,
            st,
            i,
            request.features@[k]@,
            Domain::Target,
        ) by {
            assert(more[k] == (id, request.features@[k]@, Domain::Target));
            assert(more.contains((id, request.features@[k]@, Domain::Target)));
            assert(st.queue.contains((id, request.features@[k]@, Domain::Target)));
        }
        assert forall|k: int| 0 <= k < n implies request_met(
            m,
            dev,
            st,
            #[trigger] requests.take(n)[k],
        ) by {
            if k < n - 1 {
                assert(requests.take(n - 1)[k] == requests[k]);
                lemma_request_keeps(m, dev, old_st, st, requests[k]);
            }
        }
    }
}

proof fn lemma_invariant_keeps(
    m: RustModel,
    dev: bool,
    requests: Seq<FeatureRequest>,
    hosts: Seq<(Edge, Domain)>,
    a: Resolution,
    b: Resolution,
)
    requires
        in_order(m, dev, requests, hosts, a),
        keeps(m, dev, a, b),
        state_ok(m, b),
        dutiful(m, dev, b),
        all_plain(m, b),
    ensures
        in_order(m, dev, requests, hosts, b),
{
    assert forall|k: int| 0 <= k < requests.len() implies request_met(
        m,
        dev,
        b,
        #[trigger] requests[k],
    ) by {
        lemma_request_keeps(m, dev, a, b, requests[k]);
    }
    assert forall|k: int| 0 <= k < hosts.len() implies edge_passed(
        m,
        dev,
        b,
        (#[trigger] hosts[k]).0,
        hosts[k].1,
    ) by {
        lemma_passed_keeps(m, dev, a, b, hosts[k].0, hosts[k].1);
    }
}

proof fn lemma_activate_all_dutiful(
    m: RustModel,
    dev: bool,
    requests: Seq<FeatureRequest>,
    from: Resolution,
    edges: Seq<(Edge, Domain)>,
    n: int,
)
    requires
        in_order(m, dev, requests, Seq::empty(), from),
        0 <= n <= edges.len(),
        forall|k: int|
            0 <= k < edges.len() ==> edge_ok(m.packages@, (#[trigger] edges[k]).0) && plain(
                m,
                edges[k].0,
            ),
    ensures
        activate_all(m, dev, from, edges, n) matches Ok(r) ==> in_order(
            m,
            dev,
            requests,
            edges.take(n),
            r,
        ),
    decreases n,
{
    if n > 0 {
        lemma_activate_all_dutiful(m, dev, requests, from, edges, n - 1);
        if let Ok(st) = activate_all(m, dev, from, edges, n - 1) {
            let (e, d) = edges[n - 1];
            lemma_activate_fair(m, dev, st, e, d);
            lemma_activate(m, dev, st, e, d);
            if let Ok(r) = activate_all(m, dev, from, edges, n) {
                lemma_grows_keeps(m, dev, st, r);
                lemma_new_duties(m, dev, st, st, r);
                lemma_invariant_keeps(m, dev, requests, edges.take(n - 1), st, r);
                assert forall|k: int| 0 <= k < n implies edge_passed(
                    m,
                    dev,
                    r,
                    (#[trigger] edges.take(n)[k]).0,
                    edges.take(n)[k].1,
                ) by {
                    if k < n - 1 {
                        assert(edges.take(n - 1)[k] == edges[k]);
                    }
                }
            }
        }
    } else {
        assert(edges.take(0) =~= Seq::empty());
    }
}

/// The host edges that a resolution starts from: none but under resolver 3.
pub open spec fn host_seeds(m: RustModel) -> Seq<(Edge, Domain)> {
    if m.resolver == ResolverVersion::V3 {
        host_edges(m, m.packages@.len() as int)
    } else {
        Seq::empty()
    }
}

proof fn lemma_host_plain(m: RustModel, n: int)
    requires
        n <= m.packages@.len(),
    ensures
        forall|k: int|
            0 <= k < host_edges(m, n).len() ==> plain(m, (#[trigger] host_edges(m, n)[k]).0),
    decreases n,
{
    if n > 0 {
        lemma_host_plain(m, n - 1);
        let total = m.packages@[n - 1].build_deps@.len() as int;
        lemma_plain_edges(m, n - 1, EdgeKind::Build, Domain::Host, total);
        let mine = plain_edges(m, n - 1, EdgeKind::Build, Domain::Host, total);
        let before = host_edges(m, n - 1);
        assert forall|k: int| 0 <= k < host_edges(m, n).len() implies plain(
            m,
            (#[trigger] host_edges(m, n)[k]).0,
        ) by {
            if k < before.len() {
                assert(host_edges(m, n)[k] == before[k]);
            } else {
                assert(host_edges(m, n)[k] == mine[k - before.len()]);
            }
        }
    }
}

/// The invariant holds of every state of a resolution.
proof fn lemma_run_invariant(m: RustModel, dev: bool, requests: Seq<FeatureRequest>, n: nat)
    ensures
        match run(m, dev, begun(m, dev, requests), n) {
            Outcome::Running(st) => in_order(m, dev, requests, host_seeds(m), st),
            Outcome::Finished(st) => in_order(m, dev, requests, host_seeds(m), st)
                && st.queue.len() == 0 && st.edges.len() == 0 && st.stack.len() == 0,
            Outcome::Failed(_) => true,
        },
    decreases n,
{
    let from = begun(m, dev, requests);
    if n == 0 {
        lemma_requested_dutiful(m, dev, requests, requests.len() as int);
        assert(requests.take(requests.len() as int) =~= requests);
        lemma_host_edges(m, m.packages@.len() as int);
        lemma_host_plain(m, m.packages@.len() as int);
        let edges = host_edges(m, m.packages@.len() as int);
        if let Ok(st) = requested(m, dev, requests, requests.len() as int) {
            lemma_activate_all_dutiful(m, dev, requests, st, edges, edges.len() as int);
        }
        assert(edges.take(edges.len() as int) =~= edges);
    } else {
        lemma_run_invariant(m, dev, requests, (n - 1) as nat);
        if let Outcome::Running(st) = run(m, dev, from, (n - 1) as nat) {
            lemma_step(m, dev, st);
            lemma_step_dutiful(m, dev, st);
            if let Outcome::Running(r) = step(m, dev, st) {
                lemma_invariant_keeps(m, dev, requests, host_seeds(m), st, r);
            }
        }
    }
}

proof fn lemma_finished(m: RustModel, dev: bool, requests: Seq<FeatureRequest>) -> (st: Resolution)
    requires
        resolution(m, requests, dev) is Finished,
    ensures
        resolution(m, requests, dev) == Outcome::Finished(st),
        in_order(m, dev, requests, host_seeds(m), st),
        st.queue.len() == 0,
        st.edges.len() == 0,
        st.stack.len() == 0,
{
    let from = begun(m, dev, requests);
    let n = choose|n: nat| !(#[trigger] run(m, dev, from, n) is Running);
    lemma_run_invariant(m, dev, requests, n);
    resolution(m, requests, dev)->Finished_0
}

/// Whether an edge's requests hold of the dependency in a domain: it is reached,
/// its default feature is on unless the edge turns it off, and so are the
/// features that the edge lists. A native import and a placeholder take none.
pub open spec fn edge_settled(m: RustModel, dev: bool, facts: Set<Fact>, e: Edge, d: Domain) -> bool {
    let dep = dep_at(m.packages@, e);
    native(m, dep.package.name@) || provisional(dep) || match find(m.packages@, dep.package@) {
        None => false,
        Some(j) => {
            &&& facts.contains(Fact::Expanded(j, d))
            &&& dep.default_features && m.packages@[j].has_default_feature ==> feature_done(
                m,
                dev,
                facts,
                j,
                "default"@,
                d,
            )
            &&& forall|k: int|
                0 <= k < dep.features@.len() ==> #[trigger] feature_done(
                    m,
                    dev,
                    facts,
                    j,
                    dep.features@[k]@,
                    d,
                )
        },
    }
}

/// Whether what a reference asks for holds.
pub open spec fn reference_settled(
    m: RustModel,
    dev: bool,
    facts: Set<Fact>,
    i: int,
    x: Seq<char>,
    d: Domain,
) -> bool {
    if let Some(name) = strip_prefix_spec(x, "dep:"@) {
        match named_edge(m, dev, i, name, d) {
            None => false,
            Some((e, ed)) => dep_at(m.packages@, e).optional ==> facts.contains(
                Fact::Active(e, ed),
            ),
        }
    } else if !x.contains('/') {
        feature_done(m, dev, facts, i, x, d)
    } else {
        let (name, weak, feature) = dep_reference(x);
        match named_edge(m, dev, i, name, d) {
            None => false,
            Some((e, ed)) => {
                let dep = dep_at(m.packages@, e);
                &&& dep.optional ==> facts.contains(Fact::Active(e, ed))
                &&& dep.optional && !weak ==> facts.contains(Fact::On(i, dep.package.name@, d))
                &&& !dep.optional ==> edge_settled(m, dev, facts, e, ed)
                &&& provisional(dep) || match find(m.packages@, dep.package@) {
                    None => false,
                    Some(j) => feature_done(m, dev, facts, j, feature, ed),
                }
            },
        }
    }
}

proof fn lemma_passed_settled(m: RustModel, dev: bool, st: Resolution, e: Edge, d: Domain)
    requires
        dutiful(m, dev, st),
        st.queue.len() == 0,
        st.stack.len() == 0,
        edge_passed(m, dev, st, e, d),
    ensures
        edge_settled(m, dev, st.facts, e, d),
{
    let dep = dep_at(m.packages@, e);
    if !native(m, dep.package.name@) && !provisional(dep) {
        let j = find(m.packages@, dep.package@)->0;
        if dep.default_features {
            assert(duty(m, dev, st, Fact::Defaulted(j, d)));
        }
        assert forall|k: int| 0 <= k < dep.features@.len() implies #[trigger] feature_done(
            m,
            dev,
            st.facts,
            j,
            dep.features@[k]@,
            d,
        ) by {
            assert(feature_met(m, dev, st, j, dep.features@[k]@, d));
        }
    }
}

/// What is requested of a package is on: its default feature unless the request
/// turns it off, and every feature that the request lists.
pub proof fn requested_features_are_on(
    m: RustModel,
    requests: Seq<FeatureRequest>,
    dev: bool,
    st: Resolution,
    r: int,
    i: int,
)
    requires
        resolution(m, requests, dev) == Outcome::Finished(st),
        0 <= r < requests.len(),
        find(m.packages@, requests[r].package@) == Some(i),
    ensures
        st.facts.contains(Fact::Expanded(i, Domain::Target)),
        requests[r].default_features && m.packages@[i].has_default_feature ==> feature_done(
            m,
            dev,
            st.facts,
            i,
            "default"@,
            Domain::Target,
        ),
        forall|k: int|
            0 <= k < requests[r].features@.len() ==> #[trigger] feature_done(
                m,
                dev,
                st.facts,
                i,
                requests[r].features@[k]@,
                Domain::Target,
            ),
{
    let end = lemma_finished(m, dev, requests);
    assert(request_met(m, dev, st, requests[r]));
    if requests[r].default_features {
        assert(duty(m, dev, st, Fact::Defaulted(i, Domain::Target)));
    }
    assert forall|k: int| 0 <= k < requests[r].features@.len() implies #[trigger] feature_done(
        m,
        dev,
        st.facts,
        i,
        requests[r].features@[k]@,
        Domain::Target,
    ) by {
        assert(feature_met(m, dev, st, i, requests[r].features@[k]@, Domain::Target));
    }
}

/// A package that is reached in a domain passes the requests of its
/// non-optional edges there on to the dependencies: features unify over every
/// edge that leads to a package.
pub proof fn reached_packages_pass_their_requests_on(
    m: RustModel,
    requests: Seq<FeatureRequest>,
    dev: bool,
    st: Resolution,
    e: Edge,
    d: Domain,
)
    requires
        resolution(m, requests, dev) == Outcome::Finished(st),
        st.facts.contains(Fact::Expanded(e.0, d)),
        edge_ok(m.packages@, e),
        takes_part(m.resolver, dev, e.1, d),
        plain(m, e),
    ensures
        edge_settled(m, dev, st.facts, e, d),
{
    let end = lemma_finished(m, dev, requests);
    assert(duty(m, dev, st, Fact::Expanded(e.0, d)));
    assert(edge_met(m, dev, st, (e.0, e.1, e.2), d));
    lemma_passed_settled(m, dev, st, e, d);
}

/// Under resolver 3, the build dependencies of every package with a build
/// script are reached in the host domain.
pub proof fn build_scripts_reach_the_host_domain(
    m: RustModel,
    requests: Seq<FeatureRequest>,
    dev: bool,
    st: Resolution,
    k: int,
)
    requires
        resolution(m, requests, dev) == Outcome::Finished(st),
        0 <= k < host_seeds(m).len(),
    ensures
        edge_settled(m, dev, st.facts, host_seeds(m)[k].0, host_seeds(m)[k].1),
{
    let end = lemma_finished(m, dev, requests);
    lemma_passed_settled(m, dev, st, host_seeds(m)[k].0, host_seeds(m)[k].1);
}

/// A declared feature that is on has all its references followed.
pub proof fn references_of_active_features_hold(
    m: RustModel,
    requests: Seq<FeatureRequest>,
    dev: bool,
    st: Resolution,
    i: int,
    f: Seq<char>,
    d: Domain,
    k: int,
)
    requires
        resolution(m, requests, dev) == Outcome::Finished(st),
        st.facts.contains(Fact::On(i, f, d)),
        m.packages@[i].features@.contains_key(f),
        0 <= k < m.packages@[i].features@[f]@.len(),
    ensures
        reference_settled(m, dev, st.facts, i, m.packages@[i].features@[f]@[k]@, d),
{
    let end = lemma_finished(m, dev, requests);
    assert(duty(m, dev, st, Fact::On(i, f, d)));
    assert(ref_met(m, dev, st, i, f, k, d));
    let x = m.packages@[i].features@[f]@[k]@;
    assert(followed(m, dev, st, i, x, d));
    if strip_prefix_spec(x, "dep:"@) is None && x.contains('/') {
        let (name, weak, feature) = dep_reference(x);
        let (e, ed) = named_edge(m, dev, i, name, d)->0;
        if !dep_at(m.packages@, e).optional {
            lemma_passed_settled(m, dev, st, e, ed);
        }
    }
}

/// Nothing is on that a package does not declare, but for the names of packages
/// behind its optional edges.
pub proof fn active_features_are_known(
    m: RustModel,
    requests: Seq<FeatureRequest>,
    dev: bool,
    st: Resolution,
    i: int,
    f: Seq<char>,
    d: Domain,
)
    requires
        resolution(m, requests, dev) == Outcome::Finished(st),
        st.facts.contains(Fact::On(i, f, d)),
    ensures
        0 <= i < m.packages@.len(),
        m.packages@[i].features@.contains_key(f) || shadowed(m.packages@[i], f),
{
    let end = lemma_finished(m, dev, requests);
    assert(duty(m, dev, st, Fact::On(i, f, d)));
}

/// An active edge is an optional edge, and its requests have been passed on.
pub proof fn active_edges_are_optional_and_settled(
    m: RustModel,
    requests: Seq<FeatureRequest>,
    dev: bool,
    st: Resolution,
    e: Edge,
    d: Domain,
)
    requires
        resolution(m, requests, dev) == Outcome::Finished(st),
        st.facts.contains(Fact::Active(e, d)),
    ensures
        edge_ok(m.packages@, e),
        dep_at(m.packages@, e).optional,
        edge_settled(m, dev, st.facts, e, d),
{
    let end = lemma_finished(m, dev, requests);
    assert(duty(m, dev, st, Fact::Active(e, d)));
    lemma_passed_settled(m, dev, st, e, d);
}

/// The domain of a fact.
pub open spec fn fact_domain(fact: Fact) -> Domain {
    match fact {
        Fact::On(_, _, d) => d,
        Fact::Active(_, d) => d,
        Fact::Expanded(_, d) => d,
        Fact::Defaulted(_, d) => d,
    }
}

/// The domain of a task.
pub open spec fn task_domain(t: Task) -> Domain {
    match t {
        Task::Feature { domain, .. } => domain,
        Task::Refs { domain, .. } => domain,
    }
}

/// Whether a state has nothing to do with the host domain.
pub open spec fn target_only(st: Resolution) -> bool {
    &&& forall|fact: Fact| #[trigger] st.facts.contains(fact) ==> fact_domain(fact)
        == Domain::Target
    &&& forall|k: int| 0 <= k < st.queue.len() ==> (#[trigger] st.queue[k]).2 == Domain::Target
    &&& forall|k: int| 0 <= k < st.edges.len() ==> (#[trigger] st.edges[k]).1 == Domain::Target
    &&& forall|k: int|
        0 <= k < st.stack.len() ==> task_domain(#[trigger] st.stack[k]) == Domain::Target
}

/// Whether no dev edge is queued.
pub open spec fn no_dev_edges(st: Resolution) -> bool {
    forall|k: int| 0 <= k < st.edges.len() ==> (#[trigger] st.edges[k]).0.1 != EdgeKind::Dev
}

/// Whether a state keeps to the domains and the edges that its resolution has.
pub open spec fn at_home(m: RustModel, dev: bool, st: Resolution) -> bool {
    &&& m.resolver != ResolverVersion::V3 ==> target_only(st)
    &&& !dev && m.resolver != ResolverVersion::V1 ==> no_dev_edges(st)
}

proof fn lemma_expand_home(m: RustModel, dev: bool, st: Resolution, i: int, d: Domain)
    requires
        0 <= i < m.packages@.len(),
        at_home(m, dev, st),
        m.resolver != ResolverVersion::V3 ==> d == Domain::Target,
    ensures
        at_home(m, dev, expand(m, dev, st, i, d)),
{
    let p = m.packages@[i];
    lemma_plain_edges(m, i, EdgeKind::Normal, d, p.deps@.len() as int);
    lemma_plain_edges(m, i, EdgeKind::Build, d, p.build_deps@.len() as int);
    lemma_plain_edges(m, i, EdgeKind::Dev, d, p.dev_deps@.len() as int);
}

proof fn lemma_activate_home(m: RustModel, dev: bool, st: Resolution, e: Edge, d: Domain)
    requires
        at_home(m, dev, st),
        m.resolver != ResolverVersion::V3 ==> d == Domain::Target,
    ensures
        activate(m, dev, st, e, d) matches Ok(r) ==> at_home(m, dev, r),
{
    let ps = m.packages@;
    let dep = dep_at(ps, e);
    let mark = Fact::Active(e, d);
    lemma_find(ps, dep.package@);
    let marked = if dep.optional {
        Resolution { facts: st.facts.insert(mark), ..st }
    } else {
        st
    };
    assert(at_home(m, dev, marked));
    if let Some(j) = find(ps, dep.package@) {
        lemma_expand_home(m, dev, marked, j, d);
    }
}

proof fn lemma_named_home(m: RustModel, dev: bool, i: int, name: Seq<char>, d: Domain)
    ensures
        named_edge(m, dev, i, name, d) matches Some((e, ed)) ==> (m.resolver != ResolverVersion::V3
            ==> ed == d) && (!dev ==> e.1 != EdgeKind::Dev),
{
}

proof fn lemma_open_home(m: RustModel, dev: bool, st: Resolution, i: int, f: Seq<char>, d: Domain)
    requires
        0 <= i < m.packages@.len(),
        at_home(m, dev, st),
        m.resolver != ResolverVersion::V3 ==> d == Domain::Target,
    ensures
        at_home(m, dev, open_feature(m, dev, st, i, f, d)),
        at_home(m, dev, list_name(m, dev, st, i, f, d)),
{
    let on = Resolution { facts: st.facts.insert(Fact::On(i, f, d)), ..st };
    assert(at_home(m, dev, on));
    lemma_expand_home(m, dev, on, i, d);
}

proof fn lemma_step_home(m: RustModel, dev: bool, st: Resolution)
    requires
        state_ok(m, st),
        at_home(m, dev, st),
    ensures
        match step(m, dev, st) {
            Outcome::Running(r) => at_home(m, dev, r),
            Outcome::Finished(r) => at_home(m, dev, r),
            Outcome::Failed(_) => true,
        },
{
    if st.stack.len() > 0 {
        let rest = Resolution { stack: st.stack.drop_last(), ..st };
        assert(task_ok(m, st.stack.last()));
        assert(m.resolver != ResolverVersion::V3 ==> task_domain(st.stack[st.stack.len() - 1])
            == Domain::Target);
        assert(at_home(m, dev, rest));
        match st.stack.last() {
            Task::Feature { package, feature, domain } => {
                lemma_open_home(m, dev, rest, package, feature, domain);
                lemma_named_home(m, dev, package, feature, domain);
                if let Some((e, ed)) = named_edge(m, dev, package, feature, domain) {
                    lemma_activate_home(m, dev, rest, e, ed);
                    if let Ok(active) = activate(m, dev, rest, e, ed) {
                        lemma_open_home(
                            m,
                            dev,
                            active,
                            package,
                            dep_at(m.packages@, e).package.name@,
                            domain,
                        );
                    }
                }
            },
            Task::Refs { package, feature, next, domain } => {
                let references = m.packages@[package].features@[feature]@;
                if next < references.len() {
                    let t = Task::Refs { package, feature, next: next + 1, domain };
                    let later = Resolution { stack: rest.stack.push(t), ..rest };
                    assert(at_home(m, dev, later));
                    let x = references[next]@;
                    let name = if strip_prefix_spec(x, "dep:"@) is Some {
                        strip_prefix_spec(x, "dep:"@)->0
                    } else {
                        dep_reference(x).0
                    };
                    lemma_named_home(m, dev, package, name, domain);
                    if let Some((e, ed)) = named_edge(m, dev, package, name, domain) {
                        lemma_activate_home(m, dev, later, e, ed);
                        if let Ok(active) = activate(m, dev, later, e, ed) {
                            lemma_open_home(
                                m,
                                dev,
                                active,
                                package,
                                dep_at(m.packages@, e).package.name@,
                                domain,
                            );
                        }
                    }
                }
            },
        }
    } else if st.draining && st.edges.len() > 0 {
        let (e, d) = st.edges.last();
        assert(m.resolver != ResolverVersion::V3 ==> st.edges[st.edges.len() - 1].1
            == Domain::Target);
        let rest = Resolution { edges: st.edges.drop_last(), ..st };
        assert(at_home(m, dev, rest));
        lemma_activate_home(m, dev, rest, e, d);
    } else if !st.draining && st.queue.len() > 0 {
        assert(m.resolver != ResolverVersion::V3 ==> st.queue[st.queue.len() - 1].2
            == Domain::Target);
    }
}

proof fn lemma_requested_home(m: RustModel, dev: bool, requests: Seq<FeatureRequest>, n: int)
    requires
        0 <= n <= requests.len(),
    ensures
        requested(m, dev, requests, n) matches Ok(st) ==> at_home(m, dev, st),
    decreases n,
{
    if n > 0 {
        lemma_requested_home(m, dev, requests, n - 1);
        lemma_find(m.packages@, requests[n - 1].package@);
        if let Ok(st) = requested(m, dev, requests, n - 1) {
            if let Some(i) = find(m.packages@, requests[n - 1].package@) {
                lemma_expand_home(m, dev, st, i, Domain::Target);
            }
        }
    }
}

proof fn lemma_activate_all_home(
    m: RustModel,
    dev: bool,
    from: Resolution,
    edges: Seq<(Edge, Domain)>,
    n: int,
)
    requires
        m.resolver == ResolverVersion::V3,
        at_home(m, dev, from),
        0 <= n <= edges.len(),
    ensures
        activate_all(m, dev, from, edges, n) matches Ok(r) ==> at_home(m, dev, r),
    decreases n,
{
    if n > 0 {
        lemma_activate_all_home(m, dev, from, edges, n - 1);
        if let Ok(st) = activate_all(m, dev, from, edges, n - 1) {
            lemma_activate_home(m, dev, st, edges[n - 1].0, edges[n - 1].1);
        }
    }
}

proof fn lemma_run_home(m: RustModel, dev: bool, requests: Seq<FeatureRequest>, n: nat)
    ensures
        match run(m, dev, begun(m, dev, requests), n) {
            Outcome::Running(st) => state_ok(m, st) && at_home(m, dev, st),
            Outcome::Finished(st) => at_home(m, dev, st),
            Outcome::Failed(_) => true,
        },
    decreases n,
{
    let from = begun(m, dev, requests);
    if n == 0 {
        lemma_begun(m, dev, requests);
        lemma_requested_home(m, dev, requests, requests.len() as int);
        if m.resolver == ResolverVersion::V3 {
            let edges = host_edges(m, m.packages@.len() as int);
            if let Ok(st) = requested(m, dev, requests, requests.len() as int) {
                lemma_activate_all_home(m, dev, st, edges, edges.len() as int);
            }
        }
    } else {
        lemma_run_home(m, dev, requests, (n - 1) as nat);
        if let Outcome::Running(st) = run(m, dev, from, (n - 1) as nat) {
            lemma_step(m, dev, st);
            lemma_step_home(m, dev, st);
        }
    }
}

/// Under resolvers 1 and 2 there is no host domain: nothing is on, active or
/// reached there.
pub proof fn only_resolver_three_has_a_host_domain(
    m: RustModel,
    requests: Seq<FeatureRequest>,
    dev: bool,
    st: Resolution,
    fact: Fact,
)
    requires
        m.resolver != ResolverVersion::V3,
        resolution(m, requests, dev) == Outcome::Finished(st),
        st.facts.contains(fact),
    ensures
        fact_domain(fact) == Domain::Target,
{
    let from = begun(m, dev, requests);
    let n = choose|n: nat| !(#[trigger] run(m, dev, from, n) is Running);
    lemma_run_home(m, dev, requests, n);
}

/// A normal build leaves dev-dependencies out, but for resolver 1: at no step
/// is one of their edges queued, and no name leads to one.
pub proof fn normal_builds_leave_dev_edges_out(
    m: RustModel,
    requests: Seq<FeatureRequest>,
    n: nat,
    i: int,
    name: Seq<char>,
    d: Domain,
)
    requires
        m.resolver != ResolverVersion::V1,
    ensures
        run(m, false, begun(m, false, requests), n) matches Outcome::Running(st) ==> no_dev_edges(
            st,
        ),
        named_edge(m, false, i, name, d) matches Some((e, ed)) ==> e.1 != EdgeKind::Dev,
{
    lemma_run_home(m, false, requests, n);
}

/// Under resolvers 1 and 2 every package has the same features for the host as
/// for the target.
pub proof fn domains_are_unified_without_a_host_domain(
    map: FeatureMap,
    m: RustModel,
    facts: Set<Fact>,
    id: PackageIdView,
)
    requires
        m.resolver != ResolverVersion::V3,
        records(map, m, facts),
    ensures
        map.features_of(id, true) == map.features_of(id, false),
{
}

/// The host features of a map are empty sets under resolvers 1 and 2.
pub proof fn host_features_are_empty_without_a_host_domain(
    map: FeatureMap,
    m: RustModel,
    requests: Seq<FeatureRequest>,
    dev: bool,
    st: Resolution,
    id: PackageIdView,
)
    requires
        m.resolver != ResolverVersion::V3,
        resolution(m, requests, dev) == Outcome::Finished(st),
        records(map, m, st.facts),
        find(m.packages@, id) is Some,
    ensures
        map.build_features@.contains_key(id),
        map.build_features@[id] == Set::<Seq<char>>::empty(),
        !map.active_build_optional_deps@.contains_key(id),
{
    let i = find(m.packages@, id)->0;
    assert forall|f: Seq<char>| !st.facts.contains(Fact::On(i, f, Domain::Host)) by {
        if st.facts.contains(Fact::On(i, f, Domain::Host)) {
            only_resolver_three_has_a_host_domain(
                m,
                requests,
                dev,
                st,
                Fact::On(i, f, Domain::Host),
            );
        }
    }
    assert forall|e: Edge| !st.facts.contains(Fact::Active(e, Domain::Host)) by {
        if st.facts.contains(Fact::Active(e, Domain::Host)) {
            only_resolver_three_has_a_host_domain(
                m,
                requests,
                dev,
                st,
                Fact::Active(e, Domain::Host),
            );
        }
    }
    assert(on_of(st.facts, i, Domain::Host) =~= Set::<Seq<char>>::empty());
    assert(active_of(m, st.facts, i, Domain::Host) =~= Set::<Seq<char>>::empty());
}

// ---- Features unify ----------------------------------------------------------------------

/// What a finished resolution has come to, as a bound.
spec fn settled_bound(m: RustModel, dev: bool, st: Resolution) -> Bound {
    Bound {
        facts: st.facts,
        asked: Set::new(
            |x: (int, Seq<char>, Domain)| feature_done(m, dev, st.facts, x.0, x.1, x.2),
        ),
        edges: Set::new(
            |x: (Edge, Domain)|
                edge_passed(m, dev, st, x.0, x.1) && (dep_at(m.packages@, x.0).optional
                    ==> st.facts.contains(Fact::Active(x.0, x.1))),
        ),
    }
}

proof fn lemma_settled_edge(m: RustModel, dev: bool, st: Resolution, e: Edge, d: Domain)
    requires
        dutiful(m, dev, st),
        dep_at(m.packages@, e).optional ==> st.facts.contains(Fact::Active(e, d)),
        !dep_at(m.packages@, e).optional ==> edge_passed(m, dev, st, e, d),
    ensures
        settled_bound(m, dev, st).edges.contains((e, d)),
{
    if dep_at(m.packages@, e).optional {
        assert(duty(m, dev, st, Fact::Active(e, d)));
    }
}

proof fn lemma_settled_feature(
    m: RustModel,
    dev: bool,
    st: Resolution,
    i: int,
    f: Seq<char>,
    d: Domain,
)
    requires
        dutiful(m, dev, st),
        st.queue.len() == 0,
        st.stack.len() == 0,
        0 <= i < m.packages@.len(),
        feature_done(m, dev, st.facts, i, f, d),
    ensures
        has_feature(m, dev, settled_bound(m, dev, st), i, f, d),
{
    let b = settled_bound(m, dev, st);
    let p = m.packages@[i];
    if p.features@.contains_key(f) {
        assert(duty(m, dev, st, Fact::On(i, f, d)));
        assert forall|k: int| 0 <= k < p.features@[f]@.len() implies has_reference(
            m,
            dev,
            b,
            i,
            (#[trigger] p.features@[f]@[k])@,
            d,
        ) by {
            assert(ref_met(m, dev, st, i, f, k, d));
            let x = p.features@[f]@[k]@;
            assert(followed(m, dev, st, i, x, d));
            if let Some(name) = strip_prefix_spec(x, "dep:"@) {
                let (e, ed) = named_edge(m, dev, i, name, d)->0;
                if dep_at(m.packages@, e).optional {
                    lemma_settled_edge(m, dev, st, e, ed);
                }
            } else if !x.contains('/') {
                assert(feature_met(m, dev, st, i, x, d));
            } else {
                let (name, weak, feature) = dep_reference(x);
                let (e, ed) = named_edge(m, dev, i, name, d)->0;
                lemma_settled_edge(m, dev, st, e, ed);
            }
        }
    } else {
        let (e, ed) = named_edge(m, dev, i, f, d)->0;
        lemma_settled_edge(m, dev, st, e, ed);
    }
}

/// What a finished resolution has come to is closed.
proof fn lemma_settled_closed(m: RustModel, dev: bool, requests: Seq<FeatureRequest>, st: Resolution)
    requires
        in_order(m, dev, requests, host_seeds(m), st),
        st.queue.len() == 0,
        st.edges.len() == 0,
        st.stack.len() == 0,
    ensures
        closed_bound(m, dev, requests, settled_bound(m, dev, st)),
{
    let b = settled_bound(m, dev, st);
    assert forall|k: int| 0 <= k < requests.len() implies has_request(
        m,
        b,
        #[trigger] requests[k],
    ) by {
        assert(request_met(m, dev, st, requests[k]));
        let i = find(m.packages@, requests[k].package@)->0;
        assert forall|j: int| 0 <= j < requests[k].features@.len() implies b.asked.contains(
            (i, (#[trigger] requests[k].features@[j])@, Domain::Target),
        ) by {
            assert(feature_met(m, dev, st, i, requests[k].features@[j]@, Domain::Target));
        }
    }
    if m.resolver == ResolverVersion::V3 {
        lemma_host_plain(m, m.packages@.len() as int);
        let hosts = host_edges(m, m.packages@.len() as int);
        assert forall|k: int| 0 <= k < hosts.len() implies b.edges.contains(#[trigger] hosts[k]) by {
            assert(edge_passed(m, dev, st, host_seeds(m)[k].0, host_seeds(m)[k].1));
            assert(plain(m, hosts[k].0));
            lemma_settled_edge(m, dev, st, hosts[k].0, hosts[k].1);
        }
    }
    assert forall|i: int, d: Domain, kind: EdgeKind, k: int|
        0 <= i < m.packages@.len() && b.facts.contains(Fact::Expanded(i, d)) && takes_part(
            m.resolver,
            dev,
            kind,
            d,
        ) && 0 <= k < dep_list(m.packages@[i], kind).len() && plain(
            m,
            (i, kind, k),
        ) implies #[trigger] b.edges.contains(((i, kind, k), d)) by {
        assert(duty(m, dev, st, Fact::Expanded(i, d)));
        assert(edge_met(m, dev, st, (i, kind, k), d));
        lemma_settled_edge(m, dev, st, (i, kind, k), d);
    }
    assert forall|i: int, d: Domain|
        0 <= i < m.packages@.len() && #[trigger] b.facts.contains(Fact::Defaulted(i, d))
            && m.packages@[i].has_default_feature implies b.asked.contains(
        (find(m.packages@, m.packages@[i].id@)->0, "default"@, d),
    ) by {
        assert(duty(m, dev, st, Fact::Defaulted(i, d)));
        assert(feature_met(m, dev, st, i, "default"@, d));
    }
    assert forall|e: Edge, d: Domain|
        edge_ok(m.packages@, e) && #[trigger] b.edges.contains((e, d)) implies has_edge(
        m,
        b,
        e,
        d,
    ) by {
        let dep = dep_at(m.packages@, e);
        if !native(m, dep.package.name@) && !provisional(dep) {
            let j = find(m.packages@, dep.package@)->0;
            assert forall|k: int| 0 <= k < dep.features@.len() implies b.asked.contains(
                (j, (#[trigger] dep.features@[k])@, d),
            ) by {
                assert(feature_met(m, dev, st, j, dep.features@[k]@, d));
            }
        }
    }
    assert forall|i: int, f: Seq<char>, d: Domain|
        0 <= i < m.packages@.len() && #[trigger] b.asked.contains((i, f, d)) implies has_feature(
        m,
        dev,
        b,
        i,
        f,
        d,
    ) by {
        lemma_settled_feature(m, dev, st, i, f, d);
    }
}

/// Whether a request asks for all that another does.
pub open spec fn covers(more: FeatureRequest, less: FeatureRequest) -> bool {
    &&& more.package@ == less.package@
    &&& less.default_features ==> more.default_features
    &&& forall|k: int|
        0 <= k < less.features@.len() ==> texts(more.features@).contains(
            (#[trigger] less.features@[k])@,
        )
}

/// Whether requests ask for all that others do, in whatever order.
pub open spec fn all_covered(more: Seq<FeatureRequest>, less: Seq<FeatureRequest>) -> bool {
    forall|k: int|
        0 <= k < less.len() ==> exists|j: int|
            0 <= j < more.len() && covers(#[trigger] more[j], #[trigger] less[k])
}

/// More requests never lose anything: features unify, so whatever is on, active
/// or reached for some requests is so for requests that ask for all that these do.
pub proof fn more_requests_lose_nothing(
    m: RustModel,
    less: Seq<FeatureRequest>,
    more: Seq<FeatureRequest>,
    dev: bool,
    a: Resolution,
    b: Resolution,
)
    requires
        resolution(m, less, dev) == Outcome::Finished(a),
        resolution(m, more, dev) == Outcome::Finished(b),
        all_covered(more, less),
    ensures
        a.facts.subset_of(b.facts),
{
    let end = lemma_finished(m, dev, more);
    let bound = settled_bound(m, dev, b);
    lemma_settled_closed(m, dev, more, b);
    assert forall|k: int| 0 <= k < less.len() implies has_request(m, bound, #[trigger] less[k]) by {
        let j = choose|j: int| 0 <= j < more.len() && covers(#[trigger] more[j], less[k]);
        assert(has_request(m, bound, more[j]));
        let i = find(m.packages@, less[k].package@)->0;
        assert forall|z: int| 0 <= z < less[k].features@.len() implies bound.asked.contains(
            (i, (#[trigger] less[k].features@[z])@, Domain::Target),
        ) by {
            let t = texts(more[j].features@);
            let y = choose|y: int| 0 <= y < t.len() && t[y] == less[k].features@[z]@;
            assert(more[j].features@[y]@ == less[k].features@[z]@);
        }
    }
    assert(closed_bound(m, dev, less, bound));
    nothing_is_on_without_a_reason(m, less, dev, a, bound);
}

/// Features on for some requests are on for more of them, and so it is with active
/// edges, in either domain.
pub proof fn feature_maps_grow_with_requests(
    m: RustModel,
    less: Seq<FeatureRequest>,
    more: Seq<FeatureRequest>,
    dev: bool,
    st: Resolution,
    then: Resolution,
    a: FeatureMap,
    b: FeatureMap,
    id: PackageIdView,
)
    requires
        resolution(m, less, dev) == Outcome::Finished(st),
        resolution(m, more, dev) == Outcome::Finished(then),
        all_covered(more, less),
        records(a, m, st.facts),
        records(b, m, then.facts),
    ensures
        a.packages@.contains_key(id) ==> b.packages@.contains_key(id) && a.packages@[id].subset_of(
            b.packages@[id],
        ),
        a.active_optional_deps@.contains_key(id) ==> b.active_optional_deps@.contains_key(id)
            && a.active_optional_deps@[id].subset_of(b.active_optional_deps@[id]),
        a.build_features@.contains_key(id) ==> b.build_features@.contains_key(id)
            && a.build_features@[id].subset_of(b.build_features@[id]),
        a.active_build_optional_deps@.contains_key(id) ==> b.active_build_optional_deps@.contains_key(
            id,
        ) && a.active_build_optional_deps@[id].subset_of(b.active_build_optional_deps@[id]),
{
    more_requests_lose_nothing(m, less, more, dev, st, then);
    if find(m.packages@, id) is Some {
        let i = find(m.packages@, id)->0;
        lemma_active_grows(m, st.facts, then.facts, i, Domain::Target);
        lemma_active_grows(m, st.facts, then.facts, i, Domain::Host);
    }
}

proof fn lemma_active_grows(m: RustModel, a: Set<Fact>, b: Set<Fact>, i: int, d: Domain)
    requires
        a.subset_of(b),
    ensures
        active_of(m, a, i, d).subset_of(active_of(m, b, i, d)),
        active_of(m, a, i, d) != Set::<Seq<char>>::empty() ==> active_of(m, b, i, d) != Set::<
            Seq<char>,
        >::empty(),
{
    let x = active_of(m, a, i, d);
    let y = active_of(m, b, i, d);
    assert forall|f: Seq<char>| x.contains(f) implies y.contains(f) by {
        let e = choose|e: Edge|
            #![trigger a.contains(Fact::Active(e, d))]
            a.contains(Fact::Active(e, d)) && e.0 == i && dep_at(m.packages@, e).extern_name@
                == f;
        assert(b.contains(Fact::Active(e, d)));
    }
    if y == Set::<Seq<char>>::empty() {
        assert(x =~= Set::<Seq<char>>::empty());
    }
}

/// The order of requests, and asking twice, make no difference to what is on.
pub proof fn equal_requests_come_to_the_same(
    m: RustModel,
    one: Seq<FeatureRequest>,
    other: Seq<FeatureRequest>,
    dev: bool,
    st: Resolution,
    then: Resolution,
    a: FeatureMap,
    b: FeatureMap,
)
    requires
        resolution(m, one, dev) == Outcome::Finished(st),
        resolution(m, other, dev) == Outcome::Finished(then),
        all_covered(one, other),
        all_covered(other, one),
        records(a, m, st.facts),
        records(b, m, then.facts),
    ensures
        a.packages@ == b.packages@,
        a.active_optional_deps@ == b.active_optional_deps@,
        a.build_features@ == b.build_features@,
        a.active_build_optional_deps@ == b.active_build_optional_deps@,
        a.host_domain == b.host_domain,
{
    more_requests_lose_nothing(m, one, other, dev, st, then);
    more_requests_lose_nothing(m, other, one, dev, then, st);
    assert(st.facts =~= then.facts);
}

} // verus!
