//! What a feature resolution comes to, step by step.

use vstd::prelude::*;
use crate::features::{FeatureFault, FeatureRequest};
use crate::model::{
    sanitized, Dep, Package, PackageIdView, ResolverVersion, RustModel, SourceView,
};
use crate::text::{split_once_spec, strip_prefix_spec, strip_suffix_spec};

verus! {

/// The feature domain an activation lands in.
#[derive(Clone, Copy, PartialEq, Eq, Structural, PartialOrd, Ord, Debug)]
pub enum Domain {
    /// Normal (and dev, when included) dependencies.
    Target,
    /// Build-dependencies (resolver 3 only).
    Host,
}

/// The list of a package that an edge stands in.
#[derive(Clone, Copy, PartialEq, Eq, Structural, Debug)]
pub enum EdgeKind {
    /// Normal dependencies.
    Normal,
    /// Build dependencies.
    Build,
    /// Dev dependencies.
    Dev,
}

/// An edge: the position of its package, its list, and its position there.
pub type Edge = (int, EdgeKind, int);

/// Something that has come to hold.
pub enum Fact {
    /// A feature of a package is on.
    On(int, Seq<char>, Domain),
    /// An optional edge is active.
    Active(Edge, Domain),
    /// A package's non-optional edges are activated, or queued for it.
    Expanded(int, Domain),
    /// A package's default feature has been asked for.
    Defaulted(int, Domain),
}

/// Work on one feature.
pub enum Task {
    /// Turn a feature of a package on.
    Feature { package: int, feature: Seq<char>, domain: Domain },
    /// Follow a feature's references from the one at `next` on.
    Refs { package: int, feature: Seq<char>, next: int, domain: Domain },
}

/// The state of a resolution.
pub struct Resolution {
    /// What holds so far.
    pub facts: Set<Fact>,
    /// Features to turn on, the last one first.
    pub queue: Seq<(PackageIdView, Seq<char>, Domain)>,
    /// Edges to activate, the last one first.
    pub edges: Seq<(Edge, Domain)>,
    /// Work on the feature at hand, the last task first.
    pub stack: Seq<Task>,
    /// Whether edges are being taken; else features are.
    pub draining: bool,
}

/// What a resolution has come to.
pub enum Outcome {
    /// There is work left.
    Running(Resolution),
    /// All work is done.
    Finished(Resolution),
    /// It failed.
    Failed(FeatureFault),
}

/// The position of the package with this identity (the last one where several
/// have it).
pub open spec fn find(ps: Seq<Package>, id: PackageIdView) -> Option<int>
    decreases ps.len(),
{
    if ps.len() == 0 {
        None
    } else if ps.last().id@ == id {
        Some(ps.len() - 1)
    } else {
        find(ps.drop_last(), id)
    }
}

/// A list of a package's edges.
pub open spec fn dep_list(p: Package, kind: EdgeKind) -> Seq<Dep> {
    match kind {
        EdgeKind::Normal => p.deps@,
        EdgeKind::Build => p.build_deps@,
        EdgeKind::Dev => p.dev_deps@,
    }
}

/// Whether there is such an edge.
pub open spec fn edge_ok(ps: Seq<Package>, e: Edge) -> bool {
    0 <= e.0 < ps.len() && 0 <= e.2 < dep_list(ps[e.0], e.1).len()
}

/// The dependency of an edge.
pub open spec fn dep_at(ps: Seq<Package>, e: Edge) -> Dep {
    dep_list(ps[e.0], e.1)[e.2]
}

/// Whether a name is that of a native import; these are no feature-bearing
/// crates.
pub open spec fn native(m: RustModel, name: Seq<char>) -> bool {
    exists|k: int| 0 <= k < m.cc_imports@.len() && (#[trigger] m.cc_imports@[k]).name@ == name
}

/// Whether a dependency's identity is a placeholder, its version not yet
/// resolved by the registry.
pub open spec fn provisional(dep: Dep) -> bool {
    dep.package@.source == SourceView::Registry(Seq::empty())
}

/// Whether a dependency goes by this name: hyphens and underscores count as the
/// same, in the declared name and in the extern name.
pub open spec fn goes_by(dep: Dep, name: Seq<char>) -> bool {
    sanitized(dep.extern_name@) == sanitized(name) || sanitized(dep.package.name@) == sanitized(
        name,
    )
}

/// The first edge in a list, from a position on, that goes by this name.
pub open spec fn first_named(deps: Seq<Dep>, name: Seq<char>, from: int) -> Option<int>
    decreases deps.len() - from,
{
    if from < 0 || from >= deps.len() {
        None
    } else if goes_by(deps[from], name) {
        Some(from)
    } else {
        first_named(deps, name, from + 1)
    }
}

/// The edge of a package that goes by this name, and the domain that a feature on
/// in `d` activates it in: normal edges come first, then build edges, then dev
/// edges where they are included. An edge belongs to the feature's own domain,
/// but resolver 3 compiles what build edges lead to for the host.
pub open spec fn named_edge(m: RustModel, dev: bool, i: int, name: Seq<char>, d: Domain) -> Option<
    (Edge, Domain),
> {
    let p = m.packages@[i];
    if let Some(k) = first_named(p.deps@, name, 0) {
        Some(((i, EdgeKind::Normal, k), d))
    } else if let Some(k) = first_named(p.build_deps@, name, 0) {
        Some(
            (
                (i, EdgeKind::Build, k),
                if m.resolver == ResolverVersion::V3 {
                    Domain::Host
                } else {
                    d
                },
            ),
        )
    } else if dev {
        match first_named(p.dev_deps@, name, 0) {
            Some(k) => Some(((i, EdgeKind::Dev, k), d)),
            None => None,
        }
    } else {
        None
    }
}

/// Whether a list of edges takes part in a domain:
///
/// - Resolver 1: normal, build and dev (unified).
/// - Resolver 2: normal and build (and dev when included).
/// - Resolver 3, target: normal (and dev when included); host: normal and build
///   (a host crate's normal deps compile for the host too).
pub open spec fn takes_part(
    resolver: ResolverVersion,
    dev: bool,
    kind: EdgeKind,
    domain: Domain,
) -> bool {
    match (kind, domain) {
        (EdgeKind::Normal, Domain::Target) => true,
        (EdgeKind::Build, Domain::Target) => resolver != ResolverVersion::V3,
        (EdgeKind::Dev, Domain::Target) => dev || resolver == ResolverVersion::V1,
        (EdgeKind::Normal, Domain::Host) => resolver == ResolverVersion::V3,
        (EdgeKind::Build, Domain::Host) => resolver == ResolverVersion::V3,
        (EdgeKind::Dev, Domain::Host) => false,
    }
}

/// Whether an edge is active without any feature: it is not optional and leads
/// to no native import.
pub open spec fn plain(m: RustModel, e: Edge) -> bool {
    !dep_at(m.packages@, e).optional && !native(m, dep_at(m.packages@, e).package.name@)
}

/// The plain ones among the first `n` edges of a list.
pub open spec fn plain_edges(
    m: RustModel,
    i: int,
    kind: EdgeKind,
    domain: Domain,
    n: int,
) -> Seq<(Edge, Domain)>
    decreases n,
{
    if n <= 0 {
        Seq::empty()
    } else {
        let before = plain_edges(m, i, kind, domain, n - 1);
        if plain(m, (i, kind, n - 1)) {
            before.push(((i, kind, n - 1), domain))
        } else {
            before
        }
    }
}

/// The plain edges of a list that takes part in a domain.
pub open spec fn plain_of(m: RustModel, dev: bool, i: int, kind: EdgeKind, domain: Domain) -> Seq<
    (Edge, Domain),
> {
    if takes_part(m.resolver, dev, kind, domain) {
        plain_edges(m, i, kind, domain, dep_list(m.packages@[i], kind).len() as int)
    } else {
        Seq::empty()
    }
}

/// A package is reached in a domain: its plain edges there are queued, once.
pub open spec fn expand(m: RustModel, dev: bool, st: Resolution, i: int, d: Domain) -> Resolution {
    if st.facts.contains(Fact::Expanded(i, d)) {
        st
    } else {
        Resolution {
            facts: st.facts.insert(Fact::Expanded(i, d)),
            edges: st.edges + plain_of(m, dev, i, EdgeKind::Normal, d) + plain_of(
                m,
                dev,
                i,
                EdgeKind::Build,
                d,
            ) + plain_of(m, dev, i, EdgeKind::Dev, d),
            ..st
        }
    }
}

/// A package's default feature is asked for: it is queued, once, where the
/// package declares one.
pub open spec fn ask_default(m: RustModel, st: Resolution, i: int, d: Domain) -> Resolution {
    if st.facts.contains(Fact::Defaulted(i, d)) {
        st
    } else {
        let p = m.packages@[i];
        Resolution {
            facts: st.facts.insert(Fact::Defaulted(i, d)),
            queue: if p.has_default_feature {
                st.queue.push((p.id@, "default"@, d))
            } else {
                st.queue
            },
            ..st
        }
    }
}

/// The queue entries of requested features.
pub open spec fn asked(id: PackageIdView, features: Seq<String>, d: Domain) -> Seq<
    (PackageIdView, Seq<char>, Domain),
> {
    features.map_values(|f: String| (id, f@, d))
}

/// An edge is activated: an optional one is marked, and only the first time
/// counts; then the edge's default-feature and feature list apply to the
/// dependency package.
pub open spec fn activate(m: RustModel, dev: bool, st: Resolution, e: Edge, d: Domain) -> Result<
    Resolution,
    FeatureFault,
> {
    let ps = m.packages@;
    let dep = dep_at(ps, e);
    let mark = Fact::Active(e, d);
    if dep.optional && st.facts.contains(mark) {
        Ok(st)
    } else {
        let marked = if dep.optional {
            Resolution { facts: st.facts.insert(mark), ..st }
        } else {
            st
        };
        if native(m, dep.package.name@) || provisional(dep) {
            Ok(marked)
        } else {
            match find(ps, dep.package@) {
                None => Err(FeatureFault::UnknownPackage(dep.package.name@)),
                Some(j) => {
                    let reached = expand(m, dev, marked, j, d);
                    let defaulted = if dep.default_features {
                        ask_default(m, reached, j, d)
                    } else {
                        reached
                    };
                    Ok(
                        Resolution {
                            queue: defaulted.queue + asked(dep.package@, dep.features@, d),
                            ..defaulted
                        },
                    )
                },
            }
        }
    }
}

/// A declared feature comes on: its references are followed, the first time.
pub open spec fn open_feature(
    m: RustModel,
    dev: bool,
    st: Resolution,
    i: int,
    feature: Seq<char>,
    d: Domain,
) -> Resolution {
    if st.facts.contains(Fact::On(i, feature, d)) {
        st
    } else {
        let on = Resolution { facts: st.facts.insert(Fact::On(i, feature, d)), ..st };
        let reached = expand(m, dev, on, i, d);
        Resolution {
            stack: reached.stack.push(Task::Refs { package: i, feature, next: 0, domain: d }),
            ..reached
        }
    }
}

/// The name of an optional dependency is listed among a package's features: a
/// declared feature of that name comes on.
pub open spec fn list_name(
    m: RustModel,
    dev: bool,
    st: Resolution,
    i: int,
    name: Seq<char>,
    d: Domain,
) -> Resolution {
    if m.packages@[i].features@.contains_key(name) {
        open_feature(m, dev, st, i, name, d)
    } else {
        Resolution { facts: st.facts.insert(Fact::On(i, name, d)), ..st }
    }
}

/// A feature is turned on: a declared one comes on; another name stands for the
/// optional dependency that goes by it.
pub open spec fn turn_on(
    m: RustModel,
    dev: bool,
    st: Resolution,
    i: int,
    feature: Seq<char>,
    d: Domain,
) -> Result<Resolution, FeatureFault> {
    let p = m.packages@[i];
    if p.features@.contains_key(feature) {
        Ok(open_feature(m, dev, st, i, feature, d))
    } else {
        match named_edge(m, dev, i, feature, d) {
            None => Err(FeatureFault::UnknownFeature { package: p.id.name@, feature }),
            Some((e, ed)) => {
                let dep = dep_at(m.packages@, e);
                if dep.optional {
                    match activate(m, dev, st, e, ed) {
                        Ok(active) => Ok(list_name(m, dev, active, i, dep.package.name@, d)),
                        Err(fault) => Err(fault),
                    }
                } else {
                    Err(
                        FeatureFault::NotOptionalDep {
                            package: p.id.name@,
                            feature,
                            dep: dep.extern_name@,
                        },
                    )
                }
            },
        }
    }
}

/// Whether a package has a feature of this name, declared or implied by an
/// optional normal dependency.
pub open spec fn offers(p: Package, feature: Seq<char>) -> bool {
    p.features@.contains_key(feature) || exists|k: int|
        0 <= k < p.deps@.len() && (#[trigger] p.deps@[k]).optional && goes_by(p.deps@[k], feature)
}

/// A feature of a dependency is queued for it.
pub open spec fn queue_dep_feature(
    m: RustModel,
    st: Resolution,
    dep: Dep,
    d: Domain,
    feature: Seq<char>,
    reference: Seq<char>,
) -> Result<Resolution, FeatureFault> {
    if provisional(dep) {
        Ok(st)
    } else {
        match find(m.packages@, dep.package@) {
            None => Err(FeatureFault::UnknownPackage(dep.package.name@)),
            Some(j) => if offers(m.packages@[j], feature) {
                Ok(Resolution { queue: st.queue.push((dep.package@, feature, d)), ..st })
            } else {
                Err(
                    FeatureFault::UnknownDepFeature {
                        package: m.packages@[j].name@,
                        feature: reference,
                        dep: dep.extern_name@,
                    },
                )
            },
        }
    }
}

/// The dependency that a `dep/feat` or `dep?/feat` reference names, whether the
/// reference is weak, and the feature.
pub open spec fn dep_reference(reference: Seq<char>) -> (Seq<char>, bool, Seq<char>) {
    match split_once_spec(reference, '/') {
        Some((left, feature)) => match strip_suffix_spec(left, "?"@) {
            Some(name) => (name, true, feature),
            None => (left, false, feature),
        },
        None => (reference, false, Seq::empty()),
    }
}

/// A reference of a feature is followed.
pub open spec fn follow(
    m: RustModel,
    dev: bool,
    st: Resolution,
    i: int,
    reference: Seq<char>,
    d: Domain,
) -> Result<Resolution, FeatureFault> {
    let p = m.packages@[i];
    if let Some(name) = strip_prefix_spec(reference, "dep:"@) {
        match named_edge(m, dev, i, name, d) {
            None => Err(FeatureFault::UnknownDep { package: p.id.name@, dep: name }),
            Some((e, ed)) => {
                let dep = dep_at(m.packages@, e);
                if dep.optional {
                    activate(m, dev, st, e, ed)
                } else if p.optional_anywhere@.contains(name) {
                    Ok(st)
                } else {
                    Err(
                        FeatureFault::NotOptionalDep {
                            package: p.id.name@,
                            feature: reference,
                            dep: dep.extern_name@,
                        },
                    )
                }
            },
        }
    } else if !reference.contains('/') {
        Ok(
            Resolution {
                stack: st.stack.push(
                    Task::Feature { package: i, feature: reference, domain: d },
                ),
                ..st
            },
        )
    } else {
        let (name, weak, feature) = dep_reference(reference);
        match named_edge(m, dev, i, name, d) {
            None => Err(FeatureFault::UnknownDep { package: p.id.name@, dep: name }),
            Some((e, ed)) => {
                let dep = dep_at(m.packages@, e);
                match activate(m, dev, st, e, ed) {
                    Ok(active) => {
                        let listed = if !weak && dep.optional {
                            list_name(m, dev, active, i, dep.package.name@, d)
                        } else {
                            active
                        };
                        queue_dep_feature(m, listed, dep, ed, feature, reference)
                    },
                    Err(fault) => Err(fault),
                }
            },
        }
    }
}

/// The outcome that a step's result stands for.
pub open spec fn went_on(r: Result<Resolution, FeatureFault>) -> Outcome {
    match r {
        Ok(st) => Outcome::Running(st),
        Err(fault) => Outcome::Failed(fault),
    }
}

/// One step: the work at hand first, then the queued features until there are
/// none, then the queued edges until there are none, and so on.
pub open spec fn step(m: RustModel, dev: bool, st: Resolution) -> Outcome {
    if st.stack.len() > 0 {
        let rest = Resolution { stack: st.stack.drop_last(), ..st };
        match st.stack.last() {
            Task::Feature { package, feature, domain } => went_on(
                turn_on(m, dev, rest, package, feature, domain),
            ),
            Task::Refs { package, feature, next, domain } => {
                let references = m.packages@[package].features@[feature]@;
                if next >= references.len() {
                    Outcome::Running(rest)
                } else {
                    let later = Resolution {
                        stack: rest.stack.push(
                            Task::Refs { package, feature, next: next + 1, domain },
                        ),
                        ..rest
                    };
                    went_on(follow(m, dev, later, package, references[next]@, domain))
                }
            },
        }
    } else if st.draining {
        if st.edges.len() > 0 {
            let (e, d) = st.edges.last();
            went_on(activate(m, dev, Resolution { edges: st.edges.drop_last(), ..st }, e, d))
        } else {
            Outcome::Running(Resolution { draining: false, ..st })
        }
    } else if st.queue.len() > 0 {
        let (id, feature, domain) = st.queue.last();
        match find(m.packages@, id) {
            None => Outcome::Failed(FeatureFault::UnknownPackage(id.name)),
            Some(package) => Outcome::Running(
                Resolution {
                    queue: st.queue.drop_last(),
                    stack: seq![Task::Feature { package, feature, domain }],
                    ..st
                },
            ),
        }
    } else if st.edges.len() > 0 {
        Outcome::Running(Resolution { draining: true, ..st })
    } else {
        Outcome::Finished(st)
    }
}

/// The first `n` steps.
pub open spec fn run(m: RustModel, dev: bool, from: Outcome, n: nat) -> Outcome
    decreases n,
{
    if n == 0 {
        from
    } else {
        match run(m, dev, from, (n - 1) as nat) {
            Outcome::Running(st) => step(m, dev, st),
            ended => ended,
        }
    }
}

/// The state after the first `n` requests: each reaches its package, asks for
/// its default feature unless told not to, and queues its features. A request for
/// a package that is not in the model fails.
pub open spec fn requested(
    m: RustModel,
    dev: bool,
    requests: Seq<FeatureRequest>,
    n: int,
) -> Result<Resolution, FeatureFault>
    decreases n,
{
    if n <= 0 {
        Ok(
            Resolution {
                facts: Set::empty(),
                queue: Seq::empty(),
                edges: Seq::empty(),
                stack: Seq::empty(),
                draining: false,
            },
        )
    } else {
        let request = requests[n - 1];
        match requested(m, dev, requests, n - 1) {
            Err(fault) => Err(fault),
            Ok(st) => match find(m.packages@, request.package@) {
                None => Err(FeatureFault::UnknownPackage(request.package.name@)),
                Some(i) => {
                    let reached = expand(m, dev, st, i, Domain::Target);
                    let defaulted = if request.default_features {
                        ask_default(m, reached, i, Domain::Target)
                    } else {
                        reached
                    };
                    Ok(
                        Resolution {
                            queue: defaulted.queue + asked(
                                request.package@,
                                request.features@,
                                Domain::Target,
                            ),
                            ..defaulted
                        },
                    )
                },
            },
        }
    }
}

/// The plain build edges of the packages with a build script among the first
/// `n`: what compiles for the host.
pub open spec fn host_edges(m: RustModel, n: int) -> Seq<(Edge, Domain)>
    decreases n,
{
    if n <= 0 {
        Seq::empty()
    } else if m.packages@[n - 1].build_script is Some {
        host_edges(m, n - 1) + plain_edges(
            m,
            n - 1,
            EdgeKind::Build,
            Domain::Host,
            m.packages@[n - 1].build_deps@.len() as int,
        )
    } else {
        host_edges(m, n - 1)
    }
}

/// The first `n` of these edges are activated in turn.
pub open spec fn activate_all(
    m: RustModel,
    dev: bool,
    from: Resolution,
    edges: Seq<(Edge, Domain)>,
    n: int,
) -> Result<Resolution, FeatureFault>
    decreases n,
{
    if n <= 0 {
        Ok(from)
    } else {
        match activate_all(m, dev, from, edges, n - 1) {
            Ok(st) => activate(m, dev, st, edges[n - 1].0, edges[n - 1].1),
            Err(fault) => Err(fault),
        }
    }
}

/// Where a resolution begins: after the requests and, under resolver 3, after
/// the host domain's edges.
pub open spec fn begun(m: RustModel, dev: bool, requests: Seq<FeatureRequest>) -> Outcome {
    match requested(m, dev, requests, requests.len() as int) {
        Err(fault) => Outcome::Failed(fault),
        Ok(st) => if m.resolver == ResolverVersion::V3 {
            let edges = host_edges(m, m.packages@.len() as int);
            went_on(activate_all(m, dev, st, edges, edges.len() as int))
        } else {
            Outcome::Running(st)
        },
    }
}

/// What a resolution comes to.
pub open spec fn resolution(m: RustModel, requests: Seq<FeatureRequest>, dev: bool) -> Outcome {
    let from = begun(m, dev, requests);
    let n = choose|n: nat| !(#[trigger] run(m, dev, from, n) is Running);
    run(m, dev, from, n)
}

/// The features of a package that are on.
pub open spec fn on_of(facts: Set<Fact>, i: int, d: Domain) -> Set<Seq<char>> {
    Set::new(|f: Seq<char>| facts.contains(Fact::On(i, f, d)))
}

/// The optional edges of a package that are active, by their extern names.
pub open spec fn active_of(m: RustModel, facts: Set<Fact>, i: int, d: Domain) -> Set<Seq<char>> {
    Set::new(
        |x: Seq<char>|
            exists|e: Edge|
                #![trigger facts.contains(Fact::Active(e, d))]
                facts.contains(Fact::Active(e, d)) && e.0 == i && dep_at(
                    m.packages@,
                    e,
                ).extern_name@ == x,
    )
}

/// Every package of the model with its features that are on.
pub open spec fn on_map(m: RustModel, facts: Set<Fact>, d: Domain) -> Map<
    PackageIdView,
    Set<Seq<char>>,
> {
    Map::new(
        |id: PackageIdView| find(m.packages@, id) is Some,
        |id: PackageIdView| on_of(facts, find(m.packages@, id)->0, d),
    )
}

/// The packages of the model that have active optional edges, with these.
pub open spec fn active_map(m: RustModel, facts: Set<Fact>, d: Domain) -> Map<
    PackageIdView,
    Set<Seq<char>>,
> {
    Map::new(
        |id: PackageIdView|
            find(m.packages@, id) is Some && active_of(m, facts, find(m.packages@, id)->0, d)
                != Set::<Seq<char>>::empty(),
        |id: PackageIdView| active_of(m, facts, find(m.packages@, id)->0, d),
    )
}

// ---- Every resolution ends -------------------------------------------------

/// What `find` finds.
pub proof fn lemma_find(ps: Seq<Package>, id: PackageIdView)
    ensures
        match find(ps, id) {
            Some(i) => 0 <= i < ps.len() && ps[i].id@ == id && forall|j: int|
                i < j < ps.len() ==> (#[trigger] ps[j]).id@ != id,
            None => forall|j: int| 0 <= j < ps.len() ==> (#[trigger] ps[j]).id@ != id,
        },
    decreases ps.len(),
{
    if ps.len() > 0 && ps.last().id@ != id {
        lemma_find(ps.drop_last(), id);
        assert forall|j: int| 0 <= j < ps.len() - 1 implies ps[j] == #[trigger] ps.drop_last()[j] by {}
        match find(ps.drop_last(), id) {
            Some(i) => {
                assert forall|j: int| i < j < ps.len() implies (#[trigger] ps[j]).id@ != id by {
                    if j < ps.len() - 1 {
                        assert(ps.drop_last()[j].id@ != id);
                    }
                }
            },
            None => {
                assert forall|j: int| 0 <= j < ps.len() implies (#[trigger] ps[j]).id@ != id by {
                    if j < ps.len() - 1 {
                        assert(ps.drop_last()[j].id@ != id);
                    }
                }
            },
        }
    }
}

/// What `first_named` finds.
pub proof fn lemma_first_named(deps: Seq<Dep>, name: Seq<char>, from: int)
    requires
        0 <= from,
    ensures
        match first_named(deps, name, from) {
            Some(k) => from <= k < deps.len() && goes_by(deps[k], name) && forall|j: int|
                from <= j < k ==> !goes_by(#[trigger] deps[j], name),
            None => forall|j: int| from <= j < deps.len() ==> !goes_by(#[trigger] deps[j], name),
        },
    decreases deps.len() - from,
{
    if from < deps.len() && !goes_by(deps[from], name) {
        lemma_first_named(deps, name, from + 1);
    }
}

/// An edge found by name is an edge of the package.
pub proof fn lemma_named_edge(m: RustModel, dev: bool, i: int, name: Seq<char>, d: Domain)
    requires
        0 <= i < m.packages@.len(),
    ensures
        named_edge(m, dev, i, name, d) matches Some((e, ed)) ==> edge_ok(m.packages@, e) && e.0 == i
            && goes_by(dep_at(m.packages@, e), name),
{
    let p = m.packages@[i];
    lemma_first_named(p.deps@, name, 0);
    lemma_first_named(p.build_deps@, name, 0);
    lemma_first_named(p.dev_deps@, name, 0);
}

/// Plain edges are edges.
pub proof fn lemma_plain_edges(m: RustModel, i: int, kind: EdgeKind, domain: Domain, n: int)
    requires
        0 <= i < m.packages@.len(),
        n <= dep_list(m.packages@[i], kind).len(),
    ensures
        forall|k: int|
            0 <= k < plain_edges(m, i, kind, domain, n).len() ==> {
                let x = #[trigger] plain_edges(m, i, kind, domain, n)[k];
                edge_ok(m.packages@, x.0) && plain(m, x.0) && x.1 == domain && x.0.0 == i && x.0.1
                    == kind
            },
    decreases n,
{
    if n > 0 {
        lemma_plain_edges(m, i, kind, domain, n - 1);
    }
}

/// The facts about one list of a package's edges.
pub open spec fn facts_of_edges(p: Package, i: int, kind: EdgeKind, d: Domain) -> Seq<Fact> {
    Seq::new(dep_list(p, kind).len(), |k: int| Fact::Active((i, kind, k), d))
}

/// The facts about one package that work is done for.
pub open spec fn facts_about(m: RustModel, i: int) -> Seq<Fact> {
    let p = m.packages@[i];
    p.features.keys().map_values(|f: Seq<char>| Fact::On(i, f, Domain::Target))
        + p.features.keys().map_values(|f: Seq<char>| Fact::On(i, f, Domain::Host))
        + facts_of_edges(p, i, EdgeKind::Normal, Domain::Target) + facts_of_edges(
        p,
        i,
        EdgeKind::Normal,
        Domain::Host,
    ) + facts_of_edges(p, i, EdgeKind::Build, Domain::Target) + facts_of_edges(
        p,
        i,
        EdgeKind::Build,
        Domain::Host,
    ) + facts_of_edges(p, i, EdgeKind::Dev, Domain::Target) + facts_of_edges(
        p,
        i,
        EdgeKind::Dev,
        Domain::Host,
    ) + seq![Fact::Expanded(i, Domain::Target), Fact::Expanded(i, Domain::Host)]
}

/// The facts about the first `n` packages that work is done for.
pub open spec fn facts_upto(m: RustModel, n: int) -> Set<Fact>
    decreases n,
{
    if n <= 0 {
        Set::empty()
    } else {
        facts_upto(m, n - 1).union(facts_about(m, n - 1).to_set())
    }
}

proof fn lemma_facts_upto(m: RustModel, n: int, i: int, fact: Fact)
    requires
        0 <= i < n,
        facts_about(m, i).contains(fact),
    ensures
        facts_upto(m, n).contains(fact),
    decreases n,
{
    if i < n - 1 {
        lemma_facts_upto(m, n - 1, i, fact);
    }
}

proof fn lemma_facts_finite(m: RustModel, n: int)
    ensures
        facts_upto(m, n).finite(),
    decreases n,
{
    if n > 0 {
        lemma_facts_finite(m, n - 1);
        vstd::seq_lib::seq_to_set_is_finite(facts_about(m, n - 1));
    }
}

/// How many of the facts that work is done for do not hold yet.
pub open spec fn left(m: RustModel, facts: Set<Fact>) -> nat {
    facts_upto(m, m.packages@.len() as int).difference(facts).len()
}

proof fn lemma_left(m: RustModel, a: Set<Fact>, b: Set<Fact>)
    requires
        a.subset_of(b),
    ensures
        left(m, b) <= left(m, a),
{
    let all = facts_upto(m, m.packages@.len() as int);
    lemma_facts_finite(m, m.packages@.len() as int);
    vstd::set_lib::lemma_len_subset(all.difference(b), all.difference(a));
}

proof fn lemma_left_less(m: RustModel, a: Set<Fact>, b: Set<Fact>, i: int, fact: Fact)
    requires
        a.subset_of(b),
        0 <= i < m.packages@.len(),
        facts_about(m, i).contains(fact),
        !a.contains(fact),
        b.contains(fact),
    ensures
        left(m, b) < left(m, a),
{
    let all = facts_upto(m, m.packages@.len() as int);
    lemma_facts_finite(m, m.packages@.len() as int);
    lemma_facts_upto(m, m.packages@.len() as int, i, fact);
    let smaller = all.difference(a).remove(fact);
    assert(all.difference(b).subset_of(smaller));
    vstd::set_lib::lemma_len_subset(all.difference(b), smaller);
}

proof fn lemma_about_expanded(m: RustModel, i: int, d: Domain)
    requires
        0 <= i < m.packages@.len(),
    ensures
        facts_about(m, i).contains(Fact::Expanded(i, d)),
{
    let s = facts_about(m, i);
    let k = s.len() - (if d == Domain::Target { 2int } else { 1int });
    assert(s[k] == Fact::Expanded(i, d));
}

proof fn lemma_about_on(m: RustModel, i: int, f: Seq<char>, d: Domain)
    requires
        0 <= i < m.packages@.len(),
        m.packages@[i].features@.contains_key(f),
    ensures
        facts_about(m, i).contains(Fact::On(i, f, d)),
{
    let keys = m.packages@[i].features.keys();
    let k = choose|k: int| 0 <= k < keys.len() && keys[k] == f;
    let s = facts_about(m, i);
    let at = if d == Domain::Target { k } else { keys.len() + k };
    assert(s[at] == Fact::On(i, f, d));
}

proof fn lemma_about_active(m: RustModel, e: Edge, d: Domain)
    requires
        edge_ok(m.packages@, e),
    ensures
        facts_about(m, e.0).contains(Fact::Active(e, d)),
{
    let p = m.packages@[e.0];
    let s = facts_about(m, e.0);
    let f2 = 2 * p.features.keys().len();
    let n = p.deps@.len();
    let b = p.build_deps@.len();
    let v = p.dev_deps@.len();
    let host = d == Domain::Host;
    let at = match e.1 {
        EdgeKind::Normal => f2 + (if host { n as int } else { 0 }) + e.2,
        EdgeKind::Build => f2 + 2 * n + (if host { b as int } else { 0 }) + e.2,
        EdgeKind::Dev => f2 + 2 * n + 2 * b + (if host { v as int } else { 0 }) + e.2,
    };
    assert(s[at] == Fact::Active(e, d));
}

/// Whether a task is about a package and a feature that there are.
pub open spec fn task_ok(m: RustModel, t: Task) -> bool {
    match t {
        Task::Feature { package, .. } => 0 <= package < m.packages@.len(),
        Task::Refs { package, feature, next, .. } => 0 <= package < m.packages@.len() && 0 <= next
            && m.packages@[package].features@.contains_key(feature),
    }
}

/// Whether all work of a state is about packages and edges that there are.
pub open spec fn state_ok(m: RustModel, st: Resolution) -> bool {
    &&& forall|k: int| 0 <= k < st.edges.len() ==> edge_ok(m.packages@, (#[trigger] st.edges[k]).0)
    &&& forall|k: int| 0 <= k < st.stack.len() ==> task_ok(m, #[trigger] st.stack[k])
}

proof fn lemma_expand(m: RustModel, dev: bool, st: Resolution, i: int, d: Domain)
    requires
        state_ok(m, st),
        0 <= i < m.packages@.len(),
    ensures
        state_ok(m, expand(m, dev, st, i, d)),
        st.facts.subset_of(expand(m, dev, st, i, d).facts),
        expand(m, dev, st, i, d) == st || left(m, expand(m, dev, st, i, d).facts) < left(
            m,
            st.facts,
        ),
        expand(m, dev, st, i, d).stack == st.stack,
        expand(m, dev, st, i, d).queue == st.queue,
        expand(m, dev, st, i, d).draining == st.draining,
{
    let r = expand(m, dev, st, i, d);
    if r != st {
        lemma_about_expanded(m, i, d);
        lemma_left_less(m, st.facts, r.facts, i, Fact::Expanded(i, d));
        let p = m.packages@[i];
        lemma_plain_edges(m, i, EdgeKind::Normal, d, p.deps@.len() as int);
        lemma_plain_edges(m, i, EdgeKind::Build, d, p.build_deps@.len() as int);
        lemma_plain_edges(m, i, EdgeKind::Dev, d, p.dev_deps@.len() as int);
    }
}

/// Activating an edge keeps the state about what there is; it queues edges only
/// where a fact comes to hold.
pub proof fn lemma_activate(m: RustModel, dev: bool, st: Resolution, e: Edge, d: Domain)
    requires
        state_ok(m, st),
        edge_ok(m.packages@, e),
    ensures
        activate(m, dev, st, e, d) matches Ok(r) ==> {
            &&& state_ok(m, r)
            &&& st.facts.subset_of(r.facts)
            &&& r.stack == st.stack
            &&& r.draining == st.draining
            &&& left(m, r.facts) < left(m, st.facts) || (left(m, r.facts) <= left(m, st.facts)
                && r.edges == st.edges && (dep_at(m.packages@, e).optional ==> r == st))
        },
{
    let ps = m.packages@;
    let dep = dep_at(ps, e);
    let mark = Fact::Active(e, d);
    lemma_find(ps, dep.package@);
    if !(dep.optional && st.facts.contains(mark)) {
        let marked = if dep.optional {
            Resolution { facts: st.facts.insert(mark), ..st }
        } else {
            st
        };
        if dep.optional {
            lemma_about_active(m, e, d);
            lemma_left_less(m, st.facts, marked.facts, e.0, mark);
        }
        if !native(m, dep.package.name@) && !provisional(dep) {
            if let Some(j) = find(ps, dep.package@) {
                lemma_expand(m, dev, marked, j, d);
                let r = activate(m, dev, st, e, d)->Ok_0;
                lemma_left(m, expand(m, dev, marked, j, d).facts, r.facts);
            }
        }
    }
}

/// How much is left of the references being followed.
pub open spec fn refs_left(m: RustModel, stack: Seq<Task>) -> nat
    decreases stack.len(),
{
    if stack.len() == 0 {
        0
    } else {
        refs_left(m, stack.drop_last()) + match stack.last() {
            Task::Feature { .. } => 0,
            Task::Refs { package, feature, next, .. } => {
                let n = m.packages@[package].features@[feature]@.len();
                if next < n {
                    (1 + n - next) as nat
                } else {
                    1
                }
            },
        }
    }
}

/// How many features are on the stack.
pub open spec fn features_left(stack: Seq<Task>) -> nat
    decreases stack.len(),
{
    if stack.len() == 0 {
        0
    } else {
        features_left(stack.drop_last()) + (if stack.last() is Feature {
            1nat
        } else {
            0
        })
    }
}

/// How much is left to do, the weightier first.
pub open spec fn effort(m: RustModel, st: Resolution) -> (nat, nat, nat, nat) {
    (
        left(m, st.facts),
        st.edges.len() + refs_left(m, st.stack),
        2 * st.queue.len() + features_left(st.stack),
        if st.draining {
            1
        } else if st.edges.len() > 0 {
            2
        } else {
            0
        },
    )
}

/// Whether one effort is less than another.
pub open spec fn less_effort(a: (nat, nat, nat, nat), b: (nat, nat, nat, nat)) -> bool {
    ||| a.0 < b.0
    ||| a.0 == b.0 && a.1 < b.1
    ||| a.0 == b.0 && a.1 == b.1 && a.2 < b.2
    ||| a.0 == b.0 && a.1 == b.1 && a.2 == b.2 && a.3 < b.3
}

proof fn lemma_open_feature(m: RustModel, dev: bool, st: Resolution, i: int, f: Seq<char>, d: Domain)
    requires
        state_ok(m, st),
        0 <= i < m.packages@.len(),
        m.packages@[i].features@.contains_key(f),
    ensures
        ({
            let r = open_feature(m, dev, st, i, f, d);
            &&& state_ok(m, r)
            &&& st.facts.subset_of(r.facts)
            &&& r == st || left(m, r.facts) < left(m, st.facts)
        }),
{
    if !st.facts.contains(Fact::On(i, f, d)) {
        let on = Resolution { facts: st.facts.insert(Fact::On(i, f, d)), ..st };
        lemma_about_on(m, i, f, d);
        lemma_left_less(m, st.facts, on.facts, i, Fact::On(i, f, d));
        lemma_expand(m, dev, on, i, d);
    }
}

proof fn lemma_list_name(m: RustModel, dev: bool, st: Resolution, i: int, f: Seq<char>, d: Domain)
    requires
        state_ok(m, st),
        0 <= i < m.packages@.len(),
    ensures
        ({
            let r = list_name(m, dev, st, i, f, d);
            &&& state_ok(m, r)
            &&& st.facts.subset_of(r.facts)
            &&& left(m, r.facts) < left(m, st.facts) || (left(m, r.facts) <= left(m, st.facts)
                && r.edges == st.edges && r.queue == st.queue && r.stack == st.stack)
        }),
{
    if m.packages@[i].features@.contains_key(f) {
        lemma_open_feature(m, dev, st, i, f, d);
    } else {
        lemma_left(m, st.facts, list_name(m, dev, st, i, f, d).facts);
    }
}

proof fn lemma_turn_on(m: RustModel, dev: bool, st: Resolution, i: int, f: Seq<char>, d: Domain)
    requires
        state_ok(m, st),
        0 <= i < m.packages@.len(),
    ensures
        turn_on(m, dev, st, i, f, d) matches Ok(r) ==> {
            &&& state_ok(m, r)
            &&& st.facts.subset_of(r.facts)
            &&& left(m, r.facts) < left(m, st.facts) || (left(m, r.facts) <= left(m, st.facts)
                && r.edges == st.edges && r.queue == st.queue && r.stack == st.stack)
        },
{
    let p = m.packages@[i];
    if p.features@.contains_key(f) {
        lemma_open_feature(m, dev, st, i, f, d);
    } else {
        lemma_named_edge(m, dev, i, f, d);
        if let Some((e, ed)) = named_edge(m, dev, i, f, d) {
            let dep = dep_at(m.packages@, e);
            if dep.optional {
                lemma_activate(m, dev, st, e, ed);
                if let Ok(active) = activate(m, dev, st, e, ed) {
                    lemma_list_name(m, dev, active, i, dep.package.name@, d);
                }
            }
        }
    }
}

proof fn lemma_follow(m: RustModel, dev: bool, st: Resolution, i: int, x: Seq<char>, d: Domain)
    requires
        state_ok(m, st),
        0 <= i < m.packages@.len(),
    ensures
        follow(m, dev, st, i, x, d) matches Ok(r) ==> {
            &&& state_ok(m, r)
            &&& st.facts.subset_of(r.facts)
            &&& left(m, r.facts) < left(m, st.facts) || (left(m, r.facts) <= left(m, st.facts)
                && r.edges == st.edges && refs_left(m, r.stack) == refs_left(m, st.stack))
        },
{
    let name = if strip_prefix_spec(x, "dep:"@) is Some {
        strip_prefix_spec(x, "dep:"@)->0
    } else {
        dep_reference(x).0
    };
    lemma_named_edge(m, dev, i, name, d);
    if strip_prefix_spec(x, "dep:"@) is None && !x.contains('/') {
        let t = Task::Feature { package: i, feature: x, domain: d };
        assert(st.stack.push(t).drop_last() =~= st.stack);
    } else if let Some((e, ed)) = named_edge(m, dev, i, name, d) {
        let dep = dep_at(m.packages@, e);
        lemma_activate(m, dev, st, e, ed);
        if let Ok(active) = activate(m, dev, st, e, ed) {
            lemma_list_name(m, dev, active, i, dep.package.name@, d);
        }
    }
}

/// Every step leaves less to do.
pub proof fn lemma_step(m: RustModel, dev: bool, st: Resolution)
    requires
        state_ok(m, st),
    ensures
        step(m, dev, st) matches Outcome::Running(r) ==> state_ok(m, r) && less_effort(
            effort(m, r),
            effort(m, st),
        ) && st.facts.subset_of(r.facts),
{
    if st.stack.len() > 0 {
        let rest = Resolution { stack: st.stack.drop_last(), ..st };
        assert(task_ok(m, st.stack.last()));
        match st.stack.last() {
            Task::Feature { package, feature, domain } => {
                lemma_turn_on(m, dev, rest, package, feature, domain);
            },
            Task::Refs { package, feature, next, domain } => {
                let references = m.packages@[package].features@[feature]@;
                if next < references.len() {
                    let t = Task::Refs { package, feature, next: next + 1, domain };
                    let later = Resolution { stack: rest.stack.push(t), ..rest };
                    assert(later.stack.drop_last() =~= rest.stack);
                    assert(task_ok(m, t));
                    lemma_follow(m, dev, later, package, references[next]@, domain);
                }
            },
        }
    } else if st.draining {
        if st.edges.len() > 0 {
            let (e, d) = st.edges.last();
            assert(edge_ok(m.packages@, st.edges[st.edges.len() - 1].0));
            lemma_activate(m, dev, Resolution { edges: st.edges.drop_last(), ..st }, e, d);
        }
    } else if st.queue.len() > 0 {
        let (id, feature, domain) = st.queue.last();
        lemma_find(m.packages@, id);
        if let Some(package) = find(m.packages@, id) {
            let t = Task::Feature { package, feature, domain };
            assert(seq![t].drop_last() =~= Seq::<Task>::empty());
            assert(st.stack =~= Seq::<Task>::empty());
        }
    }
}

/// Taking the first step first.
proof fn lemma_run_shift(m: RustModel, dev: bool, from: Outcome, n: nat)
    ensures
        run(m, dev, from, n + 1) == (match from {
            Outcome::Running(st) => run(m, dev, step(m, dev, st), n),
            ended => ended,
        }),
    decreases n,
{
    if n > 0 {
        lemma_run_shift(m, dev, from, (n - 1) as nat);
    } else {
        reveal_with_fuel(run, 2);
    }
}

/// What has ended stays as it is.
proof fn lemma_run_stays(m: RustModel, dev: bool, from: Outcome, n: nat, k: nat)
    requires
        n <= k,
        !(run(m, dev, from, n) is Running),
    ensures
        run(m, dev, from, k) == run(m, dev, from, n),
    decreases k,
{
    if n < k {
        lemma_run_stays(m, dev, from, n, (k - 1) as nat);
    }
}

/// A resolution comes to what any number of steps has ended in.
pub proof fn lemma_resolution(m: RustModel, requests: Seq<FeatureRequest>, dev: bool, n: nat)
    requires
        !(run(m, dev, begun(m, dev, requests), n) is Running),
    ensures
        resolution(m, requests, dev) == run(m, dev, begun(m, dev, requests), n),
{
    let from = begun(m, dev, requests);
    let k = choose|k: nat| !(#[trigger] run(m, dev, from, k) is Running);
    if n <= k {
        lemma_run_stays(m, dev, from, n, k);
    } else {
        lemma_run_stays(m, dev, from, k, n);
    }
}

proof fn lemma_ends(m: RustModel, dev: bool, st: Resolution) -> (n: nat)
    requires
        state_ok(m, st),
    ensures
        !(run(m, dev, Outcome::Running(st), n) is Running),
    decreases effort(m, st).0, effort(m, st).1, effort(m, st).2, effort(m, st).3,
{
    lemma_step(m, dev, st);
    match step(m, dev, st) {
        Outcome::Running(r) => {
            let k = lemma_ends(m, dev, r);
            lemma_run_shift(m, dev, Outcome::Running(st), k);
            k + 1
        },
        ended => {
            lemma_run_shift(m, dev, Outcome::Running(st), 0);
            1
        },
    }
}

/// The requests leave a state about what there is.
pub proof fn lemma_requested(m: RustModel, dev: bool, requests: Seq<FeatureRequest>, n: int)
    requires
        n <= requests.len(),
    ensures
        requested(m, dev, requests, n) matches Ok(st) ==> state_ok(m, st) && st.stack.len() == 0
            && !st.draining,
    decreases n,
{
    if n > 0 {
        lemma_requested(m, dev, requests, n - 1);
        let id = requests[n - 1].package@;
        lemma_find(m.packages@, id);
        if let Ok(st) = requested(m, dev, requests, n - 1) {
            if let Some(i) = find(m.packages@, id) {
                lemma_expand(m, dev, st, i, Domain::Target);
            }
        }
    }
}

/// The host domain's edges are edges.
pub proof fn lemma_host_edges(m: RustModel, n: int)
    requires
        n <= m.packages@.len(),
    ensures
        forall|k: int|
            0 <= k < host_edges(m, n).len() ==> edge_ok(
                m.packages@,
                (#[trigger] host_edges(m, n)[k]).0,
            ) && host_edges(m, n)[k].1 == Domain::Host,
    decreases n,
{
    if n > 0 {
        lemma_host_edges(m, n - 1);
        lemma_plain_edges(
            m,
            n - 1,
            EdgeKind::Build,
            Domain::Host,
            m.packages@[n - 1].build_deps@.len() as int,
        );
    }
}

/// Activating edges in turn keeps the state about what there is.
pub proof fn lemma_activate_all(
    m: RustModel,
    dev: bool,
    from: Resolution,
    edges: Seq<(Edge, Domain)>,
    n: int,
)
    requires
        state_ok(m, from),
        n <= edges.len(),
        forall|k: int| 0 <= k < edges.len() ==> edge_ok(m.packages@, (#[trigger] edges[k]).0),
    ensures
        activate_all(m, dev, from, edges, n) matches Ok(r) ==> state_ok(m, r) && r.stack
            == from.stack && r.draining == from.draining && from.facts.subset_of(r.facts),
    decreases n,
{
    if n > 0 {
        lemma_activate_all(m, dev, from, edges, n - 1);
        if let Ok(st) = activate_all(m, dev, from, edges, n - 1) {
            lemma_activate(m, dev, st, edges[n - 1].0, edges[n - 1].1);
        }
    }
}

/// Where a resolution begins, its work is about what there is.
pub proof fn lemma_begun(m: RustModel, dev: bool, requests: Seq<FeatureRequest>)
    ensures
        begun(m, dev, requests) matches Outcome::Running(st) ==> state_ok(m, st)
            && st.stack.len() == 0 && !st.draining,
        !(begun(m, dev, requests) is Finished),
{
    lemma_requested(m, dev, requests, requests.len() as int);
    lemma_host_edges(m, m.packages@.len() as int);
    let edges = host_edges(m, m.packages@.len() as int);
    if let Ok(st) = requested(m, dev, requests, requests.len() as int) {
        lemma_activate_all(m, dev, st, edges, edges.len() as int);
    }
}

/// Every resolution ends, whatever the model and the requests: cycles among
/// features and among packages do no harm.
pub proof fn every_resolution_ends(m: RustModel, requests: Seq<FeatureRequest>, dev: bool)
    ensures
        !(resolution(m, requests, dev) is Running),
{
    let from = begun(m, dev, requests);
    lemma_begun(m, dev, requests);
    match from {
        Outcome::Running(st) => {
            let n = lemma_ends(m, dev, st);
            lemma_resolution(m, requests, dev, n);
        },
        _ => {
            assert(!(run(m, dev, from, 0) is Running));
            lemma_resolution(m, requests, dev, 0);
        },
    }
}

} // verus!
