//! Cargo-compatible feature resolution (resolver 1/2/3 semantics).
//!
//! Pure, no I/O, deterministic. Implements the resolver rules: weak dep
//! features (`pkg?/feat`), namespaced `dep:` features, optional dependencies as
//! implicit features, the `default` feature, `default-features = false`, and
//! dependency feature propagation via `dep/feat` with Cargo's union
//! (unification) semantics.
//!
//! Feature domains (Cargo's resolver versions, selected per workspace):
//!
//! - Resolver 1: one domain; features unify across normal, build, and dev
//!   dependencies (the legacy behavior that made `cargo build` see dev-dep
//!   features).
//! - Resolver 2: dev-dependencies are a separate domain; normal and
//!   build-dependencies unify.
//! - Resolver 3: build-dependencies form a separate *host* domain too; a
//!   package used as both a normal and a build dependency keeps independent
//!   feature sets (`FeatureMap::build_features`).
//!
//! The resolution is a workqueue: activating a feature enqueues the references
//! it declares; every (package, feature, domain) triple is processed at most
//! once, so the algorithm always terminates. [`resolution`] says what it comes
//! to, step by step: the order of the steps decides which of several faults is
//! reported, but never what is on.

use vstd::prelude::*;
use vstd::string::*;
use crate::model::{
    crate_name, Dep, Package, PackageId, PackageIdView, ResolverVersion, RustModel, SourceId,
};
use crate::resolution::{
    activate, activate_all, active_map, active_of, ask_default, asked, begun, dep_at, dep_list,
    dep_reference, edge_ok, effort, expand, find, first_named, follow, goes_by, host_edges,
    lemma_begun, lemma_find, lemma_host_edges, lemma_resolution, lemma_step, list_name,
    named_edge, native, offers, on_map, on_of, open_feature, plain, plain_edges, plain_of,
    provisional, queue_dep_feature, requested, resolution, run, state_ok, step, takes_part, task_ok, turn_on, Domain, Edge,
    EdgeKind, Fact, Outcome, Resolution, Task,
};
use crate::strmap::StrSet;
use crate::text::{cat, has_char, owned, same, split_once, strip_prefix, strip_suffix};

verus! {

/// A feature request for a workspace package.
#[derive(Clone, Debug)]
pub struct FeatureRequest {
    /// Exact identity of the package to activate.
    pub package: PackageId,
    /// Features to activate.
    pub features: Vec<String>,
    /// Whether the package's default feature is enabled.
    pub default_features: bool,
}

/// Sets of strings by package.
#[derive(Debug)]
pub struct PackageSets {
    entries: Vec<(PackageId, StrSet)>,
}

/// Whether no two entries are of one package.
pub open spec fn distinct_packages(entries: Seq<(PackageId, StrSet)>) -> bool {
    forall|i: int, j: int|
        0 <= i < j < entries.len() ==> (#[trigger] entries[i]).0@ != (#[trigger] entries[j]).0@
}

impl PackageSets {
    #[verifier::type_invariant]
    spec fn inv(self) -> bool {
        distinct_packages(self.entries@)
    }

    /// The packages with a set, and their sets.
    pub closed spec fn entries(self) -> Seq<(PackageId, StrSet)> {
        self.entries@
    }

    /// Whether `id` has a set.
    pub open spec fn has(self, id: PackageIdView) -> bool {
        exists|i: int| 0 <= i < self.entries().len() && (#[trigger] self.entries()[i]).0@ == id
    }

    /// The packages' sets.
    pub open spec fn view(self) -> Map<PackageIdView, Set<Seq<char>>> {
        Map::new(
            |id: PackageIdView| self.has(id),
            |id: PackageIdView|
                {
                    let i = choose|i: int|
                        0 <= i < self.entries().len() && (#[trigger] self.entries()[i]).0@ == id;
                    self.entries()[i].1@
                },
        )
    }

    proof fn lemma_at(self, i: int)
        requires
            distinct_packages(self.entries@),
            0 <= i < self.entries@.len(),
        ensures
            self@.contains_key(self.entries@[i].0@),
            self@[self.entries@[i].0@] == self.entries@[i].1@,
    {
        let id = self.entries@[i].0@;
        assert(self.entries()[i].0@ == id);
        assert(self.has(id));
        let j = choose|j: int|
            0 <= j < self.entries().len() && (#[trigger] self.entries()[j]).0@ == id;
        assert(!(i < j) && !(j < i));
    }

    /// No sets.
    pub fn new() -> (r: PackageSets)
        ensures
            r@ == Map::<PackageIdView, Set<Seq<char>>>::empty(),
    {
        let r = PackageSets { entries: Vec::new() };
        assert(r@ =~= Map::<PackageIdView, Set<Seq<char>>>::empty());
        r
    }

    /// The sets of these packages.
    fn from_entries(entries: Vec<(PackageId, StrSet)>) -> (r: PackageSets)
        requires
            distinct_packages(entries@),
        ensures
            r.entries() == entries@,
            forall|i: int|
                0 <= i < entries@.len() ==> #[trigger] r@.contains_key(entries@[i].0@)
                    && r@[entries@[i].0@] == entries@[i].1@,
    {
        let r = PackageSets { entries };
        proof {
            assert forall|i: int| 0 <= i < entries@.len() implies #[trigger] r@.contains_key(
                entries@[i].0@,
            ) && r@[entries@[i].0@] == entries@[i].1@ by {
                r.lemma_at(i);
            }
        }
        r
    }

    /// The number of packages with a set.
    pub fn len(&self) -> (r: usize)
        ensures
            r == self.entries().len(),
            distinct_packages(self.entries()),
    {
        proof {
            use_type_invariant(self);
        }
        self.entries.len()
    }

    /// The package at a position, and its set.
    pub fn entry(&self, i: usize) -> (r: (&PackageId, &StrSet))
        requires
            i < self.entries().len(),
        ensures
            *r.0 == self.entries()[i as int].0,
            *r.1 == self.entries()[i as int].1,
            self@.contains_key(r.0@),
            self@[r.0@] == r.1@,
    {
        proof {
            use_type_invariant(self);
            self.lemma_at(i as int);
        }
        (&self.entries[i].0, &self.entries[i].1)
    }

    /// The set of `package`.
    pub fn get(&self, package: &PackageId) -> (r: Option<&StrSet>)
        ensures
            match r {
                Some(set) => self@.contains_key(package@) && set@ == self@[package@],
                None => !self@.contains_key(package@),
            },
    {
        proof {
            use_type_invariant(self);
        }
        let mut i: usize = 0;
        while i < self.entries.len()
            invariant
                i <= self.entries@.len(),
                distinct_packages(self.entries@),
                forall|j: int| 0 <= j < i ==> (#[trigger] self.entries@[j]).0@ != package@,
            decreases self.entries@.len() - i,
        {
            if self.entries[i].0.same(package) {
                proof {
                    self.lemma_at(i as int);
                }
                return Some(&self.entries[i].1);
            }
            i += 1;
        }
        None
    }

    /// Whether `package` has a set.
    pub fn contains_key(&self, package: &PackageId) -> (r: bool)
        ensures
            r == self@.contains_key(package@),
    {
        self.get(package).is_some()
    }
}

/// The resolved feature activation state of the whole graph.
#[derive(Debug)]
pub struct FeatureMap {
    /// Activated features per package (target domain).
    pub packages: PackageSets,
    /// Active optional dep edges per package in the target domain: extern name
    /// of the dep. Needed because an activated optional dep may carry no
    /// features of its own, in which case the package's feature set is empty
    /// but the edge is live.
    pub active_optional_deps: PackageSets,
    /// Resolver-3 host domain: features activated on build-dependency packages
    /// (compiled for the execution host). The sets are empty under resolvers 1
    /// and 2, where build edges share the target domain.
    pub build_features: PackageSets,
    /// Active optional build-dep edges per package (host domain).
    pub active_build_optional_deps: PackageSets,
    /// Whether there is a host domain: resolvers 1 and 2 have none.
    pub host_domain: bool,
}

impl Default for FeatureMap {
    fn default() -> (r: FeatureMap)
        ensures
            r.is_empty(),
            !r.host_domain,
    {
        FeatureMap {
            packages: PackageSets::new(),
            active_optional_deps: PackageSets::new(),
            build_features: PackageSets::new(),
            active_build_optional_deps: PackageSets::new(),
            host_domain: false,
        }
    }
}

impl FeatureMap {
    /// Whether no package is known.
    pub open spec fn is_empty(self) -> bool {
        let none = Map::<PackageIdView, Set<Seq<char>>>::empty();
        &&& self.packages@ == none
        &&& self.active_optional_deps@ == none
        &&& self.build_features@ == none
        &&& self.active_build_optional_deps@ == none
    }

    /// The activated features of a package in a domain.
    pub open spec fn features_of(self, package: PackageIdView, host: bool) -> Set<Seq<char>> {
        if host && self.host_domain && self.build_features@.contains_key(package) {
            self.build_features@[package]
        } else if self.packages@.contains_key(package) {
            self.packages@[package]
        } else {
            Set::empty()
        }
    }

    /// Whether an optional edge is active in some domain.
    pub open spec fn edge_on(self, package: PackageIdView, extern_name: Seq<char>) -> bool {
        ||| self.active_optional_deps@.contains_key(package)
            && self.active_optional_deps@[package].contains(extern_name)
        ||| self.active_build_optional_deps@.contains_key(package)
            && self.active_build_optional_deps@[package].contains(extern_name)
    }

    /// The activated features of `package` in the given domain; the host domain
    /// falls back to the unified map where there is none, and for a package that it
    /// does not know.
    pub fn features_for(&self, package: &PackageId, host: bool) -> (r: StrSet)
        ensures
            r@ == self.features_of(package@, host),
    {
        if host && self.host_domain {
            if let Some(set) = self.build_features.get(package) {
                return set.clone();
            }
        }
        match self.packages.get(package) {
            Some(set) => set.clone(),
            None => StrSet::new(),
        }
    }

    /// Whether the optional edge `extern_name` of `package` is active in either
    /// domain (build edges live in the host domain under resolver 3).
    pub fn edge_active(&self, package: &PackageId, extern_name: &str) -> (r: bool)
        ensures
            r == self.edge_on(package@, extern_name@),
    {
        if let Some(active) = self.active_optional_deps.get(package) {
            if active.contains(extern_name) {
                return true;
            }
        }
        match self.active_build_optional_deps.get(package) {
            Some(active) => active.contains(extern_name),
            None => false,
        }
    }
}

/// Feature resolution failure, with Cargo-style messages.
#[derive(Clone, Debug, PartialEq, Eq)]
pub enum FeatureError {
    /// A feature name does not exist on the package.
    UnknownFeature { package: String, feature: String },
    /// A `dep/feat` or `dep?/feat` reference names a missing dep feature.
    UnknownDepFeature { package: String, feature: String, dep: String },
    /// A reference names a dependency that does not exist.
    UnknownDep { package: String, dep: String },
    /// A `dep:` or plain reference names a non-optional dependency.
    NotOptionalDep { package: String, feature: String, dep: String },
    /// A request or edge references a package that is not in the model.
    UnknownPackage(String),
}

/// What a feature resolution failure holds.
pub enum FeatureFault {
    UnknownFeature { package: Seq<char>, feature: Seq<char> },
    UnknownDepFeature { package: Seq<char>, feature: Seq<char>, dep: Seq<char> },
    UnknownDep { package: Seq<char>, dep: Seq<char> },
    NotOptionalDep { package: Seq<char>, feature: Seq<char>, dep: Seq<char> },
    UnknownPackage(Seq<char>),
}

impl View for FeatureError {
    type V = FeatureFault;

    open spec fn view(&self) -> FeatureFault {
        match *self {
            FeatureError::UnknownFeature { package, feature } => FeatureFault::UnknownFeature {
                package: package@,
                feature: feature@,
            },
            FeatureError::UnknownDepFeature { package, feature, dep } =>
                FeatureFault::UnknownDepFeature {
                package: package@,
                feature: feature@,
                dep: dep@,
            },
            FeatureError::UnknownDep { package, dep } => FeatureFault::UnknownDep {
                package: package@,
                dep: dep@,
            },
            FeatureError::NotOptionalDep { package, feature, dep } =>
                FeatureFault::NotOptionalDep { package: package@, feature: feature@, dep: dep@ },
            FeatureError::UnknownPackage(name) => FeatureFault::UnknownPackage(name@),
        }
    }
}

/// The message of a feature resolution failure.
pub open spec fn fault_text(fault: FeatureFault) -> Seq<char> {
    match fault {
        FeatureFault::UnknownFeature { package, feature } => "the package `"@ + package
            + "` does not contain the feature `"@ + feature + "`"@,
        FeatureFault::UnknownDepFeature { package, feature, dep } => "the package `"@ + package
            + "` does not contain the feature `"@ + feature + "` of dependency `"@ + dep + "`"@,
        FeatureFault::UnknownDep { package, dep } => "the package `"@ + package
            + "` references dependency `"@ + dep + "`, which is not a dependency of it"@,
        FeatureFault::NotOptionalDep { package, feature, dep } => "feature `"@ + feature
            + "` of package `"@ + package + "` includes `"@ + dep + "`, but `"@ + dep
            + "` is not an optional dependency"@,
        FeatureFault::UnknownPackage(name) => "feature resolution references unknown package `"@
            + name + "`"@,
    }
}

impl FeatureError {
    /// The message.
    pub fn to_text(&self) -> (r: String)
        ensures
            r@ == fault_text(self@),
    {
        match self {
            FeatureError::UnknownFeature { package, feature } => {
                let mut out = cat("the package `", package.as_str());
                out.append("` does not contain the feature `");
                out.append(feature.as_str());
                out.append("`");
                out
            },
            FeatureError::UnknownDepFeature { package, feature, dep } => {
                let mut out = cat("the package `", package.as_str());
                out.append("` does not contain the feature `");
                out.append(feature.as_str());
                out.append("` of dependency `");
                out.append(dep.as_str());
                out.append("`");
                out
            },
            FeatureError::UnknownDep { package, dep } => {
                let mut out = cat("the package `", package.as_str());
                out.append("` references dependency `");
                out.append(dep.as_str());
                out.append("`, which is not a dependency of it");
                out
            },
            FeatureError::NotOptionalDep { package, feature, dep } => {
                let mut out = cat("feature `", feature.as_str());
                out.append("` of package `");
                out.append(package.as_str());
                out.append("` includes `");
                out.append(dep.as_str());
                out.append("`, but `");
                out.append(dep.as_str());
                out.append("` is not an optional dependency");
                out
            },
            FeatureError::UnknownPackage(name) => {
                let mut out = cat(
                    "feature resolution references unknown package `",
                    name.as_str(),
                );
                out.append("`");
                out
            },
        }
    }
}

/// Whether a feature map holds just what a finished resolution has come to.
pub open spec fn records(map: FeatureMap, m: RustModel, facts: Set<Fact>) -> bool {
    &&& map.host_domain == (m.resolver == ResolverVersion::V3)
    &&& map.packages@ == on_map(m, facts, Domain::Target)
    &&& map.active_optional_deps@ == active_map(m, facts, Domain::Target)
    &&& map.build_features@ == on_map(m, facts, Domain::Host)
    &&& map.active_build_optional_deps@ == active_map(m, facts, Domain::Host)
}

/// An edge, by positions.
#[derive(Clone, Copy)]
struct EdgeRef {
    package: usize,
    kind: EdgeKind,
    at: usize,
}

impl EdgeRef {
    spec fn edge(self) -> Edge {
        (self.package as int, self.kind, self.at as int)
    }

    /// Whether two edges are the same.
    fn same(&self, other: &EdgeRef) -> (r: bool)
        ensures
            r == (self.edge() == other.edge()),
    {
        self.package == other.package && self.at == other.at && self.kind == other.kind
    }
}

/// Whether an edge is one of these.
spec fn among(edges: Seq<EdgeRef>, e: Edge) -> bool {
    exists|k: int| 0 <= k < edges.len() && (#[trigger] edges[k]).edge() == e
}

/// What holds of the packages in one domain, by position, and the optional edges
/// that are active there.
struct DomainState {
    on: Vec<StrSet>,
    active: Vec<EdgeRef>,
    expanded: Vec<bool>,
    defaulted: Vec<bool>,
}

impl DomainState {
    spec fn ok(self, n: nat) -> bool {
        self.on@.len() == n && self.expanded@.len() == n && self.defaulted@.len() == n
    }

    spec fn has(self, fact: Fact, d: Domain) -> bool {
        match fact {
            Fact::On(i, f, fd) => fd == d && 0 <= i < self.on@.len() && self.on@[i]@.contains(f),
            Fact::Active(e, fd) => fd == d && among(self.active@, e),
            Fact::Expanded(i, fd) => fd == d && 0 <= i < self.expanded@.len() && self.expanded@[i],
            Fact::Defaulted(i, fd) => fd == d && 0 <= i < self.defaulted@.len()
                && self.defaulted@[i],
        }
    }

    fn new(n: usize) -> (r: DomainState)
        ensures
            r.ok(n as nat),
            r.active@.len() == 0,
            forall|fact: Fact, d: Domain| !r.has(fact, d),
    {
        let mut on: Vec<StrSet> = Vec::new();
        let active: Vec<EdgeRef> = Vec::new();
        let mut expanded: Vec<bool> = Vec::new();
        let mut defaulted: Vec<bool> = Vec::new();
        let mut i: usize = 0;
        while i < n
            invariant
                i <= n,
                on@.len() == i,
                expanded@.len() == i,
                defaulted@.len() == i,
                forall|k: int| 0 <= k < i ==> (#[trigger] on@[k])@ == Set::<Seq<char>>::empty(),
                forall|k: int| 0 <= k < i ==> !(#[trigger] expanded@[k]),
                forall|k: int| 0 <= k < i ==> !(#[trigger] defaulted@[k]),
            decreases n - i,
        {
            on.push(StrSet::new());
            expanded.push(false);
            defaulted.push(false);
            i += 1;
        }
        DomainState { on, active, expanded, defaulted }
    }

    fn turn_on(&mut self, i: usize, feature: String, Ghost(d): Ghost<Domain>) -> (r: bool)
        requires
            i < old(self).on@.len(),
        ensures
            final(self).active@ == old(self).active@,
            r == !old(self).has(Fact::On(i as int, feature@, d), d),
            final(self).on@.len() == old(self).on@.len(),
            final(self).expanded@.len() == old(self).expanded@.len(),
            final(self).defaulted@.len() == old(self).defaulted@.len(),
            forall|fact: Fact, fd: Domain| #[trigger]
                final(self).has(fact, fd) <==> old(self).has(fact, fd) || fact == Fact::On(
                    i as int,
                    feature@,
                    fd,
                ),
    {
        let ghost before = self.on@;
        let r = self.on[i].insert(feature);
        assert(self.on@ == before.update(i as int, self.on@[i as int]));
        r
    }

    fn set_active(&mut self, e: EdgeRef, Ghost(d): Ghost<Domain>) -> (r: bool)
        ensures
            r == !old(self).has(Fact::Active(e.edge(), d), d),
            final(self).active@ == (if r {
                old(self).active@.push(e)
            } else {
                old(self).active@
            }),
            final(self).on@.len() == old(self).on@.len(),
            final(self).expanded@.len() == old(self).expanded@.len(),
            final(self).defaulted@.len() == old(self).defaulted@.len(),
            forall|fact: Fact, fd: Domain| #[trigger]
                final(self).has(fact, fd) <==> old(self).has(fact, fd) || fact == Fact::Active(
                    e.edge(),
                    fd,
                ),
    {
        let mut i: usize = 0;
        while i < self.active.len()
            invariant
                i <= self.active@.len(),
                *self == *old(self),
                forall|k: int| 0 <= k < i ==> (#[trigger] self.active@[k]).edge() != e.edge(),
            decreases self.active@.len() - i,
        {
            if self.active[i].same(&e) {
                return false;
            }
            i += 1;
        }
        let ghost before = self.active@;
        self.active.push(e);
        proof {
            assert(self.active@[before.len() as int] == e);
            assert forall|fact: Fact, fd: Domain| #[trigger]
                self.has(fact, fd) <==> old(self).has(fact, fd) || fact == Fact::Active(
                e.edge(),
                fd,
            ) by {
                if let Fact::Active(x, xd) = fact {
                    if old(self).has(fact, fd) {
                        let k = choose|k: int|
                            0 <= k < before.len() && (#[trigger] before[k]).edge() == x;
                        assert(self.active@[k].edge() == x);
                    }
                    if self.has(fact, fd) {
                        let k = choose|k: int|
                            0 <= k < self.active@.len() && (#[trigger] self.active@[k]).edge()
                                == x;
                        if k < before.len() {
                            assert(before[k].edge() == x);
                        }
                    }
                }
            }
        }
        true
    }
}

/// Work on one feature.
enum Work {
    Feature { package: usize, feature: String, domain: Domain },
    Refs { package: usize, feature: String, next: usize, domain: Domain },
}

impl Work {
    spec fn task(self) -> Task {
        match self {
            Work::Feature { package, feature, domain } => Task::Feature {
                package: package as int,
                feature: feature@,
                domain,
            },
            Work::Refs { package, feature, next, domain } => Task::Refs {
                package: package as int,
                feature: feature@,
                next: next as int,
                domain,
            },
        }
    }
}

/// Workqueue state of the resolution.
struct Resolver<'a> {
    model: &'a RustModel,
    include_dev: bool,
    target: DomainState,
    host: DomainState,
    queue: Vec<(PackageId, String, Domain)>,
    edges: Vec<(EdgeRef, Domain)>,
    stack: Vec<Work>,
    draining: bool,
}

/// The list of `package`'s edges of one kind.
fn list_of(package: &Package, kind: EdgeKind) -> (r: &Vec<Dep>)
    ensures
        r@ == dep_list(*package, kind),
{
    match kind {
        EdgeKind::Normal => &package.deps,
        EdgeKind::Build => &package.build_deps,
        EdgeKind::Dev => &package.dev_deps,
    }
}

/// Whether a dependency goes by this name.
fn matches_name(dep: &Dep, name: &str) -> (r: bool)
    ensures
        r == goes_by(*dep, name@),
{
    let normalized = crate_name(name);
    same(crate_name(dep.extern_name.as_str()).as_str(), normalized.as_str()) || same(
        crate_name(dep.package.name.as_str()).as_str(),
        normalized.as_str(),
    )
}

/// The first edge in a list that goes by this name.
fn position_of(deps: &Vec<Dep>, name: &str) -> (r: Option<usize>)
    ensures
        match r {
            Some(k) => first_named(deps@, name@, 0) == Some(k as int) && k < deps@.len(),
            None => first_named(deps@, name@, 0) is None,
        },
{
    let mut i: usize = 0;
    while i < deps.len()
        invariant
            i <= deps@.len(),
            first_named(deps@, name@, 0) == first_named(deps@, name@, i as int),
        decreases deps@.len() - i,
    {
        if matches_name(&deps[i], name) {
            return Some(i);
        }
        i += 1;
    }
    None
}

/// Whether a dependency's identity is a placeholder.
fn is_provisional(dep: &Dep) -> (r: bool)
    ensures
        r == provisional(*dep),
{
    match &dep.package.source {
        SourceId::Registry(url) => {
            let empty = url.as_str().unicode_len() == 0;
            proof {
                if empty {
                    assert(url@ =~= Seq::<char>::empty());
                }
            }
            empty
        },
        _ => false,
    }
}

/// Whether a name is that of a native import.
pub fn is_native(model: &RustModel, name: &str) -> (r: bool)
    ensures
        r == native(*model, name@),
{
    let mut i: usize = 0;
    while i < model.cc_imports.len()
        invariant
            i <= model.cc_imports@.len(),
            forall|k: int| 0 <= k < i ==> (#[trigger] model.cc_imports@[k]).name@ != name@,
        decreases model.cc_imports@.len() - i,
    {
        if same(model.cc_imports[i].name.as_str(), name) {
            return true;
        }
        i += 1;
    }
    false
}

/// Whether a list of edges takes part in a domain.
fn is_part(resolver: ResolverVersion, include_dev: bool, kind: EdgeKind, domain: Domain) -> (r: bool)
    ensures
        r == takes_part(resolver, include_dev, kind, domain),
{
    match (kind, domain) {
        (EdgeKind::Normal, Domain::Target) => true,
        (EdgeKind::Build, Domain::Target) => resolver != ResolverVersion::V3,
        (EdgeKind::Dev, Domain::Target) => include_dev || resolver == ResolverVersion::V1,
        (EdgeKind::Normal, Domain::Host) => resolver == ResolverVersion::V3,
        (EdgeKind::Build, Domain::Host) => resolver == ResolverVersion::V3,
        (EdgeKind::Dev, Domain::Host) => false,
    }
}

/// The position of the package with this identity.
pub fn position_of_package(packages: &Vec<Package>, id: &PackageId) -> (r: Option<usize>)
    ensures
        match r {
            Some(i) => find(packages@, id@) == Some(i as int) && i < packages@.len(),
            None => find(packages@, id@) is None,
        },
{
    let mut i: usize = packages.len();
    assert(packages@.take(packages@.len() as int) =~= packages@);
    while i > 0
        invariant
            i <= packages@.len(),
            find(packages@, id@) == find(packages@.take(i as int), id@),
        decreases i,
    {
        let ghost t = packages@.take(i as int);
        assert(t.last() == packages@[i - 1]);
        assert(t.drop_last() =~= packages@.take(i - 1));
        i -= 1;
        if packages[i].id.same(id) {
            return Some(i);
        }
    }
    None
}

/// Whether a package has a feature of this name.
fn has_feature(package: &Package, feature: &str) -> (r: bool)
    ensures
        r == offers(*package, feature@),
{
    if package.features.contains_key(feature) {
        return true;
    }
    let mut i: usize = 0;
    while i < package.deps.len()
        invariant
            i <= package.deps@.len(),
            forall|k: int|
                0 <= k < i ==> !((#[trigger] package.deps@[k]).optional && goes_by(
                    package.deps@[k],
                    feature@,
                )),
        decreases package.deps@.len() - i,
    {
        if package.deps[i].optional && matches_name(&package.deps[i], feature) {
            return true;
        }
        i += 1;
    }
    false
}

/// What an exec step has come to.
spec fn agrees(r: Result<(), FeatureError>, after: Resolution, want: Result<Resolution, FeatureFault>) -> bool {
    match r {
        Ok(_) => want == Ok::<Resolution, FeatureFault>(after),
        Err(e) => want == Err::<Resolution, FeatureFault>(e@),
    }
}

impl<'a> Resolver<'a> {
    spec fn n(self) -> nat {
        self.model.packages@.len()
    }

    spec fn facts(self) -> Set<Fact> {
        Set::new(
            |fact: Fact|
                self.target.has(fact, Domain::Target) || self.host.has(fact, Domain::Host),
        )
    }

    spec fn state(self) -> Resolution {
        Resolution {
            facts: self.facts(),
            queue: self.queue@.map_values(|x: (PackageId, String, Domain)| (x.0@, x.1@, x.2)),
            edges: self.edges@.map_values(|x: (EdgeRef, Domain)| (x.0.edge(), x.1)),
            stack: self.stack@.map_values(|w: Work| w.task()),
            draining: self.draining,
        }
    }

    spec fn ok(self) -> bool {
        &&& self.target.ok(self.n())
        &&& self.host.ok(self.n())
        &&& forall|k: int|
            0 <= k < self.target.active@.len() ==> edge_ok(
                self.model.packages@,
                (#[trigger] self.target.active@[k]).edge(),
            )
        &&& forall|k: int|
            0 <= k < self.host.active@.len() ==> edge_ok(
                self.model.packages@,
                (#[trigger] self.host.active@[k]).edge(),
            )
        &&& state_ok(*self.model, self.state())
    }

    /// Marks a feature active; tells whether it was not.
    fn mark_feature(&mut self, i: usize, feature: String, d: Domain) -> (r: bool)
        requires
            old(self).ok(),
            i < old(self).n(),
        ensures
            final(self).ok(),
            final(self).model == old(self).model,
            final(self).include_dev == old(self).include_dev,
            r == !old(self).state().facts.contains(Fact::On(i as int, feature@, d)),
            final(self).state() == (Resolution {
                facts: old(self).state().facts.insert(Fact::On(i as int, feature@, d)),
                ..old(self).state()
            }),
    {
        let ghost before = self.facts();
        let ghost st = self.state();
        let ghost fact = Fact::On(i as int, feature@, d);
        let r = match d {
            Domain::Target => self.target.turn_on(i, feature, Ghost(d)),
            Domain::Host => self.host.turn_on(i, feature, Ghost(d)),
        };
        assert(self.facts() =~= before.insert(fact));
        assert(self.state().edges =~= st.edges && self.state().stack =~= st.stack);
        assert(state_ok(*self.model, self.state()));
        r
    }

    /// Marks an optional edge active; tells whether it was not.
    fn mark_edge(&mut self, e: EdgeRef, d: Domain) -> (r: bool)
        requires
            old(self).ok(),
            edge_ok(old(self).model.packages@, e.edge()),
        ensures
            final(self).ok(),
            final(self).model == old(self).model,
            final(self).include_dev == old(self).include_dev,
            r == !old(self).state().facts.contains(Fact::Active(e.edge(), d)),
            final(self).state() == (Resolution {
                facts: old(self).state().facts.insert(Fact::Active(e.edge(), d)),
                ..old(self).state()
            }),
    {
        let ghost before = self.facts();
        let ghost st = self.state();
        let ghost fact = Fact::Active(e.edge(), d);
        let r = match d {
            Domain::Target => self.target.set_active(e, Ghost(d)),
            Domain::Host => self.host.set_active(e, Ghost(d)),
        };
        assert(self.facts() =~= before.insert(fact));
        assert(self.state().edges =~= st.edges && self.state().stack =~= st.stack);
        assert(state_ok(*self.model, self.state()));
        r
    }

    /// Queues the plain edges of a list that takes part in a domain.
    fn push_plain(&mut self, i: usize, kind: EdgeKind, d: Domain)
        requires
            old(self).ok(),
            i < old(self).n(),
        ensures
            final(self).ok(),
            final(self).model == old(self).model,
            final(self).include_dev == old(self).include_dev,
            final(self).state() == (Resolution {
                edges: old(self).state().edges + plain_of(
                    *old(self).model,
                    old(self).include_dev,
                    i as int,
                    kind,
                    d,
                ),
                ..old(self).state()
            }),
    {
        let ghost st = self.state();
        let ghost m = *self.model;
        if !is_part(self.model.resolver, self.include_dev, kind, d) {
            assert(self.state().edges =~= st.edges + Seq::empty());
            return;
        }
        let model: &'a RustModel = self.model;
        let deps = list_of(&model.packages[i], kind);
        let mut k: usize = 0;
        assert(self.state().edges =~= st.edges + plain_edges(m, i as int, kind, d, 0));
        while k < deps.len()
            invariant
                k <= deps@.len(),
                deps@ == dep_list(m.packages@[i as int], kind),
                m == *model,
                self.model == model,
                self.include_dev == old(self).include_dev,
                i < m.packages@.len(),
                self.ok(),
                self.state() == (Resolution {
                    edges: st.edges + plain_edges(m, i as int, kind, d, k as int),
                    ..st
                }),
            decreases deps@.len() - k,
        {
            if !deps[k].optional && !is_native(model, deps[k].package.name.as_str()) {
                let ghost before = self.state();
                self.edges.push((EdgeRef { package: i, kind, at: k }, d));
                proof {
                    assert(dep_at(m.packages@, (i as int, kind, k as int)) == deps@[k as int]);
                    assert(self.state().edges =~= before.edges.push(
                        ((i as int, kind, k as int), d),
                    ));
                    assert(self.facts() =~= before.facts);
                    assert(self.state().edges =~= st.edges + plain_edges(
                        m,
                        i as int,
                        kind,
                        d,
                        k as int + 1,
                    ));
                    assert forall|x: int| 0 <= x < self.state().edges.len() implies edge_ok(
                        m.packages@,
                        (#[trigger] self.state().edges[x]).0,
                    ) by {
                        if x < before.edges.len() {
                            assert(self.state().edges[x] == before.edges[x]);
                        }
                    }
                    assert(self.state().stack =~= before.stack);
                    assert(state_ok(m, self.state()));
                }
            } else {
                assert(dep_at(m.packages@, (i as int, kind, k as int)) == deps@[k as int]);
            }
            k += 1;
        }
    }

    /// Activates the package's non-optional edges in `d` exactly once per
    /// (package, domain).
    fn ensure_expanded(&mut self, i: usize, d: Domain)
        requires
            old(self).ok(),
            i < old(self).n(),
        ensures
            final(self).ok(),
            final(self).model == old(self).model,
            final(self).include_dev == old(self).include_dev,
            final(self).state() == expand(
                *old(self).model,
                old(self).include_dev,
                old(self).state(),
                i as int,
                d,
            ),
    {
        let ghost before = self.facts();
        let ghost st = self.state();
        let ghost fact = Fact::Expanded(i as int, d);
        match d {
            Domain::Target => {
                if self.target.expanded[i] {
                    assert(before.contains(fact));
                    return;
                }
                self.target.expanded[i] = true;
            },
            Domain::Host => {
                if self.host.expanded[i] {
                    assert(before.contains(fact));
                    return;
                }
                self.host.expanded[i] = true;
            },
        }
        assert(self.facts() =~= before.insert(fact));
        assert(self.state().edges =~= st.edges && self.state().stack =~= st.stack);
        assert(state_ok(*self.model, self.state()));
        assert(!before.contains(fact));
        self.push_plain(i, EdgeKind::Normal, d);
        self.push_plain(i, EdgeKind::Build, d);
        self.push_plain(i, EdgeKind::Dev, d);
    }

    /// Queues a feature.
    fn enqueue(&mut self, package: &PackageId, feature: &str, d: Domain)
        requires
            old(self).ok(),
        ensures
            final(self).ok(),
            final(self).model == old(self).model,
            final(self).include_dev == old(self).include_dev,
            final(self).state() == (Resolution {
                queue: old(self).state().queue.push((package@, feature@, d)),
                ..old(self).state()
            }),
    {
        let ghost before = self.state();
        self.queue.push((package.clone(), owned(feature), d));
        assert(self.facts() =~= before.facts);
        assert(self.state().queue =~= before.queue.push((package@, feature@, d)));
    }

    /// Queues all of these features.
    fn enqueue_all(&mut self, package: &PackageId, features: &Vec<String>, d: Domain)
        requires
            old(self).ok(),
        ensures
            final(self).ok(),
            final(self).model == old(self).model,
            final(self).include_dev == old(self).include_dev,
            final(self).state() == (Resolution {
                queue: old(self).state().queue + asked(package@, features@, d),
                ..old(self).state()
            }),
    {
        let ghost st = self.state();
        let ghost all = asked(package@, features@, d);
        let mut k: usize = 0;
        assert(st.queue + all.take(0) =~= st.queue);
        while k < features.len()
            invariant
                k <= features@.len(),
                all == asked(package@, features@, d),
                self.ok(),
                self.model == old(self).model,
                self.include_dev == old(self).include_dev,
                self.state() == (Resolution { queue: st.queue + all.take(k as int), ..st }),
            decreases features@.len() - k,
        {
            self.enqueue(package, features[k].as_str(), d);
            k += 1;
            assert((st.queue + all.take(k as int - 1)).push(all[k as int - 1]) =~= st.queue
                + all.take(k as int));
        }
        assert(all.take(all.len() as int) =~= all);
    }

    fn mark_default(&mut self, i: usize, d: Domain)
        requires
            old(self).ok(),
            i < old(self).n(),
        ensures
            final(self).ok(),
            final(self).model == old(self).model,
            final(self).include_dev == old(self).include_dev,
            final(self).state() == ask_default(
                *old(self).model,
                old(self).state(),
                i as int,
                d,
            ),
    {
        let ghost before = self.facts();
        let ghost st = self.state();
        let ghost fact = Fact::Defaulted(i as int, d);
        match d {
            Domain::Target => {
                if self.target.defaulted[i] {
                    assert(before.contains(fact));
                    return;
                }
                self.target.defaulted[i] = true;
            },
            Domain::Host => {
                if self.host.defaulted[i] {
                    assert(before.contains(fact));
                    return;
                }
                self.host.defaulted[i] = true;
            },
        }
        assert(self.facts() =~= before.insert(fact));
        assert(self.state().edges =~= st.edges && self.state().stack =~= st.stack);
        assert(state_ok(*self.model, self.state()));
        assert(!before.contains(fact));
        let model: &'a RustModel = self.model;
        if model.packages[i].has_default_feature {
            self.enqueue(&model.packages[i].id, "default", d);
        }
    }

    /// Activates a dependency edge in `d`: for optional edges, marks it active
    /// (once), then applies the edge's default-feature and feature list to the
    /// dependency package. Non-optional edges apply unconditionally.
    fn activate_edge(&mut self, e: EdgeRef, d: Domain) -> (r: Result<(), FeatureError>)
        requires
            old(self).ok(),
            edge_ok(old(self).model.packages@, e.edge()),
        ensures
            final(self).model == old(self).model,
            final(self).include_dev == old(self).include_dev,
            r is Ok ==> final(self).ok(),
            agrees(
                r,
                final(self).state(),
                activate(
                    *old(self).model,
                    old(self).include_dev,
                    old(self).state(),
                    e.edge(),
                    d,
                ),
            ),
    {
        let model: &'a RustModel = self.model;
        let package = &model.packages[e.package];
        let dep = &list_of(package, e.kind)[e.at];
        proof {
            assert(*dep == dep_at(model.packages@, e.edge()));
        }
        if dep.optional {
            let ghost before = self.state();
            if !self.mark_edge(e, d) {
                assert(before.facts.insert(Fact::Active(e.edge(), d)) =~= before.facts);
                return Ok(());
            }
        }
        if is_native(model, dep.package.name.as_str()) || is_provisional(dep) {
            return Ok(());
        }
        match position_of_package(&model.packages, &dep.package) {
            None => Err(FeatureError::UnknownPackage(dep.package.name.clone())),
            Some(j) => {
                self.ensure_expanded(j, d);
                if dep.default_features {
                    self.mark_default(j, d);
                }
                self.enqueue_all(&dep.package, &dep.features, d);
                Ok(())
            },
        }
    }

    /// Finds a dependency by declared name or extern name across every edge
    /// kind, returning the edge and the domain that a feature on in `d` activates
    /// it in.
    fn edge(&self, i: usize, name: &str, d: Domain) -> (r: Option<(EdgeRef, Domain)>)
        requires
            i < self.n(),
        ensures
            match r {
                Some((e, ed)) => named_edge(*self.model, self.include_dev, i as int, name@, d)
                    == Some((e.edge(), ed)) && edge_ok(self.model.packages@, e.edge()),
                None => named_edge(*self.model, self.include_dev, i as int, name@, d) is None,
            },
    {
        let package = &self.model.packages[i];
        if let Some(at) = position_of(&package.deps, name) {
            return Some((EdgeRef { package: i, kind: EdgeKind::Normal, at }, d));
        }
        if let Some(at) = position_of(&package.build_deps, name) {
            let domain = if self.model.resolver == ResolverVersion::V3 {
                Domain::Host
            } else {
                d
            };
            return Some((EdgeRef { package: i, kind: EdgeKind::Build, at }, domain));
        }
        if self.include_dev {
            if let Some(at) = position_of(&package.dev_deps, name) {
                return Some((EdgeRef { package: i, kind: EdgeKind::Dev, at }, d));
            }
        }
        None
    }

    /// Puts a task on the stack.
    fn push_work(&mut self, work: Work)
        requires
            old(self).ok(),
            task_ok(*old(self).model, work.task()),
        ensures
            final(self).ok(),
            final(self).model == old(self).model,
            final(self).include_dev == old(self).include_dev,
            final(self).state() == (Resolution {
                stack: old(self).state().stack.push(work.task()),
                ..old(self).state()
            }),
    {
        let ghost before = self.state();
        self.stack.push(work);
        proof {
            assert(self.facts() =~= before.facts);
            assert(self.state().stack =~= before.stack.push(work.task()));
            assert forall|k: int| 0 <= k < self.state().stack.len() implies task_ok(
                *self.model,
                #[trigger] self.state().stack[k],
            ) by {
                if k < before.stack.len() {
                    assert(self.state().stack[k] == before.stack[k]);
                }
            }
        }
    }

    /// Turns a declared feature on; its references are followed, the first time.
    fn open(&mut self, i: usize, feature: &str, d: Domain)
        requires
            old(self).ok(),
            i < old(self).n(),
            old(self).model.packages@[i as int].features@.contains_key(feature@),
        ensures
            final(self).model == old(self).model,
            final(self).include_dev == old(self).include_dev,
            final(self).ok(),
            final(self).state() == open_feature(
                *old(self).model,
                old(self).include_dev,
                old(self).state(),
                i as int,
                feature@,
                d,
            ),
    {
        let ghost before = self.state();
        if self.mark_feature(i, owned(feature), d) {
            self.ensure_expanded(i, d);
            self.push_work(Work::Refs { package: i, feature: owned(feature), next: 0, domain: d });
        } else {
            assert(before.facts.insert(Fact::On(i as int, feature@, d)) =~= before.facts);
        }
    }

    /// Lists the name of an optional dependency among the package's features.
    fn list(&mut self, i: usize, name: &str, d: Domain)
        requires
            old(self).ok(),
            i < old(self).n(),
        ensures
            final(self).model == old(self).model,
            final(self).include_dev == old(self).include_dev,
            final(self).ok(),
            final(self).state() == list_name(
                *old(self).model,
                old(self).include_dev,
                old(self).state(),
                i as int,
                name@,
                d,
            ),
    {
        let model: &'a RustModel = self.model;
        if model.packages[i].features.contains_key(name) {
            self.open(i, name, d);
        } else {
            self.mark_feature(i, owned(name), d);
        }
    }

    fn process(&mut self, i: usize, feature: &str, d: Domain) -> (r: Result<(), FeatureError>)
        requires
            old(self).ok(),
            i < old(self).n(),
        ensures
            final(self).model == old(self).model,
            final(self).include_dev == old(self).include_dev,
            r is Ok ==> final(self).ok(),
            agrees(
                r,
                final(self).state(),
                turn_on(
                    *old(self).model,
                    old(self).include_dev,
                    old(self).state(),
                    i as int,
                    feature@,
                    d,
                ),
            ),
    {
        let model: &'a RustModel = self.model;
        let package = &model.packages[i];
        if package.features.contains_key(feature) {
            self.open(i, feature, d);
            return Ok(());
        }
        // A plain name matching an optional dep activates it; the activation is
        // recorded both as an edge and as a feature name.
        match self.edge(i, feature, d) {
            Some((e, ed)) => {
                let dep = &list_of(&model.packages[e.package], e.kind)[e.at];
                assert(*dep == dep_at(model.packages@, e.edge()));
                if dep.optional {
                    match self.activate_edge(e, ed) {
                        Ok(_) => {
                            self.list(i, dep.package.name.as_str(), d);
                            Ok(())
                        },
                        Err(err) => Err(err),
                    }
                } else {
                    Err(
                        FeatureError::NotOptionalDep {
                            package: package.id.name.clone(),
                            feature: owned(feature),
                            dep: dep.extern_name.clone(),
                        },
                    )
                }
            },
            None => Err(
                FeatureError::UnknownFeature {
                    package: package.id.name.clone(),
                    feature: owned(feature),
                },
            ),
        }
    }

    fn enqueue_dep_feature(&mut self, dep: &Dep, d: Domain, feature: &str, reference: &str) -> (r: Result<
        (),
        FeatureError,
    >)
        requires
            old(self).ok(),
        ensures
            final(self).model == old(self).model,
            final(self).include_dev == old(self).include_dev,
            r is Ok ==> final(self).ok(),
            agrees(
                r,
                final(self).state(),
                queue_dep_feature(
                    *old(self).model,
                    old(self).state(),
                    *dep,
                    d,
                    feature@,
                    reference@,
                ),
            ),
    {
        if is_provisional(dep) {
            return Ok(());
        }
        let model: &'a RustModel = self.model;
        match position_of_package(&model.packages, &dep.package) {
            None => Err(FeatureError::UnknownPackage(dep.package.name.clone())),
            Some(j) => {
                if has_feature(&model.packages[j], feature) {
                    self.enqueue(&dep.package, feature, d);
                    Ok(())
                } else {
                    Err(
                        FeatureError::UnknownDepFeature {
                            package: model.packages[j].name.clone(),
                            feature: owned(reference),
                            dep: dep.extern_name.clone(),
                        },
                    )
                }
            },
        }
    }

    fn process_reference(&mut self, i: usize, reference: &str, d: Domain) -> (r: Result<
        (),
        FeatureError,
    >)
        requires
            old(self).ok(),
            i < old(self).n(),
        ensures
            final(self).model == old(self).model,
            final(self).include_dev == old(self).include_dev,
            r is Ok ==> final(self).ok(),
            agrees(
                r,
                final(self).state(),
                follow(
                    *old(self).model,
                    old(self).include_dev,
                    old(self).state(),
                    i as int,
                    reference@,
                    d,
                ),
            ),
    {
        let model: &'a RustModel = self.model;
        let package = &model.packages[i];
        // `dep:x`: namespaced activation of an optional dependency.
        if let Some(name) = strip_prefix(reference, "dep:") {
            return match self.edge(i, name.as_str(), d) {
                None => Err(
                    FeatureError::UnknownDep { package: package.id.name.clone(), dep: name },
                ),
                Some((e, ed)) => {
                    let dep = &list_of(&model.packages[e.package], e.kind)[e.at];
                    assert(*dep == dep_at(model.packages@, e.edge()));
                    if dep.optional {
                        self.activate_edge(e, ed)
                    } else if package.optional_anywhere.contains(name.as_str()) {
                        // Optional in any table makes the reference legal; where
                        // the merged edge is plain the dependency is already
                        // active.
                        Ok(())
                    } else {
                        Err(
                            FeatureError::NotOptionalDep {
                                package: package.id.name.clone(),
                                feature: owned(reference),
                                dep: dep.extern_name.clone(),
                            },
                        )
                    }
                },
            };
        }
        // Plain name: a declared feature or an implicit optional dep.
        if !has_char(reference, '/') {
            self.push_work(
                Work::Feature { package: i, feature: owned(reference), domain: d },
            );
            return Ok(());
        }
        let (name, weak, feature) = split_reference(reference);
        match self.edge(i, name.as_str(), d) {
            None => Err(FeatureError::UnknownDep { package: package.id.name.clone(), dep: name }),
            Some((e, ed)) => {
                let dep = &list_of(&model.packages[e.package], e.kind)[e.at];
                assert(*dep == dep_at(model.packages@, e.edge()));
                match self.activate_edge(e, ed) {
                    Err(err) => Err(err),
                    Ok(_) => {
                        // A strong reference lists the dep's own name among the
                        // package's features; a weak one does not.
                        if !weak && dep.optional {
                            self.list(i, dep.package.name.as_str(), d);
                        }
                        self.enqueue_dep_feature(dep, ed, feature.as_str(), reference)
                    },
                }
            },
        }
    }

    /// Takes one step; tells whether there was one to take.
    fn advance(&mut self) -> (r: Result<bool, FeatureError>)
        requires
            old(self).ok(),
        ensures
            final(self).model == old(self).model,
            final(self).include_dev == old(self).include_dev,
            r is Ok ==> final(self).ok(),
            match r {
                Ok(true) => step(*old(self).model, old(self).include_dev, old(self).state())
                    == Outcome::Running(final(self).state()),
                Ok(false) => step(*old(self).model, old(self).include_dev, old(self).state())
                    == Outcome::Finished(final(self).state()),
                Err(e) => step(*old(self).model, old(self).include_dev, old(self).state())
                    == Outcome::Failed(e@),
            },
    {
        let ghost before = self.state();
        let ghost m = *self.model;
        proof {
            lemma_step(m, self.include_dev, before);
        }
        let model: &'a RustModel = self.model;
        if let Some(work) = self.stack.pop() {
            let ghost rest = Resolution { stack: before.stack.drop_last(), ..before };
            proof {
                assert(self.facts() =~= before.facts);
                assert(self.state().stack =~= rest.stack);
                assert(before.stack.last() == work.task());
                assert(task_ok(m, before.stack.last()));
                assert(self.state() == rest);
            }
            return match work {
                Work::Feature { package, feature, domain } => {
                    match self.process(package, feature.as_str(), domain) {
                        Ok(_) => Ok(true),
                        Err(err) => Err(err),
                    }
                },
                Work::Refs { package, feature, next, domain } => {
                    match model.packages[package].features.get(feature.as_str()) {
                        None => Ok(true),
                        Some(references) => {
                            if next < references.len() {
                                let text = references[next].as_str();
                                self.push_work(
                                    Work::Refs { package, feature, next: next + 1, domain },
                                );
                                match self.process_reference(package, text, domain) {
                                    Ok(_) => Ok(true),
                                    Err(err) => Err(err),
                                }
                            } else {
                                Ok(true)
                            }
                        },
                    }
                },
            };
        }
        if self.draining {
            if let Some((e, d)) = self.edges.pop() {
                proof {
                    assert(self.facts() =~= before.facts);
                    assert(self.state().edges =~= before.edges.drop_last());
                    assert(before.edges.last() == (e.edge(), d));
                    assert(edge_ok(m.packages@, before.edges[before.edges.len() - 1].0));
                }
                return match self.activate_edge(e, d) {
                    Ok(_) => Ok(true),
                    Err(err) => Err(err),
                };
            }
            self.draining = false;
            assert(self.facts() =~= before.facts);
            return Ok(true);
        }
        if let Some((id, feature, domain)) = self.queue.pop() {
            proof {
                assert(self.facts() =~= before.facts);
                assert(self.state().queue =~= before.queue.drop_last());
                assert(before.queue.last() == (id@, feature@, domain));
            }
            return match position_of_package(&model.packages, &id) {
                None => Err(FeatureError::UnknownPackage(id.name)),
                Some(package) => {
                    let ghost t = Task::Feature { package: package as int, feature: feature@, domain };
                    self.push_work(Work::Feature { package, feature, domain });
                    assert(self.state().stack =~= seq![t]);
                    Ok(true)
                },
            };
        }
        if self.edges.len() > 0 {
            self.draining = true;
            assert(self.facts() =~= before.facts);
            return Ok(true);
        }
        Ok(false)
    }
}

/// Takes a `dep/feat` or `dep?/feat` reference apart.
fn split_reference(reference: &str) -> (r: (String, bool, String))
    ensures
        (r.0@, r.1, r.2@) == dep_reference(reference@),
{
    match split_once(reference, '/') {
        Some((left, feature)) => match strip_suffix(left.as_str(), "?") {
            Some(name) => (name, true, feature),
            None => (left, false, feature),
        },
        None => {
            let none = String::new();
            proof {
                reveal_strlit("");
                assert(none@ =~= Seq::<char>::empty());
            }
            (owned(reference), false, none)
        },
    }
}

/// Whether an edge is one of the package at a position, by this extern name.
spec fn names_edge(m: RustModel, e: EdgeRef, i: int, x: Seq<char>) -> bool {
    e.package == i && dep_at(m.packages@, e.edge()).extern_name@ == x
}

/// The extern names of these edges, by package.
fn active_names(model: &RustModel, edges: &Vec<EdgeRef>) -> (r: Vec<StrSet>)
    requires
        forall|k: int|
            0 <= k < edges@.len() ==> edge_ok(model.packages@, (#[trigger] edges@[k]).edge()),
    ensures
        r@.len() == model.packages@.len(),
        forall|i: int, x: Seq<char>|
            0 <= i < r@.len() ==> (#[trigger] r@[i]@.contains(x) <==> exists|k: int|
                0 <= k < edges@.len() && names_edge(*model, #[trigger] edges@[k], i, x)),
{
    let mut r: Vec<StrSet> = Vec::new();
    let mut i: usize = 0;
    while i < model.packages.len()
        invariant
            i <= model.packages@.len(),
            r@.len() == i,
            forall|k: int| 0 <= k < i ==> (#[trigger] r@[k])@ == Set::<Seq<char>>::empty(),
        decreases model.packages@.len() - i,
    {
        r.push(StrSet::new());
        i += 1;
    }
    let mut n: usize = 0;
    while n < edges.len()
        invariant
            n <= edges@.len(),
            r@.len() == model.packages@.len(),
            forall|k: int|
                0 <= k < edges@.len() ==> edge_ok(model.packages@, (#[trigger] edges@[k]).edge()),
            forall|i: int, x: Seq<char>|
                0 <= i < r@.len() ==> (#[trigger] r@[i]@.contains(x) <==> exists|k: int|
                    0 <= k < n && names_edge(*model, #[trigger] edges@[k], i, x)),
        decreases edges@.len() - n,
    {
        let e = edges[n];
        assert(edge_ok(model.packages@, edges@[n as int].edge()));
        let dep = &list_of(&model.packages[e.package], e.kind)[e.at];
        assert(*dep == dep_at(model.packages@, e.edge()));
        let ghost before = r@;
        r[e.package].insert(dep.extern_name.clone());
        proof {
            assert(r@ == before.update(e.package as int, r@[e.package as int]));
            assert forall|i: int, x: Seq<char>| 0 <= i < r@.len() implies (
            #[trigger] r@[i]@.contains(x) <==> exists|k: int|
                0 <= k < n + 1 && names_edge(*model, #[trigger] edges@[k], i, x)) by {
                if r@[i]@.contains(x) {
                    if before[i]@.contains(x) {
                        let k = choose|k: int|
                            0 <= k < n && names_edge(*model, #[trigger] edges@[k], i, x);
                        assert(names_edge(*model, edges@[k], i, x));
                    } else {
                        assert(names_edge(*model, edges@[n as int], i, x));
                    }
                }
                if exists|k: int| 0 <= k < n + 1 && names_edge(*model, #[trigger] edges@[k], i, x) {
                    let k = choose|k: int|
                        0 <= k < n + 1 && names_edge(*model, #[trigger] edges@[k], i, x);
                    if k < n {
                        assert(names_edge(*model, edges@[k], i, x));
                        assert(before[i]@.contains(x));
                    }
                }
            }
        }
        n += 1;
    }
    r
}

/// The packages of the model with their sets; those with an empty set only
/// where `all` is given.
fn by_package(model: &RustModel, sets: &Vec<StrSet>, all: bool) -> (r: PackageSets)
    requires
        sets@.len() == model.packages@.len(),
    ensures
        r@ == Map::new(
            |id: PackageIdView|
                find(model.packages@, id) is Some && (all || sets@[find(model.packages@, id)->0]@
                    != Set::<Seq<char>>::empty()),
            |id: PackageIdView| sets@[find(model.packages@, id)->0]@,
        ),
{
    let ghost ps = model.packages@;
    let mut entries: Vec<(PackageId, StrSet)> = Vec::new();
    let mut i: usize = 0;
    let ghost mut from: Seq<int> = Seq::empty();
    while i < sets.len()
        invariant
            i <= sets@.len(),
            ps == model.packages@,
            sets@.len() == ps.len(),
            from.len() == entries@.len(),
            forall|k: int|
                0 <= k < from.len() ==> 0 <= #[trigger] from[k] < i && find(ps, ps[from[k]].id@)
                    == Some(from[k]) && entries@[k].0@ == ps[from[k]].id@ && entries@[k].1@
                    == sets@[from[k]]@ && (all || sets@[from[k]]@ != Set::<Seq<char>>::empty()),
            forall|k: int, l: int|
                0 <= k < l < from.len() ==> #[trigger] from[k] < #[trigger] from[l],
            forall|x: int|
                0 <= x < i && find(ps, (#[trigger] ps[x]).id@) == Some(x) && (all || sets@[x]@
                    != Set::<Seq<char>>::empty()) ==> from.contains(x),
        decreases sets@.len() - i,
    {
        let ghost before = from;
        let mut keep = all;
        if !keep {
            keep = !sets[i].is_empty();
        }
        match position_of_package(&model.packages, &model.packages[i].id) {
            Some(at) => {
                if at == i && keep {
                    entries.push((model.packages[i].id.clone(), sets[i].clone()));
                    proof {
                        from = from.push(i as int);
                        assert(from[from.len() - 1] == i);
                    }
                }
            },
            None => {},
        }
        proof {
            assert forall|x: int|
                0 <= x < i + 1 && find(ps, (#[trigger] ps[x]).id@) == Some(x) && (all || sets@[x]@
                    != Set::<Seq<char>>::empty()) implies from.contains(x) by {
                if x < i {
                    assert(before.contains(x));
                    let k = choose|k: int| 0 <= k < before.len() && before[k] == x;
                    assert(from[k] == x);
                } else {
                    assert(from[from.len() - 1] == x);
                }
            }
        }
        i += 1;
    }
    proof {
        assert forall|k: int, l: int| 0 <= k < l < entries@.len() implies (
        #[trigger] entries@[k]).0@ != (#[trigger] entries@[l]).0@ by {
            assert(from[k] < from[l]);
        }
    }
    let r = PackageSets::from_entries(entries);
    proof {
        let want = Map::new(
            |id: PackageIdView|
                find(ps, id) is Some && (all || sets@[find(ps, id)->0]@ != Set::<
                    Seq<char>,
                >::empty()),
            |id: PackageIdView| sets@[find(ps, id)->0]@,
        );
        assert forall|id: PackageIdView| r@.contains_key(id) <==> want.contains_key(id) by {
            if r@.contains_key(id) {
                let k = choose|k: int|
                    0 <= k < r.entries().len() && (#[trigger] r.entries()[k]).0@ == id;
                assert(0 <= from[k] < ps.len());
            }
            if want.contains_key(id) {
                lemma_find(ps, id);
                let x = find(ps, id)->0;
                assert(ps[x].id@ == id);
                assert(from.contains(x));
                let k = choose|k: int| 0 <= k < from.len() && from[k] == x;
                assert(r@.contains_key(entries@[k].0@));
            }
        }
        assert forall|id: PackageIdView| r@.contains_key(id) implies r@[id] == want[id] by {
            assert(want.contains_key(id));
            lemma_find(ps, id);
            let x = find(ps, id)->0;
            assert(ps[x].id@ == id);
            assert(from.contains(x));
            let k = choose|k: int| 0 <= k < from.len() && from[k] == x;
            assert(r@.contains_key(entries@[k].0@));
        }
        assert(r@ =~= want);
    }
    r
}

/// Resolves the feature activation state of the whole model under the model's
/// selected resolver version.
///
/// `requests` seed the workspace members. Non-optional dep edges of every
/// package are always active within their domain; optional edges activate only
/// through features. `include_dev_deps` additionally treats dev-dep edges as
/// active in the target domain (test builds; dev-deps are excluded from normal
/// builds, like Cargo; resolver 1 unifies them regardless).
pub fn resolve_features(
    model: &RustModel,
    requests: &[FeatureRequest],
    include_dev_deps: bool,
) -> (r: Result<FeatureMap, FeatureError>)
    ensures
        match resolution(*model, requests@, include_dev_deps) {
            Outcome::Finished(st) => r is Ok && records(r->Ok_0, *model, st.facts),
            Outcome::Failed(fault) => r is Err && r->Err_0@ == fault,
            Outcome::Running(_) => false,
        },
{
    let n = model.packages.len();
    let mut state = Resolver {
        model,
        include_dev: include_dev_deps,
        target: DomainState::new(n),
        host: DomainState::new(n),
        queue: Vec::new(),
        edges: Vec::new(),
        stack: Vec::new(),
        draining: false,
    };
    let ghost m = *model;
    let ghost from = begun(m, include_dev_deps, requests@);
    proof {
        let st = state.state();
        let zero = requested(m, include_dev_deps, requests@, 0)->Ok_0;
        assert(st.facts =~= zero.facts);
        assert(st.queue =~= zero.queue);
        assert(st.edges =~= zero.edges);
        assert(st.stack =~= zero.stack);
        lemma_begun(m, include_dev_deps, requests@);
    }
    // The requests, in the target domain. Expansion covers the rest of the
    // graph: members reach their deps, deps reach their deps.
    let mut k: usize = 0;
    while k < requests.len()
        invariant
            k <= requests@.len(),
            m == *model,
            state.ok(),
            state.model == model,
            state.include_dev == include_dev_deps,
            requested(m, include_dev_deps, requests@, k as int) == Ok::<Resolution, FeatureFault>(
                state.state(),
            ),
            from == begun(m, include_dev_deps, requests@),
        decreases requests@.len() - k,
    {
        let request = &requests[k];
        match position_of_package(&model.packages, &request.package) {
            Some(i) => {
                state.ensure_expanded(i, Domain::Target);
                if request.default_features {
                    state.mark_default(i, Domain::Target);
                }
            },
            None => {
                proof {
                    lemma_requested_fails(
                        m,
                        include_dev_deps,
                        requests@,
                        k as int + 1,
                        requests@.len() as int,
                    );
                    assert(!(run(m, include_dev_deps, from, 0) is Running));
                    lemma_resolution(m, requests@, include_dev_deps, 0);
                }
                return Err(FeatureError::UnknownPackage(request.package.name.clone()));
            },
        }
        state.enqueue_all(&request.package, &request.features, Domain::Target);
        k += 1;
    }
    // Packages with build scripts compile their build-dependencies for the
    // host, which resolver 3 keeps apart.
    if model.resolver == ResolverVersion::V3 {
        let ghost seeds = host_edges(m, n as int);
        let ghost base = state.state();
        let ghost mut done: int = 0;
        proof {
            lemma_host_edges(m, n as int);
            lemma_host_prefix(m, 0, n as int);
        }
        let mut p: usize = 0;
        while p < n
            invariant
                p <= n,
                n == m.packages@.len(),
                m == *model,
                state.ok(),
                state.model == model,
                state.include_dev == include_dev_deps,
                seeds == host_edges(m, n as int),
                done == host_edges(m, p as int).len(),
                activate_all(m, include_dev_deps, base, seeds, done) == Ok::<
                    Resolution,
                    FeatureFault,
                >(state.state()),
                from == crate::resolution::went_on(
                    activate_all(m, include_dev_deps, base, seeds, seeds.len() as int),
                ),
                from == begun(m, include_dev_deps, requests@),
            decreases n - p,
        {
            let package = &model.packages[p];
            let ghost start = done;
            if package.build_script.is_some() {
                let mut j: usize = 0;
                while j < package.build_deps.len()
                    invariant
                        j <= package.build_deps@.len(),
                        p < n,
                        n == m.packages@.len(),
                        m == *model,
                        *package == m.packages@[p as int],
                        package.build_script is Some,
                        state.ok(),
                        state.model == model,
                        state.include_dev == include_dev_deps,
                        seeds == host_edges(m, n as int),
                        start == host_edges(m, p as int).len(),
                        done == start + plain_edges(
                            m,
                            p as int,
                            EdgeKind::Build,
                            Domain::Host,
                            j as int,
                        ).len(),
                        activate_all(m, include_dev_deps, base, seeds, done) == Ok::<
                            Resolution,
                            FeatureFault,
                        >(state.state()),
                        from == crate::resolution::went_on(
                            activate_all(m, include_dev_deps, base, seeds, seeds.len() as int),
                        ),
                        from == begun(m, include_dev_deps, requests@),
                    decreases package.build_deps@.len() - j,
                {
                    let dep = &package.build_deps[j];
                    let ghost e: Edge = (p as int, EdgeKind::Build, j as int);
                    assert(dep_at(m.packages@, e) == *dep);
                    if !dep.optional && !is_native(model, dep.package.name.as_str()) {
                        proof {
                            lemma_host_edges(m, n as int);
                            lemma_seed_at(m, p as int, j as int, n as int);
                        }
                        let ghost before = state.state();
                        match state.activate_edge(
                            EdgeRef { package: p, kind: EdgeKind::Build, at: j },
                            Domain::Host,
                        ) {
                            Ok(_) => {},
                            Err(err) => {
                                proof {
                                    lemma_activate_all_fails(
                                        m,
                                        include_dev_deps,
                                        base,
                                        seeds,
                                        done + 1,
                                        seeds.len() as int,
                                    );
                                    assert(!(run(m, include_dev_deps, from, 0) is Running));
                                    lemma_resolution(m, requests@, include_dev_deps, 0);
                                }
                                return Err(err);
                            },
                        }
                        proof {
                            done = done + 1;
                        }
                    }
                    j += 1;
                }
            }
            p += 1;
        }
    }
    let ghost mut steps: nat = 0;
    assert(run(m, include_dev_deps, from, 0) == Outcome::Running(state.state()));
    loop
        invariant_except_break
            run(m, include_dev_deps, from, steps) == Outcome::Running(state.state()),
        invariant
            m == *model,
            state.ok(),
            state.model == model,
            state.include_dev == include_dev_deps,
            from == begun(m, include_dev_deps, requests@),
        ensures
            resolution(m, requests@, include_dev_deps) == Outcome::Finished(state.state()),
        decreases
                effort(m, state.state()).0,
                effort(m, state.state()).1,
                effort(m, state.state()).2,
                effort(m, state.state()).3,
    {
        proof {
            lemma_step(m, include_dev_deps, state.state());
        }
        match state.advance() {
            Err(err) => {
                proof {
                    assert(run(m, include_dev_deps, from, steps + 1) == Outcome::Failed(err@));
                    lemma_resolution(m, requests@, include_dev_deps, steps + 1);
                }
                return Err(err);
            },
            Ok(more) => {
                proof {
                    assert(run(m, include_dev_deps, from, steps + 1) == step(
                        m,
                        include_dev_deps,
                        run(m, include_dev_deps, from, steps)->Running_0,
                    ));
                    steps = steps + 1;
                    if !more {
                        lemma_resolution(m, requests@, include_dev_deps, steps);
                    }
                }
                if !more {
                    break;
                }
            },
        }
    }
    let target_active = active_names(model, &state.target.active);
    let host_active = active_names(model, &state.host.active);
    let map = FeatureMap {
        packages: by_package(model, &state.target.on, true),
        active_optional_deps: by_package(model, &target_active, false),
        build_features: by_package(model, &state.host.on, true),
        active_build_optional_deps: by_package(model, &host_active, false),
        host_domain: match model.resolver {
            ResolverVersion::V3 => true,
            _ => false,
        },
    };
    proof {
        let facts = state.facts();
        assert forall|i: int| 0 <= i < n implies #[trigger] on_of(facts, i, Domain::Target)
            == state.target.on@[i]@ by {
            assert(on_of(facts, i, Domain::Target) =~= state.target.on@[i]@);
        }
        assert forall|i: int| 0 <= i < n implies #[trigger] on_of(facts, i, Domain::Host)
            == state.host.on@[i]@ by {
            assert(on_of(facts, i, Domain::Host) =~= state.host.on@[i]@);
        }
        assert forall|i: int| 0 <= i < n implies #[trigger] active_of(m, facts, i, Domain::Target)
            == target_active@[i]@ by {
            let want = active_of(m, facts, i, Domain::Target);
            assert forall|x: Seq<char>| want.contains(x) <==> target_active@[i]@.contains(x) by {
                if want.contains(x) {
                    let e = choose|e: Edge|
                        #![trigger facts.contains(Fact::Active(e, Domain::Target))]
                        facts.contains(Fact::Active(e, Domain::Target)) && e.0 == i && dep_at(
                            m.packages@,
                            e,
                        ).extern_name@ == x;
                    let k = choose|k: int|
                        0 <= k < state.target.active@.len() && (
                        #[trigger] state.target.active@[k]).edge() == e;
                    assert(state.target.active@[k].edge() == e);
                }
                if target_active@[i]@.contains(x) {
                    let k = choose|k: int|
                        0 <= k < state.target.active@.len() && names_edge(
                            m,
                            #[trigger] state.target.active@[k],
                            i,
                            x,
                        );
                    let e = state.target.active@[k].edge();
                    assert(facts.contains(Fact::Active(e, Domain::Target)));
                }
            }
            assert(want =~= target_active@[i]@);
        }
        assert forall|i: int| 0 <= i < n implies #[trigger] active_of(m, facts, i, Domain::Host)
            == host_active@[i]@ by {
            let want = active_of(m, facts, i, Domain::Host);
            assert forall|x: Seq<char>| want.contains(x) <==> host_active@[i]@.contains(x) by {
                if want.contains(x) {
                    let e = choose|e: Edge|
                        #![trigger facts.contains(Fact::Active(e, Domain::Host))]
                        facts.contains(Fact::Active(e, Domain::Host)) && e.0 == i && dep_at(
                            m.packages@,
                            e,
                        ).extern_name@ == x;
                    let k = choose|k: int|
                        0 <= k < state.host.active@.len() && (
                        #[trigger] state.host.active@[k]).edge() == e;
                    assert(state.host.active@[k].edge() == e);
                }
                if host_active@[i]@.contains(x) {
                    let k = choose|k: int|
                        0 <= k < state.host.active@.len() && names_edge(
                            m,
                            #[trigger] state.host.active@[k],
                            i,
                            x,
                        );
                    let e = state.host.active@[k].edge();
                    assert(facts.contains(Fact::Active(e, Domain::Host)));
                }
            }
            assert(want =~= host_active@[i]@);
        }
        assert forall|id: PackageIdView| (#[trigger] find(m.packages@, id)) is Some implies 0
            <= find(m.packages@, id)->0 < n by {
            lemma_find(m.packages@, id);
        }
        assert(map.packages@ =~= on_map(m, facts, Domain::Target));
        assert(map.active_optional_deps@ =~= active_map(m, facts, Domain::Target));
        assert(map.build_features@ =~= on_map(m, facts, Domain::Host));
        assert(map.active_build_optional_deps@ =~= active_map(m, facts, Domain::Host));
    }
    Ok(map)
}

/// The host edges of the first packages come first.
proof fn lemma_host_prefix(m: RustModel, a: int, b: int)
    requires
        0 <= a <= b <= m.packages@.len(),
    ensures
        host_edges(m, a).len() <= host_edges(m, b).len(),
        host_edges(m, a) == host_edges(m, b).take(host_edges(m, a).len() as int),
    decreases b,
{
    if a < b {
        lemma_host_prefix(m, a, b - 1);
        assert(host_edges(m, a) =~= host_edges(m, b).take(host_edges(m, a).len() as int));
    } else {
        assert(host_edges(m, a) =~= host_edges(m, b).take(host_edges(m, a).len() as int));
    }
}

/// The plain edges of the first entries come first.
proof fn lemma_plain_prefix(m: RustModel, i: int, kind: EdgeKind, d: Domain, a: int, b: int)
    requires
        0 <= a <= b,
    ensures
        plain_edges(m, i, kind, d, a).len() <= plain_edges(m, i, kind, d, b).len(),
        plain_edges(m, i, kind, d, a) == plain_edges(m, i, kind, d, b).take(
            plain_edges(m, i, kind, d, a).len() as int,
        ),
    decreases b,
{
    if a < b {
        lemma_plain_prefix(m, i, kind, d, a, b - 1);
    }
    assert(plain_edges(m, i, kind, d, a) =~= plain_edges(m, i, kind, d, b).take(
        plain_edges(m, i, kind, d, a).len() as int,
    ));
}

/// Where a plain build edge stands among the host edges.
proof fn lemma_seed_at(m: RustModel, p: int, j: int, n: int)
    requires
        0 <= p < n <= m.packages@.len(),
        0 <= j < m.packages@[p].build_deps@.len(),
        m.packages@[p].build_script is Some,
        plain(m, (p, EdgeKind::Build, j)),
    ensures
        ({
            let at = host_edges(m, p).len() + plain_edges(
                m,
                p,
                EdgeKind::Build,
                Domain::Host,
                j,
            ).len();
            at < host_edges(m, n).len() && host_edges(m, n)[at as int] == (
                (p, EdgeKind::Build, j),
                Domain::Host,
            )
        }),
{
    let total = m.packages@[p].build_deps@.len() as int;
    lemma_plain_prefix(m, p, EdgeKind::Build, Domain::Host, j + 1, total);
    lemma_host_prefix(m, p + 1, n);
    let mine = plain_edges(m, p, EdgeKind::Build, Domain::Host, total);
    let at = plain_edges(m, p, EdgeKind::Build, Domain::Host, j).len() as int;
    assert(plain_edges(m, p, EdgeKind::Build, Domain::Host, j + 1)[at] == (
        (p, EdgeKind::Build, j),
        Domain::Host,
    ));
    assert(mine.take(at + 1)[at] == mine[at]);
    let both = host_edges(m, p + 1);
    assert(both[host_edges(m, p).len() + at] == mine[at]);
    assert(host_edges(m, n).take(both.len() as int)[host_edges(m, p).len() + at] == host_edges(
        m,
        n,
    )[host_edges(m, p).len() + at]);
}

/// A failure among the first requests is the failure of all.
proof fn lemma_requested_fails(
    m: RustModel,
    dev: bool,
    requests: Seq<FeatureRequest>,
    a: int,
    b: int,
)
    requires
        0 <= a <= b,
        requested(m, dev, requests, a) is Err,
    ensures
        requested(m, dev, requests, b) == requested(m, dev, requests, a),
    decreases b,
{
    if a < b {
        lemma_requested_fails(m, dev, requests, a, b - 1);
    }
}

/// A failure among the first edges is the failure of all.
proof fn lemma_activate_all_fails(
    m: RustModel,
    dev: bool,
    from: Resolution,
    edges: Seq<(Edge, Domain)>,
    a: int,
    b: int,
)
    requires
        0 <= a <= b,
        activate_all(m, dev, from, edges, a) is Err,
    ensures
        activate_all(m, dev, from, edges, b) == activate_all(m, dev, from, edges, a),
    decreases b,
{
    if a < b {
        lemma_activate_all_fails(m, dev, from, edges, a, b - 1);
    }
}

} // verus!
