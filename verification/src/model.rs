//! The target model: packages, their targets and their dependency edges.
//!
//! Native targets and imported Cargo manifests lower into this model; actions
//! are planned from it. It stays close to Cargo's package model because Rust's
//! compiler is package-based.

use vstd::prelude::*;
use vstd::string::*;
use crate::features::FeatureMap;
use crate::strmap::{StrMap, StrSet};
use crate::text::{
    cat, decimal, ends, ends_with, owned, push_string, push_text, quote, quoted, replace_char,
    replace_spec, same, slice, split_once, split_once_spec, starts, starts_with, strip_prefix,
    strip_prefix_spec, texts, to_chars, u64_text,
};
use crate::version::{version_text, Version, VersionView};

verus! {

/// Exact package identity: name, version and source.
///
/// This is the identity used everywhere a package is *keyed*: feature
/// resolution, the lockfile, planned-action maps, and dependency edges. The
/// declared name and version remain presentation and compiler fields; they are
/// never an identity.
#[derive(Debug, PartialEq, Eq, Hash)]
pub struct PackageId {
    /// Declared package name (may contain hyphens).
    pub name: String,
    /// Resolved version.
    pub version: Version,
    /// Canonical source.
    pub source: SourceId,
}

/// What a package identity holds.
pub struct PackageIdView {
    pub name: Seq<char>,
    pub version: VersionView,
    pub source: SourceView,
}

/// Canonical package source.
///
/// `Workspace` and `Path` carry normalized forward-slash lexical paths relative
/// to the workspace root (leading `../` for declared outside path dependencies),
/// never absolute host paths, so action digests never depend on where the
/// workspace lives.
#[derive(Debug, PartialEq, Eq, Hash)]
pub enum SourceId {
    /// A workspace member.
    Workspace(String),
    /// A path dependency (inside or outside the workspace root).
    Path(String),
    /// A registry source (canonical index URL).
    Registry(String),
    /// A Git source (canonical URL and exact commit).
    Git { url: String, rev: String },
}

/// What a source holds.
pub enum SourceView {
    Workspace(Seq<char>),
    Path(Seq<char>),
    Registry(Seq<char>),
    Git { url: Seq<char>, rev: Seq<char> },
}

impl View for SourceId {
    type V = SourceView;

    open spec fn view(&self) -> SourceView {
        match *self {
            SourceId::Workspace(rel) => SourceView::Workspace(rel@),
            SourceId::Path(rel) => SourceView::Path(rel@),
            SourceId::Registry(url) => SourceView::Registry(url@),
            SourceId::Git { url, rev } => SourceView::Git { url: url@, rev: rev@ },
        }
    }
}

impl View for PackageId {
    type V = PackageIdView;

    open spec fn view(&self) -> PackageIdView {
        PackageIdView { name: self.name@, version: self.version@, source: self.source@ }
    }
}

impl Clone for SourceId {
    fn clone(&self) -> (r: SourceId)
        ensures
            r == *self,
    {
        match self {
            SourceId::Workspace(rel) => SourceId::Workspace(rel.clone()),
            SourceId::Path(rel) => SourceId::Path(rel.clone()),
            SourceId::Registry(url) => SourceId::Registry(url.clone()),
            SourceId::Git { url, rev } => SourceId::Git { url: url.clone(), rev: rev.clone() },
        }
    }
}

impl Clone for PackageId {
    fn clone(&self) -> (r: PackageId)
        ensures
            r == *self,
    {
        PackageId {
            name: self.name.clone(),
            version: self.version.clone(),
            source: self.source.clone(),
        }
    }
}

/// The lockfile source string of a source.
pub open spec fn lock_source_text(source: SourceView) -> Seq<char> {
    match source {
        SourceView::Workspace(rel) => "path+"@ + rel,
        SourceView::Path(rel) => "path+"@ + rel,
        SourceView::Registry(url) => "registry+"@ + url,
        SourceView::Git { url, rev } => "git+"@ + url + "#"@ + rev,
    }
}

/// What a lockfile source string stands for.
pub open spec fn lock_source_parsed(text: Seq<char>) -> Result<SourceView, Seq<char>> {
    if let Some(url) = strip_prefix_spec(text, "registry+"@) {
        Ok(SourceView::Registry(url))
    } else if let Some(rest) = strip_prefix_spec(text, "git+"@) {
        match split_once_spec(rest, '#') {
            Some((url, rev)) => Ok(SourceView::Git { url, rev }),
            None => Err("git source "@ + quoted(text) + " has no revision"@),
        }
    } else {
        Err("unsupported lock source "@ + quoted(text))
    }
}

/// The view of a source or of an error message.
pub open spec fn source_result(r: Result<SourceId, String>) -> Result<SourceView, Seq<char>> {
    match r {
        Ok(source) => Ok(source@),
        Err(message) => Err(message@),
    }
}

impl SourceId {
    /// The lockfile source string: `path+<rel>`, `registry+<index>`, or
    /// `git+<url>#<rev>`.
    pub fn lock_source(&self) -> (r: String)
        ensures
            r@ == lock_source_text(self@),
    {
        match self {
            SourceId::Workspace(rel) => cat("path+", rel.as_str()),
            SourceId::Path(rel) => cat("path+", rel.as_str()),
            SourceId::Registry(url) => cat("registry+", url.as_str()),
            SourceId::Git { url, rev } => {
                let mut out = cat("git+", url.as_str());
                out.append("#");
                out.append(rev.as_str());
                out
            },
        }
    }

    /// Reads a lockfile source string.
    pub fn parse_lock_source(text: &str) -> (r: Result<SourceId, String>)
        ensures
            source_result(r) == lock_source_parsed(text@),
    {
        if let Some(url) = strip_prefix(text, "registry+") {
            return Ok(SourceId::Registry(url));
        }
        if let Some(rest) = strip_prefix(text, "git+") {
            match split_once(rest.as_str(), '#') {
                Some((url, rev)) => Ok(SourceId::Git { url, rev }),
                None => {
                    let mut message = cat("git source ", quote(text).as_str());
                    message.append(" has no revision");
                    Err(message)
                },
            }
        } else {
            Err(cat("unsupported lock source ", quote(text).as_str()))
        }
    }

    /// Whether two sources are the same.
    pub fn same(&self, other: &SourceId) -> (r: bool)
        ensures
            r == (self@ == other@),
    {
        match (self, other) {
            (SourceId::Workspace(a), SourceId::Workspace(b)) => same(a.as_str(), b.as_str()),
            (SourceId::Path(a), SourceId::Path(b)) => same(a.as_str(), b.as_str()),
            (SourceId::Registry(a), SourceId::Registry(b)) => same(a.as_str(), b.as_str()),
            (SourceId::Git { url: a, rev: x }, SourceId::Git { url: b, rev: y }) => same(
                a.as_str(),
                b.as_str(),
            ) && same(x.as_str(), y.as_str()),
            _ => false,
        }
    }
}

/// Reading back the lockfile source string of a registry or Git source gives
/// the source; a Git URL must hold no `#`, or the revision would begin there.
pub proof fn lock_source_round_trip(source: SourceView)
    requires
        source is Registry || source is Git,
        source is Git ==> !source->url.contains('#'),
    ensures
        lock_source_parsed(lock_source_text(source)) == Ok::<SourceView, Seq<char>>(source),
{
    reveal_strlit("registry+");
    reveal_strlit("git+");
    reveal_strlit("#");
    let text = lock_source_text(source);
    match source {
        SourceView::Registry(url) => {
            assert(text.take(9) =~= "registry+"@);
            assert(text.skip(9) =~= url);
        },
        SourceView::Git { url, rev } => {
            assert(text[0] == 'g');
            assert("registry+"@[0] == 'r');
            if text.len() >= 9 {
                assert(text.take(9)[0] == 'g');
            }
            assert(text.take(4) =~= "git+"@);
            let rest = text.skip(4);
            assert(rest =~= url + "#"@ + rev);
            assert(rest[url.len() as int] == '#');
            rest.index_of_first_ensures('#');
            assert(rest.contains('#'));
            let k = rest.index_of_first('#')->0;
            if k < url.len() {
                assert(url[k] == '#');
            }
            assert(k == url.len());
            assert(rest.take(k) =~= url);
            assert(rest.skip(k + 1) =~= rev);
        },
        _ => {},
    }
}

/// A path source is never read back: the lockfile holds locked sources only.
pub proof fn path_sources_are_not_locked(rel: Seq<char>)
    ensures
        lock_source_parsed(lock_source_text(SourceView::Path(rel))) is Err,
        lock_source_parsed(lock_source_text(SourceView::Workspace(rel))) is Err,
{
    reveal_strlit("path+");
    reveal_strlit("registry+");
    reveal_strlit("git+");
    let text = "path+"@ + rel;
    assert(text[0] == 'p');
    if text.len() >= 9 {
        assert(text.take(9)[0] == 'p');
    }
    if text.len() >= 4 {
        assert(text.take(4)[0] == 'p');
    }
}

/// How an identity is shown: name and version, and where it comes from unless
/// that is a path.
pub open spec fn package_id_text(id: PackageIdView) -> Seq<char> {
    let head = id.name + "@"@ + version_text(id.version);
    match id.source {
        SourceView::Workspace(_) => head,
        SourceView::Path(_) => head,
        SourceView::Registry(url) => head + " (registry "@ + url + ")"@,
        SourceView::Git { url, rev } => head + " (git "@ + url + "#"@ + rev + ")"@,
    }
}

impl PackageId {
    /// The lockfile source string for this identity: `path+<rel>`,
    /// `registry+<index>`, or `git+<url>#<rev>`.
    pub fn lock_source(&self) -> (r: String)
        ensures
            r@ == lock_source_text(self@.source),
    {
        self.source.lock_source()
    }

    /// The identity as text.
    pub fn to_text(&self) -> (r: String)
        ensures
            r@ == package_id_text(self@),
    {
        let mut out = self.name.clone();
        out.append("@");
        out.append(self.version.to_text().as_str());
        match &self.source {
            SourceId::Workspace(_) => {},
            SourceId::Path(_) => {},
            SourceId::Registry(url) => {
                out.append(" (registry ");
                out.append(url.as_str());
                out.append(")");
            },
            SourceId::Git { url, rev } => {
                out.append(" (git ");
                out.append(url.as_str());
                out.append("#");
                out.append(rev.as_str());
                out.append(")");
            },
        }
        out
    }

    /// Whether two identities are the same.
    pub fn same(&self, other: &PackageId) -> (r: bool)
        ensures
            r == (self@ == other@),
    {
        same(self.name.as_str(), other.name.as_str()) && self.version.same(&other.version)
            && self.source.same(&other.source)
    }
}

/// Cargo resolver semantics selected for the workspace.
#[derive(Clone, Copy, Debug, PartialEq, Eq, Structural, PartialOrd, Ord)]
pub enum ResolverVersion {
    /// Resolver 1 (pre-2021 default): a single feature domain; features unify
    /// across normal, build, and dev dependencies.
    V1,
    /// Resolver 2 (2021 default): dev-dependencies are a separate feature
    /// domain; normal and build dependencies unify.
    V2,
    /// Resolver 3 (2024 default): build-dependencies are a separate host domain
    /// too; a package used as both a normal and a build dependency keeps
    /// independent feature sets.
    V3,
}

/// Cargo's resolver selection: an explicit version wins, else the edition picks.
pub open spec fn selected_resolver(
    resolver: Option<Seq<char>>,
    edition: Edition,
) -> Result<ResolverVersion, Seq<char>> {
    match resolver {
        Some(text) => if text == "1"@ {
            Ok(ResolverVersion::V1)
        } else if text == "2"@ {
            Ok(ResolverVersion::V2)
        } else if text == "3"@ {
            Ok(ResolverVersion::V3)
        } else {
            Err("unsupported resolver version "@ + quoted(text))
        },
        None => match edition {
            Edition::E2015 | Edition::E2018 => Ok(ResolverVersion::V1),
            Edition::E2021 => Ok(ResolverVersion::V2),
            Edition::E2024 => Ok(ResolverVersion::V3),
        },
    }
}

impl ResolverVersion {
    /// Cargo's resolver selection: an explicit `resolver = "1"|"2"|"3"` wins;
    /// otherwise the package edition picks the default (2024 gives 3, 2021
    /// gives 2, older gives 1).
    pub fn from_manifest(resolver: Option<&str>, edition: Edition) -> (r: Result<
        ResolverVersion,
        String,
    >)
        ensures
            (match r {
                Ok(v) => Ok::<ResolverVersion, Seq<char>>(v),
                Err(message) => Err(message@),
            }) == selected_resolver(
                match resolver {
                    Some(text) => Some(text@),
                    None => None,
                },
                edition,
            ),
    {
        proof {
            reveal_strlit("1");
            reveal_strlit("2");
            reveal_strlit("3");
        }
        match resolver {
            Some(text) => if same(text, "1") {
                Ok(ResolverVersion::V1)
            } else if same(text, "2") {
                Ok(ResolverVersion::V2)
            } else if same(text, "3") {
                Ok(ResolverVersion::V3)
            } else {
                Err(cat("unsupported resolver version ", quote(text).as_str()))
            },
            None => Ok(
                match edition {
                    Edition::E2015 | Edition::E2018 => ResolverVersion::V1,
                    Edition::E2021 => ResolverVersion::V2,
                    Edition::E2024 => ResolverVersion::V3,
                },
            ),
        }
    }
}

/// The full set of Rust targets to build.
pub struct RustModel {
    /// Workspace packages.
    pub packages: Vec<Package>,
    /// Identities of the workspace-member packages (feature-resolution seeds
    /// and lockfile roots).
    pub members: Vec<PackageId>,
    /// Named, resolved profiles.
    pub profiles: StrMap<ProfileSpec>,
    /// Per profile, the specs that single packages compile with instead.
    pub package_profiles: StrMap<StrMap<ProfileSpec>>,
    /// Imported prebuilt native libraries.
    pub cc_imports: Vec<CcImport>,
    /// Workspace-wide rustc flags.
    pub global_rustflags: Vec<String>,
    /// Workspace-wide environment.
    pub global_env: StrMap<String>,
    /// Resolved feature activation (set before planning).
    pub feature_map: FeatureMap,
    /// Cargo resolver semantics for feature resolution.
    pub resolver: ResolverVersion,
    /// Workspace packages built by default (empty: every member).
    pub default_members: Vec<PackageId>,
}

impl Default for RustModel {
    fn default() -> (r: RustModel)
        ensures
            r.packages@.len() == 0,
            r.members@.len() == 0,
            r.profiles@ == Map::<Seq<char>, ProfileSpec>::empty(),
            r.package_profiles@ == Map::<Seq<char>, StrMap<ProfileSpec>>::empty(),
            r.cc_imports@.len() == 0,
            r.global_rustflags@.len() == 0,
            r.global_env@ == Map::<Seq<char>, String>::empty(),
            r.feature_map.is_empty(),
            r.resolver == ResolverVersion::V2,
            r.default_members@.len() == 0,
    {
        RustModel {
            packages: Vec::new(),
            members: Vec::new(),
            profiles: StrMap::new(),
            package_profiles: StrMap::new(),
            cc_imports: Vec::new(),
            global_rustflags: Vec::new(),
            global_env: StrMap::new(),
            feature_map: FeatureMap::default(),
            resolver: ResolverVersion::V2,
            default_members: Vec::new(),
        }
    }
}

/// A Rust package (one crate compilation unit).
#[derive(Clone, Debug)]
pub struct Package {
    /// Exact package identity (name, version and source).
    pub id: PackageId,
    /// Package name (may contain hyphens): a presentation and compiler field.
    pub name: String,
    /// Source root directory, relative to the workspace root.
    pub dir: String,
    /// Package version: a presentation and compiler field.
    pub version: String,
    /// Rust edition.
    pub edition: Edition,
    /// Library target, if any (or proc macro).
    pub lib: Option<LibTarget>,
    /// Binary targets.
    pub bins: Vec<BinTarget>,
    /// Example targets (compiled like binaries; built in test and
    /// `--all-targets` builds).
    pub examples: Vec<ExampleTarget>,
    /// Test targets (`[[test]]`, `[[bench]]`, auto lib unit test).
    pub tests: Vec<TestTarget>,
    /// Build script, relative to `dir`.
    pub build_script: Option<String>,
    /// `links` value of the native library this package links (Cargo: one
    /// package per value; the build script's metadata is exported to direct
    /// dependents as `DEP_<LINKS>_<KEY>`).
    pub links: Option<String>,
    /// Normal dependencies.
    pub deps: Vec<Dep>,
    /// Declared names of dependencies that are optional in some dependency
    /// table, whichever host that table is for.
    pub optional_anywhere: StrSet,
    /// Build-script-only dependencies.
    pub build_deps: Vec<Dep>,
    /// Dev-dependencies (test and example builds only).
    pub dev_deps: Vec<Dep>,
    /// Declared features: feature name to list of `feature` / `dep:` /
    /// `dep/feat` / `dep?/feat` references.
    pub features: StrMap<Vec<String>>,
    /// Whether the package declares a `default` feature.
    pub has_default_feature: bool,
    /// Extra per-package rustc flags.
    pub rustflags: Vec<String>,
    /// Extra per-package environment.
    pub env: StrMap<String>,
}

/// Rust edition.
#[derive(Clone, Copy, Debug, PartialEq, Eq, Structural)]
pub enum Edition {
    /// 2015
    E2015,
    /// 2018
    E2018,
    /// 2021
    E2021,
    /// 2024
    E2024,
}

/// The year of an edition.
pub open spec fn edition_text(edition: Edition) -> Seq<char> {
    match edition {
        Edition::E2015 => "2015"@,
        Edition::E2018 => "2018"@,
        Edition::E2021 => "2021"@,
        Edition::E2024 => "2024"@,
    }
}

impl Edition {
    /// The rustc `--edition` value.
    pub fn to_rustc(self) -> (r: &'static str)
        ensures
            r@ == edition_text(self),
    {
        match self {
            Edition::E2015 => "2015",
            Edition::E2018 => "2018",
            Edition::E2021 => "2021",
            Edition::E2024 => "2024",
        }
    }
}

/// The library target of a package.
#[derive(Clone, Debug)]
pub struct LibTarget {
    /// `[lib] name` override; the crate name used for the rlib filename and
    /// `--crate-name` (falls back to the package name).
    pub name: Option<String>,
    /// Crate types to compile; empty means `[Rlib]`.
    pub crate_types: Vec<CrateType>,
    /// Compile as a proc macro (host only).
    pub proc_macro: bool,
    /// Crate root, relative to the package directory.
    pub path: String,
}

/// A binary target.
#[derive(Clone, Debug)]
pub struct BinTarget {
    /// Output name.
    pub name: String,
    /// rustc `--crate-name` (defaults to the sanitized target name).
    pub crate_name: String,
    /// Crate root, relative to the package directory.
    pub path: String,
    /// Features that must all be active for this target to build.
    pub required_features: Vec<String>,
}

/// An example target (`[[example]]` or auto-discovered `examples/*`).
#[derive(Clone, Debug)]
pub struct ExampleTarget {
    /// Output name.
    pub name: String,
    /// rustc `--crate-name`.
    pub crate_name: String,
    /// Crate root, relative to the package directory.
    pub path: String,
    /// Features that must all be active for this target to build.
    pub required_features: Vec<String>,
}

/// A test target (`[[test]]`, `[[bench]]`, or the auto-derived lib unit test).
#[derive(Clone, Debug)]
pub struct TestTarget {
    /// Target name (the test binary name).
    pub name: String,
    /// Crate root, relative to the package directory.
    pub path: String,
    /// Whether the target uses the libtest harness (`--test`).
    pub harness: bool,
    /// Whether the target is a benchmark.
    pub bench: bool,
    /// Whether the target is a doc test.
    pub doc: bool,
    /// Makes the test-run action cacheable; Cargo-imported runs stay uncached.
    pub cache_test_result: bool,
    /// Features that must all be active for this target to build.
    pub required_features: Vec<String>,
}

/// A dependency edge on another package in the graph.
#[derive(Clone, Debug)]
pub struct Dep {
    /// `--extern` name used by the dependent crate.
    pub extern_name: String,
    /// Exact identity of the dependency package.
    pub package: PackageId,
    /// Optional dependency (only linked when activated via features).
    pub optional: bool,
    /// Whether the dependency's default feature is enabled.
    pub default_features: bool,
    /// Features requested on the dependency.
    pub features: Vec<String>,
    /// Target-specific dependency: the `cfg(...)` expression (e.g. `cfg(unix)`)
    /// or literal target triple that must match the host.
    pub target: Option<String>,
}

/// What a library target holds.
pub struct LibView {
    pub name: Option<Seq<char>>,
    pub crate_types: Seq<CrateType>,
    pub proc_macro: bool,
    pub path: Seq<char>,
}

/// What a binary or an example target holds.
pub struct BinView {
    pub name: Seq<char>,
    pub crate_name: Seq<char>,
    pub path: Seq<char>,
    pub required_features: Seq<Seq<char>>,
}

/// What a test target holds.
pub struct TestView {
    pub name: Seq<char>,
    pub path: Seq<char>,
    pub harness: bool,
    pub bench: bool,
    pub doc: bool,
    pub cache_test_result: bool,
    pub required_features: Seq<Seq<char>>,
}

/// What a dependency edge holds.
pub struct DepView {
    pub extern_name: Seq<char>,
    pub package: PackageIdView,
    pub optional: bool,
    pub default_features: bool,
    pub features: Seq<Seq<char>>,
    pub target: Option<Seq<char>>,
}

/// What a package holds.
pub struct PackageView {
    pub id: PackageIdView,
    pub name: Seq<char>,
    pub dir: Seq<char>,
    pub version: Seq<char>,
    pub edition: Edition,
    pub lib: Option<LibView>,
    pub bins: Seq<BinView>,
    pub examples: Seq<BinView>,
    pub tests: Seq<TestView>,
    pub build_script: Option<Seq<char>>,
    pub links: Option<Seq<char>>,
    pub deps: Seq<DepView>,
    pub optional_anywhere: Set<Seq<char>>,
    pub build_deps: Seq<DepView>,
    pub dev_deps: Seq<DepView>,
    pub features: Map<Seq<char>, Seq<Seq<char>>>,
    pub has_default_feature: bool,
    pub rustflags: Seq<Seq<char>>,
    pub env: Map<Seq<char>, Seq<char>>,
}

impl View for LibTarget {
    type V = LibView;

    open spec fn view(&self) -> LibView {
        LibView {
            name: crate::text::opt_view(self.name),
            crate_types: self.crate_types@,
            proc_macro: self.proc_macro,
            path: self.path@,
        }
    }
}

impl View for BinTarget {
    type V = BinView;

    open spec fn view(&self) -> BinView {
        BinView {
            name: self.name@,
            crate_name: self.crate_name@,
            path: self.path@,
            required_features: texts(self.required_features@),
        }
    }
}

impl View for ExampleTarget {
    type V = BinView;

    open spec fn view(&self) -> BinView {
        BinView {
            name: self.name@,
            crate_name: self.crate_name@,
            path: self.path@,
            required_features: texts(self.required_features@),
        }
    }
}

impl View for TestTarget {
    type V = TestView;

    open spec fn view(&self) -> TestView {
        TestView {
            name: self.name@,
            path: self.path@,
            harness: self.harness,
            bench: self.bench,
            doc: self.doc,
            cache_test_result: self.cache_test_result,
            required_features: texts(self.required_features@),
        }
    }
}

impl View for Dep {
    type V = DepView;

    open spec fn view(&self) -> DepView {
        DepView {
            extern_name: self.extern_name@,
            package: self.package@,
            optional: self.optional,
            default_features: self.default_features,
            features: texts(self.features@),
            target: crate::text::opt_view(self.target),
        }
    }
}

/// What a list of binaries holds.
pub open spec fn bins_view(v: Seq<BinTarget>) -> Seq<BinView> {
    v.map_values(|b: BinTarget| b@)
}

/// What a list of examples holds.
pub open spec fn examples_view(v: Seq<ExampleTarget>) -> Seq<BinView> {
    v.map_values(|b: ExampleTarget| b@)
}

/// What a list of tests holds.
pub open spec fn tests_view(v: Seq<TestTarget>) -> Seq<TestView> {
    v.map_values(|t: TestTarget| t@)
}

/// What a list of dependency edges holds.
pub open spec fn deps_view(v: Seq<Dep>) -> Seq<DepView> {
    v.map_values(|d: Dep| d@)
}

/// What a feature table holds.
pub open spec fn features_view(m: Map<Seq<char>, Vec<String>>) -> Map<Seq<char>, Seq<Seq<char>>> {
    m.map_values(|v: Vec<String>| texts(v@))
}

/// What an environment holds.
pub open spec fn env_view(m: Map<Seq<char>, String>) -> Map<Seq<char>, Seq<char>> {
    m.map_values(|v: String| v@)
}

impl View for Package {
    type V = PackageView;

    open spec fn view(&self) -> PackageView {
        PackageView {
            id: self.id@,
            name: self.name@,
            dir: self.dir@,
            version: self.version@,
            edition: self.edition,
            lib: match self.lib {
                Some(lib) => Some(lib@),
                None => None,
            },
            bins: bins_view(self.bins@),
            examples: examples_view(self.examples@),
            tests: tests_view(self.tests@),
            build_script: crate::text::opt_view(self.build_script),
            links: crate::text::opt_view(self.links),
            deps: deps_view(self.deps@),
            optional_anywhere: self.optional_anywhere@,
            build_deps: deps_view(self.build_deps@),
            dev_deps: deps_view(self.dev_deps@),
            features: features_view(self.features@),
            has_default_feature: self.has_default_feature,
            rustflags: texts(self.rustflags@),
            env: env_view(self.env@),
        }
    }
}

/// A git dependency selector (Cargo `git = "url"` plus at most one of `rev`,
/// `tag`, `branch`).
#[derive(Debug, PartialEq, Eq)]
pub struct GitSelector {
    /// Repository URL (canonicalized: trailing `.git` stripped for HTTPS).
    pub url: String,
    /// Exact commit-ish (SHA or ref); never re-resolved against a moving ref.
    pub rev: Option<String>,
    /// Tag, resolved to a commit when locking.
    pub tag: Option<String>,
    /// Branch, resolved to a commit when locking.
    pub branch: Option<String>,
}

/// What a git selector holds.
pub struct GitView {
    pub url: Seq<char>,
    pub rev: Option<Seq<char>>,
    pub tag: Option<Seq<char>>,
    pub branch: Option<Seq<char>>,
}

impl View for GitSelector {
    type V = GitView;

    open spec fn view(&self) -> GitView {
        GitView {
            url: self.url@,
            rev: crate::text::opt_view(self.rev),
            tag: crate::text::opt_view(self.tag),
            branch: crate::text::opt_view(self.branch),
        }
    }
}

/// A repository URL as an identity.
pub open spec fn canonical_git_url(url: Seq<char>) -> Seq<char> {
    if starts(url, "https://"@) && ends(url, ".git"@) {
        url.take(url.len() - 4)
    } else {
        url
    }
}

impl GitSelector {
    /// Canonicalizes a repository URL for identity: HTTPS URLs lose a trailing
    /// `.git`; all other forms (file, ssh, scp-style) are unchanged: hosts, SSH
    /// syntax, and credentials are never rewritten.
    pub fn canonical_url(url: &str) -> (r: String)
        ensures
            r@ == canonical_git_url(url@),
    {
        proof {
            reveal_strlit(".git");
        }
        if starts_with(url, "https://") && ends_with(url, ".git") {
            let v = to_chars(url);
            let r = slice(&v, 0, v.len() - 4);
            assert(r@ =~= url@.take(url@.len() - 4));
            r
        } else {
            owned(url)
        }
    }
}

/// A URL that is not HTTPS is its own identity, and so is one without `.git`.
pub proof fn canonical_url_rewrites_https_only(url: Seq<char>)
    requires
        !starts(url, "https://"@) || !ends(url, ".git"@),
    ensures
        canonical_git_url(url) == url,
{
}

/// An unresolved registry dependency edge, collected during import.
#[derive(Debug)]
pub struct RegistryEdge {
    /// The exact identity of the package declaring the dependency.
    pub parent: PackageId,
    /// `--extern` name used by the dependent crate.
    pub extern_name: String,
    /// Real package name.
    pub package: String,
    /// Version requirement, as written in the manifest (`*` for git deps
    /// without a version).
    pub req: String,
    /// Git source selector; `Some` makes this a git edge (resolved against the
    /// repository, never the index).
    pub git: Option<GitSelector>,
    /// Optional dependency (feature-activated).
    pub optional: bool,
    /// Whether the dependency's default feature is enabled.
    pub default_features: bool,
    /// Features requested on the dependency.
    pub features: Vec<String>,
}

/// What a registry edge holds.
pub struct RegistryEdgeView {
    pub parent: PackageIdView,
    pub extern_name: Seq<char>,
    pub package: Seq<char>,
    pub req: Seq<char>,
    pub git: Option<GitView>,
    pub optional: bool,
    pub default_features: bool,
    pub features: Seq<Seq<char>>,
}

impl View for RegistryEdge {
    type V = RegistryEdgeView;

    open spec fn view(&self) -> RegistryEdgeView {
        RegistryEdgeView {
            parent: self.parent@,
            extern_name: self.extern_name@,
            package: self.package@,
            req: self.req@,
            git: match self.git {
                Some(git) => Some(git@),
                None => None,
            },
            optional: self.optional,
            default_features: self.default_features,
            features: texts(self.features@),
        }
    }
}

/// Rust crate types that can be compiled.
#[derive(Clone, Copy, Debug, PartialEq, Eq, Structural)]
pub enum CrateType {
    /// rlib (default library type).
    Rlib,
    /// cdylib.
    Cdylib,
    /// staticlib.
    Staticlib,
    /// dylib.
    Dylib,
}

/// The name of a crate type.
pub open spec fn crate_type_text(t: CrateType) -> Seq<char> {
    match t {
        CrateType::Rlib => "rlib"@,
        CrateType::Cdylib => "cdylib"@,
        CrateType::Staticlib => "staticlib"@,
        CrateType::Dylib => "dylib"@,
    }
}

impl CrateType {
    /// The rustc `--crate-type` value.
    pub fn to_rustc(self) -> (r: &'static str)
        ensures
            r@ == crate_type_text(self),
    {
        match self {
            CrateType::Rlib => "rlib",
            CrateType::Cdylib => "cdylib",
            CrateType::Staticlib => "staticlib",
            CrateType::Dylib => "dylib",
        }
    }
}

/// An imported prebuilt native library.
#[derive(Clone, Debug)]
pub struct CcImport {
    /// Target name used in the manifest.
    pub name: String,
    /// Path to the shared library on the host (system capture, non-portable).
    pub shared: String,
    /// `-l` link name (e.g. `SDL3.0`).
    pub link_name: String,
}

/// A package or target name as rustc takes it.
pub open spec fn sanitized(name: Seq<char>) -> Seq<char> {
    replace_spec(name, '-', '_')
}

/// Sanitizes a package or target name for rustc (`--crate-name`).
pub fn crate_name(name: &str) -> (r: String)
    ensures
        r@ == sanitized(name@),
{
    replace_char(name, '-', '_')
}

/// The name of a package's library crate.
pub open spec fn lib_crate_text(pkg: Package) -> Seq<char> {
    match pkg.lib {
        Some(lib) => match lib.name {
            Some(name) => sanitized(name@),
            None => sanitized(pkg.name@),
        },
        None => sanitized(pkg.name@),
    }
}

/// The crate name of a package's library: the `[lib] name` override when
/// present, else the sanitized package name. Binaries, tests, and dependents
/// must agree on this for `--crate-name` and the rlib filename.
pub fn lib_crate_name(pkg: &Package) -> (r: String)
    ensures
        r@ == lib_crate_text(*pkg),
{
    match &pkg.lib {
        Some(lib) => match &lib.name {
            Some(name) => crate_name(name.as_str()),
            None => crate_name(pkg.name.as_str()),
        },
        None => crate_name(pkg.name.as_str()),
    }
}

/// Sanitizing leaves no hyphen, and sanitizing twice changes nothing more.
pub proof fn sanitizing_is_idempotent(name: Seq<char>)
    ensures
        !sanitized(name).contains('-'),
        sanitized(sanitized(name)) == sanitized(name),
{
    assert(sanitized(sanitized(name)) =~= sanitized(name));
}

/// A resolved compilation profile.
#[derive(Debug)]
pub struct ProfileSpec {
    /// Optimization level: `0`-`3`, `s`, `z`.
    pub opt_level: String,
    /// Debug info on.
    pub debug: bool,
    /// LTO mode.
    pub lto: Lto,
    /// Panic strategy.
    pub panic: PanicStrategy,
    /// Codegen units (None: rustc default).
    pub codegen_units: Option<u32>,
    /// Overflow checks (None: rustc default).
    pub overflow_checks: Option<bool>,
    /// Debug assertions (None: rustc default).
    pub debug_assertions: Option<bool>,
    /// Strip setting: `none`, `debuginfo`, or `symbols` (None: rustc default).
    pub strip: Option<String>,
    /// Whether rpath is passed to the linker (None: rustc default).
    pub rpath: Option<bool>,
    /// `-C split-debuginfo` value: `none`, `unpacked`, or `packed` (None: rustc
    /// default).
    pub split_debuginfo: Option<String>,
}

/// What a profile holds.
pub struct ProfileView {
    pub opt_level: Seq<char>,
    pub debug: bool,
    pub lto: Lto,
    pub panic: PanicStrategy,
    pub codegen_units: Option<u32>,
    pub overflow_checks: Option<bool>,
    pub debug_assertions: Option<bool>,
    pub strip: Option<Seq<char>>,
    pub rpath: Option<bool>,
    pub split_debuginfo: Option<Seq<char>>,
}

impl View for ProfileSpec {
    type V = ProfileView;

    open spec fn view(&self) -> ProfileView {
        ProfileView {
            opt_level: self.opt_level@,
            debug: self.debug,
            lto: self.lto,
            panic: self.panic,
            codegen_units: self.codegen_units,
            overflow_checks: self.overflow_checks,
            debug_assertions: self.debug_assertions,
            strip: crate::text::opt_view(self.strip),
            rpath: self.rpath,
            split_debuginfo: crate::text::opt_view(self.split_debuginfo),
        }
    }
}

impl Clone for ProfileSpec {
    fn clone(&self) -> (r: ProfileSpec)
        ensures
            r == *self,
    {
        ProfileSpec {
            opt_level: self.opt_level.clone(),
            debug: self.debug,
            lto: self.lto,
            panic: self.panic,
            codegen_units: self.codegen_units,
            overflow_checks: self.overflow_checks,
            debug_assertions: self.debug_assertions,
            strip: crate::text::copy_opt(&self.strip),
            rpath: self.rpath,
            split_debuginfo: crate::text::copy_opt(&self.split_debuginfo),
        }
    }
}

/// LTO mode.
#[derive(Clone, Copy, Debug, PartialEq, Eq, Structural)]
pub enum Lto {
    /// No LTO.
    Off,
    /// Thin LTO.
    Thin,
    /// Fat LTO.
    Fat,
}

/// Panic strategy.
#[derive(Clone, Copy, Debug, PartialEq, Eq, Structural)]
pub enum PanicStrategy {
    /// Unwind.
    Unwind,
    /// Abort.
    Abort,
}

/// Cargo's `dev` defaults.
pub open spec fn dev_profile() -> ProfileView {
    ProfileView {
        opt_level: "0"@,
        debug: true,
        lto: Lto::Off,
        panic: PanicStrategy::Unwind,
        codegen_units: None,
        overflow_checks: Some(true),
        debug_assertions: Some(true),
        strip: None,
        rpath: None,
        split_debuginfo: None,
    }
}

/// Cargo's `release` defaults.
pub open spec fn release_profile() -> ProfileView {
    ProfileView {
        opt_level: "3"@,
        debug: false,
        lto: Lto::Off,
        panic: PanicStrategy::Unwind,
        codegen_units: None,
        overflow_checks: Some(false),
        debug_assertions: Some(false),
        strip: None,
        rpath: None,
        split_debuginfo: None,
    }
}

impl Default for ProfileSpec {
    fn default() -> (r: ProfileSpec)
        ensures
            r@ == dev_profile(),
    {
        ProfileSpec::dev()
    }
}

/// One `-C key=value` pair of flags.
pub open spec fn codegen_flag(key: Seq<char>, value: Seq<char>) -> Seq<Seq<char>> {
    seq!["-C"@, key + value]
}

/// The flag of a setting that may be left to rustc.
pub open spec fn codegen_flag_opt(key: Seq<char>, value: Option<Seq<char>>) -> Seq<Seq<char>> {
    match value {
        Some(v) => codegen_flag(key, v),
        None => Seq::empty(),
    }
}

/// A switch as one of two words.
pub open spec fn switch(value: Option<bool>, on: Seq<char>, off: Seq<char>) -> Option<Seq<char>> {
    match value {
        Some(b) => Some(
            if b {
                on
            } else {
                off
            },
        ),
        None => None,
    }
}

/// The value of `-C lto`.
pub open spec fn lto_text(lto: Lto) -> Seq<char> {
    match lto {
        Lto::Off => "off"@,
        Lto::Thin => "thin"@,
        Lto::Fat => "yes"@,
    }
}

/// The value of `-C panic`.
pub open spec fn panic_text(panic: PanicStrategy) -> Seq<char> {
    match panic {
        PanicStrategy::Unwind => "unwind"@,
        PanicStrategy::Abort => "abort"@,
    }
}

/// The rustc flags of a profile.
pub open spec fn profile_flags(p: ProfileView) -> Seq<Seq<char>> {
    codegen_flag("opt-level="@, p.opt_level) + codegen_flag(
        "debuginfo="@,
        if p.debug {
            "2"@
        } else {
            "0"@
        },
    ) + codegen_flag("lto="@, lto_text(p.lto)) + codegen_flag("panic="@, panic_text(p.panic))
        + codegen_flag_opt("overflow-checks="@, switch(p.overflow_checks, "on"@, "off"@))
        + codegen_flag_opt("debug-assertions="@, switch(p.debug_assertions, "on"@, "off"@))
        + codegen_flag_opt("strip="@, p.strip) + codegen_flag_opt(
        "rpath="@,
        switch(p.rpath, "yes"@, "no"@),
    ) + codegen_flag_opt(
        "codegen-units="@,
        match p.codegen_units {
            Some(n) => Some(decimal(n as nat)),
            None => None,
        },
    ) + codegen_flag_opt("split-debuginfo="@, p.split_debuginfo)
}

/// Appends one `-C key=value` pair.
fn push_codegen(flags: &mut Vec<String>, key: &str, value: &str)
    ensures
        texts(final(flags)@) == texts(old(flags)@) + codegen_flag(key@, value@),
{
    let ghost before = texts(flags@);
    push_text(flags, "-C");
    push_string(flags, cat(key, value));
    assert(texts(flags@) =~= before + codegen_flag(key@, value@));
}

/// Appends the pair of a switch, where it is set.
fn push_switch(flags: &mut Vec<String>, key: &str, value: Option<bool>, on: &str, off: &str)
    ensures
        texts(final(flags)@) == texts(old(flags)@) + codegen_flag_opt(
            key@,
            switch(value, on@, off@),
        ),
{
    let ghost before = texts(flags@);
    match value {
        Some(b) => push_codegen(
            flags,
            key,
            if b {
                on
            } else {
                off
            },
        ),
        None => {
            assert(texts(flags@) =~= before + Seq::<Seq<char>>::empty());
        },
    }
}

/// Appends the pair of an optional text, where it is set.
fn push_optional(flags: &mut Vec<String>, key: &str, value: &Option<String>)
    ensures
        texts(final(flags)@) == texts(old(flags)@) + codegen_flag_opt(
            key@,
            crate::text::opt_view(*value),
        ),
{
    let ghost before = texts(flags@);
    match value {
        Some(v) => push_codegen(flags, key, v.as_str()),
        None => {
            assert(texts(flags@) =~= before + Seq::<Seq<char>>::empty());
        },
    }
}

impl ProfileSpec {
    /// Cargo-compatible `dev` defaults.
    pub fn dev() -> (r: ProfileSpec)
        ensures
            r@ == dev_profile(),
    {
        ProfileSpec {
            opt_level: owned("0"),
            debug: true,
            lto: Lto::Off,
            panic: PanicStrategy::Unwind,
            codegen_units: None,
            overflow_checks: Some(true),
            debug_assertions: Some(true),
            strip: None,
            rpath: None,
            split_debuginfo: None,
        }
    }

    /// Cargo-compatible `release` defaults.
    pub fn release() -> (r: ProfileSpec)
        ensures
            r@ == release_profile(),
    {
        ProfileSpec {
            opt_level: owned("3"),
            debug: false,
            lto: Lto::Off,
            panic: PanicStrategy::Unwind,
            codegen_units: None,
            overflow_checks: Some(false),
            debug_assertions: Some(false),
            strip: None,
            rpath: None,
            split_debuginfo: None,
        }
    }

    /// The rustc flags derived from this profile (incremental compilation stays
    /// off so actions remain cacheable).
    pub fn rustc_flags(&self) -> (r: Vec<String>)
        ensures
            texts(r@) == profile_flags(self@),
    {
        let mut flags: Vec<String> = Vec::new();
        assert(texts(flags@) =~= Seq::<Seq<char>>::empty());
        push_codegen(&mut flags, "opt-level=", self.opt_level.as_str());
        assert(texts(flags@) =~= codegen_flag("opt-level="@, self.opt_level@));
        push_codegen(
            &mut flags,
            "debuginfo=",
            if self.debug {
                "2"
            } else {
                "0"
            },
        );
        push_codegen(
            &mut flags,
            "lto=",
            match self.lto {
                Lto::Off => "off",
                Lto::Thin => "thin",
                Lto::Fat => "yes",
            },
        );
        push_codegen(
            &mut flags,
            "panic=",
            match self.panic {
                PanicStrategy::Unwind => "unwind",
                PanicStrategy::Abort => "abort",
            },
        );
        push_switch(&mut flags, "overflow-checks=", self.overflow_checks, "on", "off");
        push_switch(&mut flags, "debug-assertions=", self.debug_assertions, "on", "off");
        push_optional(&mut flags, "strip=", &self.strip);
        push_switch(&mut flags, "rpath=", self.rpath, "yes", "no");
        let units: Option<String> = match self.codegen_units {
            Some(n) => Some(u64_text(n as u64)),
            None => None,
        };
        push_optional(&mut flags, "codegen-units=", &units);
        push_optional(&mut flags, "split-debuginfo=", &self.split_debuginfo);
        flags
    }
}

} // verus!
