//! Cargo import: manifests into the target model.
//!
//! Path and workspace dependencies import directly; registry dependencies
//! resolve through the lockfile. An import is a function of the facts on the
//! disk and of the answers to its registry edges, in the order it asks for
//! them; where one is missing it stops and names it.

use vstd::prelude::*;
use vstd::string::*;
use crate::deps::{
    key_view, plan_dep, planned, DepPlan, DepPlanView, LockedSource, LockedView, Origin,
    OriginView,
};
use crate::disk::{first_missing, take_missing, Disk, ImportStop, Query, QueryView, StopView};
use crate::manifest::{
    about_env, edition_of, make_about_env, parse_edition, resolve_field, resolved_field,
    CargoImportError, CargoManifest, CargoPackage, CargoTargetTable, CargoWorkspace,
    CargoWorkspacePackage, DepValue, ImportFault,
};
use crate::model::{
    deps_view, features_view, Dep, DepView, Package, PackageId, PackageIdView, PackageView,
    SourceId, SourceView,
};
use crate::paths::{path_less, path_lt, rel_path, source_rel_path};
use crate::strmap::{StrMap, StrSet};
use crate::targets::{
    bins_of, build_script_of, examples_of, find_bins, find_build_script, find_examples,
    find_lib, find_tests, lib_of, list_target_queries, target_queries, tests_of,
};
use crate::text::{
    cat, cat5, copy_opt, copy_texts, list_contains, opt_view, owned, quote, quoted,
    replace_char, replace_spec, same, starts, starts_with, texts, trim_start, trim_start_spec,
};
use crate::version::{
    parsed_version, semver_parsed, version_result, version_text, Version, VersionView,
};

verus! {

// ---- Dependency tables -----------------------------------------------------

/// The three dependency lists of a manifest.
#[derive(Clone, Copy, Debug, PartialEq, Eq, Structural)]
pub enum DepKind {
    /// `[dependencies]`.
    Normal,
    /// `[build-dependencies]`.
    Build,
    /// `[dev-dependencies]`.
    Dev,
}

/// A declaration: its name, its value, and the key of its target table.
pub struct Declaration<'a> {
    /// The list it stands in.
    pub kind: DepKind,
    /// Declared name.
    pub name: &'a String,
    /// The dependency.
    pub value: &'a DepValue,
    /// Key of the target table, for one that stands in one.
    pub target: Option<&'a String>,
}

/// What a declaration holds.
pub struct DeclView {
    pub kind: DepKind,
    pub name: Seq<char>,
    pub value: DepValue,
    pub target: Option<Seq<char>>,
}

impl<'a> Declaration<'a> {
    /// What the declaration holds.
    pub open spec fn decl(self) -> DeclView {
        DeclView {
            kind: self.kind,
            name: self.name@,
            value: *self.value,
            target: key_view(self.target),
        }
    }
}

/// What declarations hold.
pub open spec fn decls_view<'a>(v: Seq<Declaration<'a>>) -> Seq<DeclView> {
    v.map_values(|d: Declaration<'a>| d.decl())
}

/// The declarations of one table, in the order of their names.
pub open spec fn table_decls(
    kind: DepKind,
    table: StrMap<DepValue>,
    target: Option<Seq<char>>,
) -> Seq<DeclView> {
    Seq::new(
        table.keys().len(),
        |i: int| DeclView { kind, name: table.keys()[i], value: table.values()[i], target },
    )
}

/// A manifest's general table of one kind.
pub open spec fn general_table(manifest: CargoManifest, kind: DepKind) -> StrMap<DepValue> {
    match kind {
        DepKind::Normal => manifest.dependencies,
        DepKind::Build => manifest.build_dependencies,
        DepKind::Dev => manifest.dev_dependencies,
    }
}

/// A target table's list of one kind.
pub open spec fn target_table(table: CargoTargetTable, kind: DepKind) -> StrMap<DepValue> {
    match kind {
        DepKind::Normal => table.dependencies,
        DepKind::Build => table.build_dependencies,
        DepKind::Dev => table.dev_dependencies,
    }
}

/// The declarations of one kind: the general table's, then those of the first
/// `n` target tables. Every edge is retained because Cargo resolves and locks
/// the union across all platforms.
pub open spec fn declared(manifest: CargoManifest, kind: DepKind, n: int) -> Seq<DeclView>
    decreases n,
{
    if n <= 0 {
        table_decls(kind, general_table(manifest, kind), None)
    } else {
        declared(manifest, kind, n - 1) + table_decls(
            kind,
            target_table(manifest.target.values()[n - 1], kind),
            Some(manifest.target.keys()[n - 1]),
        )
    }
}

/// All declarations of one kind.
pub open spec fn declared_all(manifest: CargoManifest, kind: DepKind) -> Seq<DeclView> {
    declared(manifest, kind, manifest.target.keys().len() as int)
}

fn add_decls<'a>(
    out: &mut Vec<Declaration<'a>>,
    kind: DepKind,
    table: &'a StrMap<DepValue>,
    target: Option<&'a String>,
)
    ensures
        decls_view(final(out)@) == decls_view(old(out)@) + table_decls(
            kind,
            *table,
            key_view(target),
        ),
{
    let ghost start = decls_view(out@);
    let ghost all = table_decls(kind, *table, key_view(target));
    let n = table.len();
    let mut i: usize = 0;
    assert(start =~= start + all.take(0));
    while i < n
        invariant
            i <= n,
            n == table.keys().len(),
            n == table.values().len(),
            all == table_decls(kind, *table, key_view(target)),
            decls_view(out@) == start + all.take(i as int),
        decreases n - i,
    {
        let ghost before = out@;
        let d = Declaration { kind, name: table.key(i), value: table.value(i), target };
        out.push(d);
        assert(decls_view(out@) =~= decls_view(before).push(d.decl()));
        assert(d.decl() == all[i as int]);
        i += 1;
        assert(decls_view(out@) =~= start + all.take(i as int));
    }
    assert(all.take(n as int) =~= all);
}

fn add_declared<'a>(out: &mut Vec<Declaration<'a>>, manifest: &'a CargoManifest, kind: DepKind)
    ensures
        decls_view(final(out)@) == decls_view(old(out)@) + declared_all(*manifest, kind),
{
    let ghost start = decls_view(out@);
    let general: &'a StrMap<DepValue> = match kind {
        DepKind::Normal => &manifest.dependencies,
        DepKind::Build => &manifest.build_dependencies,
        DepKind::Dev => &manifest.dev_dependencies,
    };
    add_decls(out, kind, general, None);
    let n = manifest.target.len();
    let mut i: usize = 0;
    while i < n
        invariant
            i <= n,
            n == manifest.target.keys().len(),
            n == manifest.target.values().len(),
            decls_view(out@) == start + declared(*manifest, kind, i as int),
        decreases n - i,
    {
        let table: &'a CargoTargetTable = manifest.target.value(i);
        let list: &'a StrMap<DepValue> = match kind {
            DepKind::Normal => &table.dependencies,
            DepKind::Build => &table.build_dependencies,
            DepKind::Dev => &table.dev_dependencies,
        };
        add_decls(out, kind, list, Some(manifest.target.key(i)));
        i += 1;
        assert(decls_view(out@) =~= start + declared(*manifest, kind, i as int));
    }
}

/// Whether a dependency is declared optional.
pub open spec fn declared_optional(value: DepValue) -> bool {
    match value {
        DepValue::Version(_) => false,
        DepValue::Table(t) => t.optional == Some(true),
    }
}

/// Whether a table declares this name optional.
pub open spec fn optional_in(table: StrMap<DepValue>, name: Seq<char>) -> bool {
    table@.contains_key(name) && declared_optional(table@[name])
}

/// The names that are optional in at least one normal or build table, whichever
/// target it is for: feature references validate against the union.
pub open spec fn optional_anywhere_of(manifest: CargoManifest) -> Set<Seq<char>> {
    Set::new(
        |name: Seq<char>|
            optional_in(manifest.dependencies, name) || optional_in(
                manifest.build_dependencies,
                name,
            ) || exists|k: int|
                0 <= k < manifest.target.values().len() && (optional_in(
                    (#[trigger] manifest.target.values()[k]).dependencies,
                    name,
                ) || optional_in(manifest.target.values()[k].build_dependencies, name)),
    )
}

fn add_optional(out: &mut StrSet, table: &StrMap<DepValue>)
    ensures
        forall|name: Seq<char>| #[trigger]
            final(out)@.contains(name) <==> old(out)@.contains(name) || optional_in(*table, name),
{
    let ghost start = out@;
    let n = table.len();
    let mut i: usize = 0;
    while i < n
        invariant
            i <= n,
            n == table.keys().len(),
            n == table.values().len(),
            forall|name: Seq<char>| #[trigger]
                out@.contains(name) <==> start.contains(name) || exists|j: int|
                    0 <= j < i && #[trigger] table.keys()[j] == name && declared_optional(
                        table.values()[j],
                    ),
            forall|j: int|
                0 <= j < n ==> #[trigger] table@.contains_key(table.keys()[j])
                    && table@[table.keys()[j]] == table.values()[j],
        decreases n - i,
    {
        let ghost before = out@;
        let optional = match table.value(i) {
            DepValue::Version(_) => false,
            DepValue::Table(t) => match t.optional {
                Some(b) => b,
                None => false,
            },
        };
        if optional {
            out.insert(table.key(i).clone());
        }
        proof {
            assert forall|name: Seq<char>| #[trigger]
                out@.contains(name) <==> start.contains(name) || exists|j: int|
                0 <= j < i + 1 && #[trigger] table.keys()[j] == name && declared_optional(
                    table.values()[j],
                ) by {
                if exists|j: int|
                    0 <= j < i && #[trigger] table.keys()[j] == name && declared_optional(
                        table.values()[j],
                    ) {
                    let j = choose|j: int|
                        0 <= j < i && #[trigger] table.keys()[j] == name && declared_optional(
                            table.values()[j],
                        );
                    assert(0 <= j < i + 1 && table.keys()[j] == name);
                    assert(before.contains(name));
                }
                if optional && name == table.keys()[i as int] {
                    assert(0 <= i < i + 1 && table.keys()[i as int] == name);
                }
            }
        }
        i += 1;
    }
    proof {
        assert forall|name: Seq<char>| #[trigger]
            out@.contains(name) <==> start.contains(name) || optional_in(*table, name) by {
            if optional_in(*table, name) {
                let j = choose|j: int| 0 <= j < table.keys().len() && table.keys()[j] == name;
                assert(table@.contains_key(table.keys()[j]));
            }
            if out@.contains(name) && !start.contains(name) {
                let j = choose|j: int|
                    0 <= j < n && #[trigger] table.keys()[j] == name && declared_optional(
                        table.values()[j],
                    );
                assert(table@.contains_key(table.keys()[j]));
            }
        }
    }
}

/// Collects the names that are optional in at least one table.
fn collect_optional(manifest: &CargoManifest) -> (r: StrSet)
    ensures
        r@ == optional_anywhere_of(*manifest),
{
    let mut out = StrSet::new();
    add_optional(&mut out, &manifest.dependencies);
    add_optional(&mut out, &manifest.build_dependencies);
    let n = manifest.target.len();
    let mut i: usize = 0;
    while i < n
        invariant
            i <= n,
            n == manifest.target.keys().len(),
            n == manifest.target.values().len(),
            forall|name: Seq<char>| #[trigger]
                out@.contains(name) <==> optional_in(manifest.dependencies, name) || optional_in(
                    manifest.build_dependencies,
                    name,
                ) || exists|k: int|
                    0 <= k < i && (optional_in(
                        (#[trigger] manifest.target.values()[k]).dependencies,
                        name,
                    ) || optional_in(manifest.target.values()[k].build_dependencies, name)),
        decreases n - i,
    {
        let ghost before = out@;
        let table = manifest.target.value(i);
        add_optional(&mut out, &table.dependencies);
        add_optional(&mut out, &table.build_dependencies);
        proof {
            assert(*table == manifest.target.values()[i as int]);
            assert forall|name: Seq<char>| #[trigger]
                out@.contains(name) <==> optional_in(manifest.dependencies, name) || optional_in(
                    manifest.build_dependencies,
                    name,
                ) || exists|k: int|
                0 <= k < i + 1 && (optional_in(
                    (#[trigger] manifest.target.values()[k]).dependencies,
                    name,
                ) || optional_in(manifest.target.values()[k].build_dependencies, name)) by {
                if before.contains(name) {
                    if exists|k: int|
                        0 <= k < i && (optional_in(
                            (#[trigger] manifest.target.values()[k]).dependencies,
                            name,
                        ) || optional_in(manifest.target.values()[k].build_dependencies, name)) {
                        let k = choose|k: int|
                            0 <= k < i && (optional_in(
                                (#[trigger] manifest.target.values()[k]).dependencies,
                                name,
                            ) || optional_in(
                                manifest.target.values()[k].build_dependencies,
                                name,
                            ));
                        assert(0 <= k < i + 1);
                        assert(manifest.target.values()[k] == manifest.target.values()[k]);
                    }
                }
            }
        }
        i += 1;
    }
    assert(out@ =~= optional_anywhere_of(*manifest));
    out
}

/// Whether a target key is a `cfg(...)` expression; else it is a triple.
pub open spec fn is_cfg(key: Seq<char>) -> bool {
    starts(trim_start_spec(key), "cfg("@)
}

/// The triple that `cfg(...)` expressions are checked with.
pub open spec fn check_triple() -> Seq<char> {
    "x86_64-unknown-linux-gnu"@
}

/// Whether the first `n` target keys can be read; which of them match is
/// decided when units are built, so the graph stays host-independent.
pub open spec fn cfg_stop(disk: Disk, keys: Seq<Seq<char>>, n: int) -> Option<StopView>
    decreases n,
{
    if n <= 0 {
        None
    } else {
        let before = cfg_stop(disk, keys, n - 1);
        let key = keys[n - 1];
        if before is Some || !is_cfg(key) {
            before
        } else if !disk.knows(QueryView::Cfg { key, triple: check_triple() }) {
            Some(StopView::Need(QueryView::Cfg { key, triple: check_triple() }))
        } else {
            match disk.cfgs@[check_triple()]@[key] {
                Ok(_) => None,
                Err(why) => Some(StopView::Failed(ImportFault::Unsupported(why@))),
            }
        }
    }
}

proof fn lemma_cfg_stop(disk: Disk, keys: Seq<Seq<char>>, a: int, b: int)
    requires
        a <= b,
        cfg_stop(disk, keys, a) is Some,
    ensures
        cfg_stop(disk, keys, b) == cfg_stop(disk, keys, a),
    decreases b,
{
    if a < b {
        lemma_cfg_stop(disk, keys, a, b - 1);
    }
}

/// What an optional stop holds.
pub open spec fn stop_view(stop: Option<ImportStop>) -> Option<StopView> {
    match stop {
        Some(s) => Some(s@),
        None => None,
    }
}

fn check_cfgs(disk: &Disk, manifest: &CargoManifest) -> (r: Option<ImportStop>)
    ensures
        stop_view(r) == cfg_stop(
            *disk,
            manifest.target.keys(),
            manifest.target.keys().len() as int,
        ),
{
    let triple = "x86_64-unknown-linux-gnu";
    let n = manifest.target.len();
    let ghost keys = manifest.target.keys();
    let mut i: usize = 0;
    while i < n
        invariant
            i <= n,
            n == keys.len(),
            keys == manifest.target.keys(),
            triple@ == check_triple(),
            cfg_stop(*disk, keys, i as int) is None,
        decreases n - i,
    {
        let key = manifest.target.key(i);
        if starts_with(trim_start(key.as_str()).as_str(), "cfg(") {
            let found: Option<&Result<bool, String>> = match disk.cfgs.get(triple) {
                Some(known) => known.get(key.as_str()),
                None => None,
            };
            match found {
                None => {
                    proof {
                        lemma_cfg_stop(*disk, keys, i as int + 1, n as int);
                    }
                    return Some(
                        ImportStop::Need(Query::Cfg { key: key.clone(), triple: owned(triple) }),
                    );
                },
                Some(Err(why)) => {
                    proof {
                        lemma_cfg_stop(*disk, keys, i as int + 1, n as int);
                    }
                    return Some(
                        ImportStop::Failed(CargoImportError::Unsupported(why.clone())),
                    );
                },
                Some(Ok(_)) => {},
            }
        }
        i += 1;
    }
    None
}

/// A manifest's dependency tables, general and target-specific ones together, and
/// the names that are optional in at least one of them.
pub struct MergedTables<'a> {
    /// `[dependencies]`.
    pub dependencies: Vec<Declaration<'a>>,
    /// `[build-dependencies]`.
    pub build_dependencies: Vec<Declaration<'a>>,
    /// `[dev-dependencies]`.
    pub dev_dependencies: Vec<Declaration<'a>>,
    /// The names that are optional in at least one normal or build table.
    pub optional_anywhere: StrSet,
}

/// What merged tables hold.
pub struct MergedView {
    pub dependencies: Seq<DeclView>,
    pub build_dependencies: Seq<DeclView>,
    pub dev_dependencies: Seq<DeclView>,
    pub optional_anywhere: Set<Seq<char>>,
}

impl<'a> MergedTables<'a> {
    /// What the tables hold.
    pub open spec fn merged(self) -> MergedView {
        MergedView {
            dependencies: decls_view(self.dependencies@),
            build_dependencies: decls_view(self.build_dependencies@),
            dev_dependencies: decls_view(self.dev_dependencies@),
            optional_anywhere: self.optional_anywhere@,
        }
    }
}

/// What merged tables or a stop are.
pub open spec fn merged_result(r: Result<MergedTables<'_>, ImportStop>) -> Result<
    MergedView,
    StopView,
> {
    match r {
        Ok(tables) => Ok(tables.merged()),
        Err(stop) => Err(stop@),
    }
}

/// A manifest's tables merged, once every target key can be read.
pub open spec fn merged_tables(disk: Disk, manifest: CargoManifest) -> Result<MergedView, StopView> {
    match cfg_stop(disk, manifest.target.keys(), manifest.target.keys().len() as int) {
        Some(stop) => Err(stop),
        None => Ok(
            MergedView {
                dependencies: declared_all(manifest, DepKind::Normal),
                build_dependencies: declared_all(manifest, DepKind::Build),
                dev_dependencies: declared_all(manifest, DepKind::Dev),
                optional_anywhere: optional_anywhere_of(manifest),
            },
        ),
    }
}

fn list_declared<'a>(manifest: &'a CargoManifest, kind: DepKind) -> (r: Vec<Declaration<'a>>)
    ensures
        decls_view(r@) == declared_all(*manifest, kind),
{
    let mut out: Vec<Declaration<'a>> = Vec::new();
    add_declared(&mut out, manifest, kind);
    assert(decls_view(out@) =~= declared_all(*manifest, kind));
    out
}

/// Collects the manifest's general and target-specific dependency tables. Every
/// edge is retained because Cargo resolves and locks the union across all
/// platforms; units filter targets later.
pub fn merge_target_tables<'a>(disk: &Disk, manifest: &'a CargoManifest) -> (r: Result<
    MergedTables<'a>,
    ImportStop,
>)
    ensures
        merged_result(r) == merged_tables(*disk, *manifest),
{
    if let Some(stop) = check_cfgs(disk, manifest) {
        return Err(stop);
    }
    Ok(
        MergedTables {
            dependencies: list_declared(manifest, DepKind::Normal),
            build_dependencies: list_declared(manifest, DepKind::Build),
            dev_dependencies: list_declared(manifest, DepKind::Dev),
            optional_anywhere: collect_optional(manifest),
        },
    )
}

/// The tables' declarations one after another; those of dev-dependencies only
/// where these count.
fn all_decls<'a>(tables: MergedTables<'a>, dev: bool) -> (r: Vec<Declaration<'a>>)
    ensures
        decls_view(r@) == tables.merged().dependencies + tables.merged().build_dependencies + (
        if dev {
            tables.merged().dev_dependencies
        } else {
            Seq::empty()
        }),
{
    let mut build = tables.build_dependencies;
    let mut last = tables.dev_dependencies;
    let mut out = tables.dependencies;
    out.append(&mut build);
    if dev {
        out.append(&mut last);
    }
    assert(decls_view(out@) =~= tables.merged().dependencies + tables.merged().build_dependencies
        + (if dev {
        tables.merged().dev_dependencies
    } else {
        Seq::empty()
    }));
    out
}

// ---- Identity ---------------------------------------------------------------

/// How a package's identity is forced during import.
#[derive(Debug)]
pub enum ForcedIdentity {
    /// The exact locked identity: name and version must match the manifest
    /// (registry packages).
    Exact(PackageId),
    /// Only the source is forced; name and version come from the manifest (git
    /// dependencies: the source propagates to every package in the checkout).
    Source(SourceId),
}

/// What a forced identity holds.
pub enum ForcedView {
    Exact(PackageIdView),
    Source(SourceView),
}

impl View for ForcedIdentity {
    type V = ForcedView;

    open spec fn view(&self) -> ForcedView {
        match *self {
            ForcedIdentity::Exact(id) => ForcedView::Exact(id@),
            ForcedIdentity::Source(source) => ForcedView::Source(source@),
        }
    }
}

/// What an optional forced identity holds.
pub open spec fn forced_view(forced: Option<ForcedIdentity>) -> Option<ForcedView> {
    match forced {
        Some(f) => Some(f@),
        None => None,
    }
}

/// The exact identity of a package: registry and git checkouts take the locked
/// identity; workspace members and path deps derive it from the lexical path
/// relative to the workspace root (never the canonical absolute path, so
/// digests are host-independent).
pub open spec fn identity_of(
    name: Seq<char>,
    version: Seq<char>,
    parsed: Result<VersionView, Seq<char>>,
    forced: Option<ForcedView>,
    is_member: bool,
    dir: Seq<char>,
    canonical: Seq<char>,
    root: Seq<char>,
) -> Result<PackageIdView, ImportFault> {
    let invalid = |why: Seq<char>| ImportFault::Unsupported(
        "package "@ + name + " in "@ + canonical + " has invalid version "@ + quoted(version)
            + ": "@ + why,
    );
    match forced {
        Some(ForcedView::Exact(locked)) => if locked.name != name || parsed != Ok::<
            VersionView,
            Seq<char>,
        >(locked.version) {
            Err(
                ImportFault::Unsupported(
                    "locked dependency "@ + locked.name + " v"@ + version_text(locked.version)
                        + " resolves to package "@ + name + " v"@ + (match parsed {
                        Ok(v) => version_text(v),
                        Err(_) => "?"@,
                    }) + " in "@ + canonical + ", but the manifest declares "@ + name + " v"@
                        + version + "; run `tong lock`"@,
                ),
            )
        } else {
            Ok(locked)
        },
        Some(ForcedView::Source(source)) => match parsed {
            Ok(v) => Ok(PackageIdView { name, version: v, source }),
            Err(why) => Err(invalid(why)),
        },
        None => match parsed {
            Ok(v) => Ok(
                PackageIdView {
                    name,
                    version: v,
                    source: if is_member {
                        SourceView::Workspace(rel_path(dir, root))
                    } else {
                        SourceView::Path(rel_path(dir, root))
                    },
                },
            ),
            Err(why) => Err(invalid(why)),
        },
    }
}

/// What an identity or a failure holds.
pub open spec fn id_result(r: Result<PackageId, CargoImportError>) -> Result<
    PackageIdView,
    ImportFault,
> {
    match r {
        Ok(id) => Ok(id@),
        Err(e) => Err(e@),
    }
}

fn invalid_version(name: &str, canonical: &str, version: &str, why: &str) -> (r: CargoImportError)
    ensures
        r@ == ImportFault::Unsupported(
            "package "@ + name@ + " in "@ + canonical@ + " has invalid version "@ + quoted(
                version@,
            ) + ": "@ + why@,
        ),
{
    let mut out = cat5("package ", name, " in ", canonical, " has invalid version ");
    out.append(quote(version).as_str());
    out.append(": ");
    out.append(why);
    CargoImportError::Unsupported(out)
}

/// Derives the identity of a package from its manifest, its place, and what the
/// lockfile forces; `parsed` is its version, read.
pub fn package_identity(
    name: &str,
    version: &str,
    parsed: Result<Version, String>,
    forced: &Option<ForcedIdentity>,
    is_member: bool,
    dir: &str,
    canonical: &str,
    workspace_root: &str,
) -> (r: Result<PackageId, CargoImportError>)
    ensures
        id_result(r) == identity_of(
            name@,
            version@,
            version_result(parsed),
            forced_view(*forced),
            is_member,
            dir@,
            canonical@,
            workspace_root@,
        ),
{
    match forced {
        Some(ForcedIdentity::Exact(locked)) => {
            let fits = match &parsed {
                Ok(v) => same(locked.name.as_str(), name) && v.same(&locked.version),
                Err(_) => false,
            };
            if fits {
                return Ok(locked.clone());
            }
            let mut out = cat5(
                "locked dependency ",
                locked.name.as_str(),
                " v",
                locked.version.to_text().as_str(),
                " resolves to package ",
            );
            out.append(name);
            out.append(" v");
            let read = match &parsed {
                Ok(v) => v.to_text(),
                Err(_) => owned("?"),
            };
            out.append(read.as_str());
            out.append(" in ");
            out.append(canonical);
            out.append(", but the manifest declares ");
            out.append(name);
            out.append(" v");
            out.append(version);
            out.append("; run `tong lock`");
            Err(CargoImportError::Unsupported(out))
        },
        Some(ForcedIdentity::Source(source)) => match parsed {
            Ok(v) => Ok(PackageId { name: owned(name), version: v, source: source.clone() }),
            Err(why) => Err(invalid_version(name, canonical, version, why.as_str())),
        },
        None => match parsed {
            Ok(v) => {
                let rel = source_rel_path(dir, workspace_root);
                Ok(
                    PackageId {
                        name: owned(name),
                        version: v,
                        source: if is_member {
                            SourceId::Workspace(rel)
                        } else {
                            SourceId::Path(rel)
                        },
                    },
                )
            },
            Err(why) => Err(invalid_version(name, canonical, version, why.as_str())),
        },
    }
}

// ---- Packages ---------------------------------------------------------------

/// What the lockfile has for a registry edge: a locked package, nothing (the
/// edge is only being collected, or is an inactive optional one), or a targeted
/// diagnostic.
pub type LockAnswer = Result<Option<LockedSource>, CargoImportError>;

/// What an import depends on.
pub struct ImportEnv<'a> {
    /// What is known of the disk.
    pub disk: &'a Disk,
    /// The workspace root.
    pub root: &'a str,
    /// The canonical directories of the workspace members.
    pub members: &'a Vec<String>,
    /// The root manifest's `[patch]` entries.
    pub patches: Option<&'a StrMap<DepValue>>,
    /// The answers to the registry edges, in the order they are asked for.
    pub answers: &'a Vec<LockAnswer>,
    /// Whether unresolved edges are kept as provisional ones, for the lockfile
    /// to resolve.
    pub collecting: bool,
}

/// What an import depends on, as mathematical values.
pub struct EnvView<'a> {
    pub disk: Disk,
    pub root: Seq<char>,
    pub members: Seq<Seq<char>>,
    pub patches: Option<&'a StrMap<DepValue>>,
    pub answers: Seq<LockAnswer>,
    pub collecting: bool,
}

impl<'a> ImportEnv<'a> {
    /// What the import depends on.
    pub open spec fn view(self) -> EnvView<'a> {
        EnvView {
            disk: *self.disk,
            root: self.root@,
            members: texts(self.members@),
            patches: self.patches,
            answers: self.answers@,
            collecting: self.collecting,
        }
    }
}

/// How far an import has come.
pub struct ImportView {
    /// The imported packages by canonical directory, in the order of paths.
    pub packages: Seq<(Seq<char>, PackageView)>,
    /// The directories being imported, each with whether a dev or optional edge
    /// led to it.
    pub visiting: Seq<(Seq<char>, bool)>,
    /// How many answers have been used.
    pub used: int,
}

/// A dependency ready for import: its list, its plan, and what is locked for it.
pub struct ResolvedView {
    pub kind: DepKind,
    pub plan: DepPlanView,
    pub locked: Option<LockedView>,
}

/// The dependency tables that a package inherits from.
pub open spec fn inherited_deps(ws: Option<&CargoWorkspace>) -> Option<&StrMap<DepValue>> {
    match ws {
        Some(w) => Some(&w.dependencies),
        None => None,
    }
}

/// The package fields that a package inherits.
pub open spec fn inherited_package(ws: Option<&CargoWorkspace>) -> Option<CargoWorkspacePackage> {
    match ws {
        Some(w) => w.package,
        None => None,
    }
}

/// The first `n` declarations, resolved: each is planned, and each registry edge
/// takes the next answer. An edge that nothing is locked for is kept while
/// collecting, and dropped otherwise. Gives how many answers have been used.
pub open spec fn resolved_decls(
    env: EnvView<'_>,
    parent: PackageIdView,
    member: Seq<char>,
    ws: Option<&CargoWorkspace>,
    decls: Seq<DeclView>,
    n: int,
    used: int,
) -> Result<(Seq<ResolvedView>, int), StopView>
    decreases n,
{
    if n <= 0 {
        Ok((Seq::empty(), used))
    } else {
        match resolved_decls(env, parent, member, ws, decls, n - 1, used) {
            Err(stop) => Err(stop),
            Ok((before, at)) => {
                let d = decls[n - 1];
                match planned(
                    d.name,
                    d.value,
                    d.target,
                    parent,
                    member,
                    env.root,
                    inherited_deps(ws),
                    env.patches,
                ) {
                    Err(fault) => Err(StopView::Failed(fault)),
                    Ok(plan) => match plan.origin {
                        OriginView::Path(_) => Ok(
                            (before.push(ResolvedView { kind: d.kind, plan, locked: None }), at),
                        ),
                        OriginView::Edge(edge) => if at >= env.answers.len() {
                            Err(StopView::Need(QueryView::Lock(edge)))
                        } else {
                            match env.answers[at] {
                                Err(e) => Err(StopView::Failed(e@)),
                                Ok(Some(locked)) => Ok(
                                    (
                                        before.push(
                                            ResolvedView {
                                                kind: d.kind,
                                                plan,
                                                locked: Some(locked@),
                                            },
                                        ),
                                        at + 1,
                                    ),
                                ),
                                Ok(None) => Ok(
                                    (
                                        if env.collecting {
                                            before.push(
                                                ResolvedView { kind: d.kind, plan, locked: None },
                                            )
                                        } else {
                                            before
                                        },
                                        at + 1,
                                    ),
                                ),
                            }
                        },
                    },
                }
            },
        }
    }
}

/// The identity of an edge that waits for the lockfile.
pub open spec fn provisional_id(package: Seq<char>) -> PackageIdView {
    PackageIdView {
        name: package,
        version: VersionView {
            major: 0,
            minor: 0,
            patch: 0,
            pre: Seq::empty(),
            build: Seq::empty(),
        },
        source: SourceView::Registry(Seq::empty()),
    }
}

/// The model's edge for a dependency.
pub open spec fn dep_of(plan: DepPlanView, package: PackageIdView) -> DepView {
    DepView {
        extern_name: plan.extern_name,
        package,
        optional: plan.optional,
        default_features: plan.default_features,
        features: plan.features,
        target: plan.target,
    }
}

/// The dependencies of one list.
pub open spec fn deps_of(resolved: Seq<ResolvedView>, ids: Seq<PackageIdView>, kind: DepKind, n: int) -> Seq<
    DepView,
>
    decreases n,
{
    if n <= 0 {
        Seq::empty()
    } else {
        let before = deps_of(resolved, ids, kind, n - 1);
        if resolved[n - 1].kind == kind {
            before.push(dep_of(resolved[n - 1].plan, ids[n - 1]))
        } else {
            before
        }
    }
}

/// The identity of the package in a directory, where it has been imported.
pub open spec fn imported_in(packages: Seq<(Seq<char>, PackageView)>, dir: Seq<char>) -> Option<
    PackageIdView,
>
    decreases packages.len(),
{
    if packages.len() == 0 {
        None
    } else if packages.last().0 == dir {
        Some(packages.last().1.id)
    } else {
        imported_in(packages.drop_last(), dir)
    }
}

/// Where a directory belongs among packages in the order of paths.
pub open spec fn place_of(packages: Seq<(Seq<char>, PackageView)>, dir: Seq<char>, from: int) -> int
    decreases packages.len() - from,
{
    if from < 0 || from >= packages.len() || path_lt(dir, packages[from].0) {
        from
    } else {
        place_of(packages, dir, from + 1)
    }
}

/// Whether a directory is being imported.
pub open spec fn is_visiting(visiting: Seq<(Seq<char>, bool)>, dir: Seq<char>) -> bool {
    exists|k: int| 0 <= k < visiting.len() && (#[trigger] visiting[k]).0 == dir
}

/// Whether a dev or optional edge lies on the way from a directory being imported
/// to the innermost one.
pub open spec fn has_dev_edge(visiting: Seq<(Seq<char>, bool)>, dir: Seq<char>) -> bool {
    exists|j: int, k: int|
        0 <= j < k < visiting.len() && (#[trigger] visiting[j]).0 == dir && (
        #[trigger] visiting[k]).1
}

/// What a package is before its dependencies are known.
pub open spec fn bare_package(
    env: EnvView<'_>,
    manifest: CargoManifest,
    package: CargoPackage,
    fields: Option<CargoWorkspacePackage>,
    id: PackageIdView,
    canonical: Seq<char>,
    version: Seq<char>,
    edition: Seq<char>,
) -> Result<PackageView, StopView> {
    let missing = first_missing(env.disk, target_queries(manifest, package, canonical), 0);
    let tables = merged_tables(env.disk, manifest);
    match edition_of(edition) {
        Err(fault) => Err(StopView::Failed(fault)),
        Ok(e) => if missing is Some {
            Err(StopView::Need(missing->0))
        } else {
            match (
                build_script_of(package, env.disk, canonical),
                lib_of(manifest, package, env.disk, canonical),
            ) {
                (Err(fault), _) => Err(StopView::Failed(fault)),
                (_, Err(fault)) => Err(StopView::Failed(fault)),
                (Ok(build_script), Ok(lib)) => match tables {
                    Err(stop) => Err(stop),
                    Ok(merged) => Ok(
                        PackageView {
                            id,
                            name: package.name@,
                            dir: canonical,
                            version,
                            edition: e,
                            lib,
                            bins: bins_of(manifest, package, env.disk, canonical),
                            examples: examples_of(manifest, package, env.disk, canonical),
                            tests: tests_of(manifest, package, lib, env.disk, canonical),
                            build_script,
                            links: opt_view(package.links),
                            deps: Seq::empty(),
                            optional_anywhere: merged.optional_anywhere,
                            build_deps: Seq::empty(),
                            dev_deps: Seq::empty(),
                            features: features_view(manifest.features@),
                            has_default_feature: manifest.features@.contains_key("default"@),
                            rustflags: Seq::empty(),
                            env: about_env(package.about@, fields),
                        },
                    ),
                },
            }
        },
    }
}

/// The declarations of a package that count: dev-dependencies only those of a
/// workspace member.
pub open spec fn decls_of(manifest: CargoManifest, is_member: bool) -> Seq<DeclView> {
    declared_all(manifest, DepKind::Normal) + declared_all(manifest, DepKind::Build) + (
    if is_member {
        declared_all(manifest, DepKind::Dev)
    } else {
        Seq::empty()
    })
}

/// What is forced on a path dependency: the source of the git checkout that it
/// lies in.
pub open spec fn forced_below(forced: Option<ForcedView>) -> Option<ForcedView> {
    match forced {
        Some(ForcedView::Source(source)) => Some(ForcedView::Source(source)),
        _ => None,
    }
}

/// What a locked package forces.
pub open spec fn forced_by(locked: LockedView) -> ForcedView {
    if locked.propagate_source {
        ForcedView::Source(locked.id.source)
    } else {
        ForcedView::Exact(locked.id)
    }
}

/// The import of the package in a directory: its identity, and what has been
/// imported with it. `n` bounds how deep packages lie below one another.
///
/// A package is imported once. Cargo permits cycles that contain a
/// dev-dependency or an optional edge anywhere in the cycle; other cycles are
/// rejected.
pub open spec fn imported(
    env: EnvView<'_>,
    st: ImportView,
    dir: Seq<char>,
    is_member: bool,
    via_dev: bool,
    forced: Option<ForcedView>,
    ws: Option<&CargoWorkspace>,
    n: nat,
) -> Result<(ImportView, PackageIdView), StopView>
    decreases n, 1int, 0int,
{
    if !env.disk.canonical@.contains_key(dir) {
        Err(StopView::Need(QueryView::Canonical(dir)))
    } else {
        match env.disk.canonical@[dir] {
            Err(why) => Err(StopView::Failed(ImportFault::Io(dir, why@))),
            Ok(c) => {
                let canonical = c@;
                let member = is_member || env.members.contains(canonical);
                if let Some(id) = imported_in(st.packages, canonical) {
                    Ok((st, id))
                } else if !env.disk.manifests@.contains_key(canonical) {
                    Err(StopView::Need(QueryView::Manifest(canonical)))
                } else {
                    match env.disk.manifests@[canonical] {
                        Err(e) => Err(StopView::Failed(e@)),
                        Ok(manifest) => {
                            let own = match manifest.workspace {
                                Some(w) => Some(&w),
                                None => ws,
                            };
                            match manifest.package {
                                None => Err(
                                    StopView::Failed(
                                        ImportFault::Unsupported(
                                            canonical
                                                + " declares a workspace but not a package"@,
                                        ),
                                    ),
                                ),
                                Some(package) => imported_package(
                                    env,
                                    st,
                                    dir,
                                    canonical,
                                    member,
                                    via_dev,
                                    forced,
                                    manifest,
                                    package,
                                    own,
                                    n,
                                ),
                            }
                        },
                    }
                }
            },
        }
    }
}

/// The import of a package whose manifest is known.
pub open spec fn imported_package(
    env: EnvView<'_>,
    st: ImportView,
    dir: Seq<char>,
    canonical: Seq<char>,
    member: bool,
    via_dev: bool,
    forced: Option<ForcedView>,
    manifest: CargoManifest,
    package: CargoPackage,
    ws: Option<&CargoWorkspace>,
    n: nat,
) -> Result<(ImportView, PackageIdView), StopView>
    decreases n, 0int, 1int,
{
    let name = package.name@;
    let fields = inherited_package(ws);
    match (
        resolved_field(package.version, fields, name, "version"@, canonical, "0.0.0"@),
        resolved_field(package.edition, fields, name, "edition"@, canonical, "2015"@),
    ) {
        (Err(fault), _) => Err(StopView::Failed(fault)),
        (_, Err(fault)) => Err(StopView::Failed(fault)),
        (Ok(version), Ok(edition)) => match identity_of(
            name,
            version,
            parsed_version(semver_parsed(version)),
            forced,
            member,
            dir,
            canonical,
            env.root,
        ) {
            Err(fault) => Err(StopView::Failed(fault)),
            Ok(id) => if is_visiting(st.visiting, canonical) {
                if via_dev || has_dev_edge(st.visiting, canonical) {
                    Ok((st, id))
                } else {
                    Err(
                        StopView::Failed(
                            ImportFault::Unsupported(
                                "cyclic path dependency involving "@ + dir,
                            ),
                        ),
                    )
                }
            } else {
                match bare_package(
                    env,
                    manifest,
                    package,
                    fields,
                    id,
                    canonical,
                    version,
                    edition,
                ) {
                    Err(stop) => Err(stop),
                    Ok(bare) => {
                        let decls = decls_of(manifest, member);
                        match resolved_decls(
                            env,
                            id,
                            canonical,
                            ws,
                            decls,
                            decls.len() as int,
                            st.used,
                        ) {
                            Err(stop) => Err(stop),
                            Ok((deps, used)) => {
                                let within = ImportView {
                                    visiting: st.visiting.push((canonical, via_dev)),
                                    used,
                                    ..st
                                };
                                match imported_deps(env, within, deps, deps.len() as int, forced, ws, n) {
                                    Err(stop) => Err(stop),
                                    Ok((after, ids)) => {
                                        let k = deps.len() as int;
                                        let done = PackageView {
                                            deps: deps_of(deps, ids, DepKind::Normal, k),
                                            build_deps: deps_of(deps, ids, DepKind::Build, k),
                                            dev_deps: deps_of(deps, ids, DepKind::Dev, k),
                                            ..bare
                                        };
                                        Ok(
                                            (
                                                ImportView {
                                                    packages: after.packages.insert(
                                                        place_of(after.packages, canonical, 0),
                                                        (canonical, done),
                                                    ),
                                                    visiting: st.visiting,
                                                    used: after.used,
                                                },
                                                id,
                                            ),
                                        )
                                    },
                                }
                            },
                        }
                    },
                }
            },
        },
    }
}

/// The import of the first `k` of these dependencies, in turn: the identities of
/// their packages.
pub open spec fn imported_deps(
    env: EnvView<'_>,
    st: ImportView,
    deps: Seq<ResolvedView>,
    k: int,
    forced: Option<ForcedView>,
    ws: Option<&CargoWorkspace>,
    n: nat,
) -> Result<(ImportView, Seq<PackageIdView>), StopView>
    decreases n, 0int, 0int, k,
{
    if k <= 0 {
        Ok((st, Seq::empty()))
    } else {
        match imported_deps(env, st, deps, k - 1, forced, ws, n) {
            Err(stop) => Err(stop),
            Ok((before, ids)) => {
                let dep = deps[k - 1];
                let via = dep.kind == DepKind::Dev || dep.plan.optional;
                match (dep.plan.origin, dep.locked) {
                    (OriginView::Path(path), _) => if n == 0 {
                        Err(StopView::Failed(ImportFault::Unsupported(Seq::empty())))
                    } else {
                        match imported(
                            env,
                            before,
                            path,
                            false,
                            via,
                            forced_below(forced),
                            ws,
                            (n - 1) as nat,
                        ) {
                            Err(stop) => Err(stop),
                            Ok((after, id)) => if id.name != dep.plan.package {
                                Err(
                                    StopView::Failed(
                                        ImportFault::Unsupported(
                                            "path dependency "@ + replace_spec(
                                                dep.plan.extern_name,
                                                '_',
                                                '-',
                                            ) + " = { path = "@ + quoted(path)
                                                + " } resolves to package "@ + quoted(id.name)
                                                + ", not "@ + quoted(dep.plan.package),
                                        ),
                                    ),
                                )
                            } else {
                                Ok((after, ids.push(id)))
                            },
                        }
                    },
                    (OriginView::Edge(_), Some(locked)) => if n == 0 {
                        Err(StopView::Failed(ImportFault::Unsupported(Seq::empty())))
                    } else {
                        match imported(
                            env,
                            before,
                            locked.source_dir,
                            false,
                            via,
                            Some(forced_by(locked)),
                            ws,
                            (n - 1) as nat,
                        ) {
                            Err(stop) => Err(stop),
                            Ok((after, id)) => Ok((after, ids.push(id))),
                        }
                    },
                    (OriginView::Edge(_), None) => Ok(
                        (before, ids.push(provisional_id(dep.plan.package))),
                    ),
                }
            },
        }
    }
}

/// A dependency ready for import.
struct ResolvedDep {
    kind: DepKind,
    plan: DepPlan,
    locked: Option<LockedSource>,
}

/// What an optional locked source holds.
pub open spec fn locked_view(locked: Option<LockedSource>) -> Option<LockedView> {
    match locked {
        Some(l) => Some(l@),
        None => None,
    }
}

impl ResolvedDep {
    spec fn resolved(self) -> ResolvedView {
        ResolvedView { kind: self.kind, plan: self.plan@, locked: locked_view(self.locked) }
    }
}

spec fn resolved_views(v: Seq<ResolvedDep>) -> Seq<ResolvedView> {
    v.map_values(|d: ResolvedDep| d.resolved())
}

/// How far an import has come.
struct Importing {
    packages: Vec<(String, Package)>,
    visiting: Vec<(String, bool)>,
    used: usize,
}

/// What the imported packages are.
pub open spec fn packages_view(v: Seq<(String, Package)>) -> Seq<(Seq<char>, PackageView)> {
    v.map_values(|e: (String, Package)| (e.0@, e.1@))
}

/// What the directories being imported are.
pub open spec fn visiting_view(v: Seq<(String, bool)>) -> Seq<(Seq<char>, bool)> {
    v.map_values(|e: (String, bool)| (e.0@, e.1))
}

impl Importing {
    spec fn state(self) -> ImportView {
        ImportView {
            packages: packages_view(self.packages@),
            visiting: visiting_view(self.visiting@),
            used: self.used as int,
        }
    }
}

proof fn lemma_resolved_stop(
    env: EnvView<'_>,
    parent: PackageIdView,
    member: Seq<char>,
    ws: Option<&CargoWorkspace>,
    decls: Seq<DeclView>,
    a: int,
    b: int,
    used: int,
)
    requires
        a <= b,
        resolved_decls(env, parent, member, ws, decls, a, used) is Err,
    ensures
        resolved_decls(env, parent, member, ws, decls, b, used) == resolved_decls(
            env,
            parent,
            member,
            ws,
            decls,
            a,
            used,
        ),
    decreases b,
{
    if a < b {
        lemma_resolved_stop(env, parent, member, ws, decls, a, b - 1, used);
    }
}

/// Resolves the declarations of a package. The edges take their answers in
/// turn.
fn resolve_deps(
    env: &ImportEnv<'_>,
    parent: &PackageId,
    member: &str,
    ws: Option<&CargoWorkspace>,
    decls: &Vec<Declaration<'_>>,
    used: usize,
) -> (r: Result<(Vec<ResolvedDep>, usize), ImportStop>)
    requires
        used <= env.answers@.len(),
    ensures
        match r {
            Ok((deps, at)) => resolved_decls(
                env.view(),
                parent@,
                member@,
                ws,
                decls_view(decls@),
                decls@.len() as int,
                used as int,
            ) == Ok::<(Seq<ResolvedView>, int), StopView>((resolved_views(deps@), at as int)) && at
                <= env.answers@.len(),
            Err(stop) => resolved_decls(
                env.view(),
                parent@,
                member@,
                ws,
                decls_view(decls@),
                decls@.len() as int,
                used as int,
            ) == Err::<(Seq<ResolvedView>, int), StopView>(stop@),
        },
{
    let ghost all = decls_view(decls@);
    let inherited: Option<&StrMap<DepValue>> = match ws {
        Some(w) => Some(&w.dependencies),
        None => None,
    };
    let mut out: Vec<ResolvedDep> = Vec::new();
    let mut at: usize = used;
    let mut i: usize = 0;
    assert(resolved_views(out@) =~= Seq::<ResolvedView>::empty());
    while i < decls.len()
        invariant
            i <= decls@.len(),
            all == decls_view(decls@),
            at <= env.answers@.len(),
            inherited == inherited_deps(ws),
            resolved_decls(env.view(), parent@, member@, ws, all, i as int, used as int) == Ok::<
                (Seq<ResolvedView>, int),
                StopView,
            >((resolved_views(out@), at as int)),
        decreases decls@.len() - i,
    {
        let d = &decls[i];
        assert(all[i as int] == d.decl());
        let ghost before = out@;
        match plan_dep(
            d.name.as_str(),
            d.value,
            d.target,
            parent,
            member,
            env.root,
            inherited,
            env.patches,
        ) {
            Err(e) => {
                proof {
                    lemma_resolved_stop(
                        env.view(),
                        parent@,
                        member@,
                        ws,
                        all,
                        i as int + 1,
                        all.len() as int,
                        used as int,
                    );
                }
                return Err(ImportStop::Failed(e));
            },
            Ok(plan) => {
                let mut keep = true;
                let mut locked: Option<LockedSource> = None;
                if let Origin::Edge(_) = &plan.origin {
                    if at >= env.answers.len() {
                        proof {
                            lemma_resolved_stop(
                                env.view(),
                                parent@,
                                member@,
                                ws,
                                all,
                                i as int + 1,
                                all.len() as int,
                                used as int,
                            );
                        }
                        return match plan.origin {
                            Origin::Edge(edge) => Err(ImportStop::Need(Query::Lock(edge))),
                            Origin::Path(path) => Err(ImportStop::Need(Query::Canonical(path))),
                        };
                    }
                    match &env.answers[at] {
                        Err(e) => {
                            proof {
                                lemma_resolved_stop(
                                    env.view(),
                                    parent@,
                                    member@,
                                    ws,
                                    all,
                                    i as int + 1,
                                    all.len() as int,
                                    used as int,
                                );
                            }
                            return Err(ImportStop::Failed(e.copy()));
                        },
                        Ok(Some(l)) => {
                            locked = Some(l.clone());
                        },
                        Ok(None) => {
                            keep = env.collecting;
                        },
                    }
                    at += 1;
                }
                if keep {
                    let dep = ResolvedDep { kind: d.kind, plan, locked };
                    out.push(dep);
                    assert(resolved_views(out@) =~= resolved_views(before).push(dep.resolved()));
                }
            },
        }
        i += 1;
    }
    Ok((out, at))
}

/// A table of features with the texts of `m`.
fn copy_features(m: &StrMap<Vec<String>>) -> (r: StrMap<Vec<String>>)
    ensures
        features_view(r@) == features_view(m@),
{
    let n = m.len();
    let mut out: StrMap<Vec<String>> = StrMap::new();
    let mut i: usize = 0;
    while i < n
        invariant
            i <= n,
            n == m.keys().len(),
            n == m.values().len(),
            m.keys().no_duplicates(),
            forall|k: Seq<char>| #[trigger]
                out@.contains_key(k) <==> exists|j: int| 0 <= j < i && #[trigger] m.keys()[j] == k,
            forall|j: int|
                0 <= j < i ==> texts(out@[#[trigger] m.keys()[j]]@) == texts(m.values()[j]@),
        decreases n - i,
    {
        let ghost before = out@;
        out.insert(m.key(i).clone(), copy_texts(m.value(i)));
        proof {
            assert forall|k: Seq<char>| #[trigger]
                out@.contains_key(k) <==> exists|j: int|
                0 <= j < i + 1 && #[trigger] m.keys()[j] == k by {
                if before.contains_key(k) {
                    let j = choose|j: int| 0 <= j < i && #[trigger] m.keys()[j] == k;
                    assert(0 <= j < i + 1 && m.keys()[j] == k);
                }
                assert(m.keys()[i as int] == m.keys()[i as int]);
            }
            assert forall|j: int| 0 <= j < i + 1 implies texts(out@[#[trigger] m.keys()[j]]@)
                == texts(m.values()[j]@) by {
                if j < i {
                    assert(m.keys()[j] != m.keys()[i as int]);
                }
            }
        }
        i += 1;
    }
    proof {
        let a = features_view(out@);
        let b = features_view(m@);
        assert(a.dom() =~= b.dom());
        assert forall|k: Seq<char>| b.dom().contains(k) implies a[k] == b[k] by {
            let j = choose|j: int| 0 <= j < m.keys().len() && m.keys()[j] == k;
            assert(m@.contains_key(m.keys()[j]));
            assert(texts(out@[m.keys()[j]]@) == texts(m.values()[j]@));
        }
        assert(a =~= b);
    }
    out
}

/// What a package or a stop is.
spec fn package_result(r: Result<(Package, Vec<Declaration<'_>>), ImportStop>) -> Result<
    PackageView,
    StopView,
> {
    match r {
        Ok((p, _)) => Ok(p@),
        Err(stop) => Err(stop@),
    }
}

/// Reads what a manifest and a directory say of a package, but for where its
/// dependencies lead, and lists what it declares of these.
fn read_package<'a>(
    env: &ImportEnv<'_>,
    manifest: &'a CargoManifest,
    member: bool,
    package: &CargoPackage,
    fields: &Option<CargoWorkspacePackage>,
    id: &PackageId,
    canonical: &str,
    version: &str,
    edition: &str,
) -> (r: Result<(Package, Vec<Declaration<'a>>), ImportStop>)
    ensures
        r matches Ok((_, decls)) ==> decls_view(decls@) == decls_of(*manifest, member),
        package_result(r) == bare_package(
            env.view(),
            *manifest,
            *package,
            *fields,
            id@,
            canonical@,
            version@,
            edition@,
        ),
{
    let parsed = match parse_edition(edition) {
        Ok(e) => e,
        Err(e) => return Err(ImportStop::Failed(e)),
    };
    if let Some(query) = take_missing(env.disk, list_target_queries(manifest, package, canonical)) {
        return Err(ImportStop::Need(query));
    }
    let build_script = match find_build_script(package, env.disk, canonical) {
        Ok(script) => script,
        Err(e) => return Err(ImportStop::Failed(e)),
    };
    let lib = match find_lib(manifest, package, env.disk, canonical) {
        Ok(lib) => lib,
        Err(e) => return Err(ImportStop::Failed(e)),
    };
    let tables = match merge_target_tables(env.disk, manifest) {
        Ok(tables) => tables,
        Err(stop) => return Err(stop),
    };
    let tests = find_tests(manifest, package, &lib, env.disk, canonical);
    let out = Package {
        id: id.clone(),
        name: package.name.clone(),
        dir: owned(canonical),
        version: owned(version),
        edition: parsed,
        lib,
        bins: find_bins(manifest, package, env.disk, canonical),
        examples: find_examples(manifest, package, env.disk, canonical),
        tests,
        build_script,
        links: copy_opt(&package.links),
        deps: Vec::new(),
        optional_anywhere: tables.optional_anywhere.clone(),
        build_deps: Vec::new(),
        dev_deps: Vec::new(),
        features: copy_features(&manifest.features),
        has_default_feature: manifest.features.contains_key("default"),
        rustflags: Vec::new(),
        env: make_about_env(&package.about, fields),
    };
    proof {
        assert(out@.deps =~= Seq::<DepView>::empty());
        assert(out@.build_deps =~= Seq::<DepView>::empty());
        assert(out@.dev_deps =~= Seq::<DepView>::empty());
        assert(out@.rustflags =~= Seq::<Seq<char>>::empty());
    }
    Ok((out, all_decls(tables, member)))
}

/// Whether the bound leaves room for every directory that is not being imported.
spec fn fits(env: EnvView<'_>, visiting: Seq<(Seq<char>, bool)>, n: nat) -> bool {
    &&& n + visiting.len() == env.disk.manifests.keys().len()
    &&& forall|k: int|
        0 <= k < visiting.len() ==> env.disk.manifests@.contains_key((#[trigger] visiting[k]).0)
    &&& forall|j: int, k: int|
        0 <= j < k < visiting.len() ==> (#[trigger] visiting[j]).0 != (#[trigger] visiting[k]).0
}

proof fn lemma_room(env: EnvView<'_>, visiting: Seq<(Seq<char>, bool)>, n: nat, dir: Seq<char>, via: bool)
    requires
        fits(env, visiting, n),
        env.disk.manifests@.contains_key(dir),
        !is_visiting(visiting, dir),
    ensures
        n > 0,
        fits(env, visiting.push((dir, via)), (n - 1) as nat),
{
    let more = visiting.push((dir, via));
    assert forall|j: int, k: int| 0 <= j < k < more.len() implies (#[trigger] more[j]).0 != (
    #[trigger] more[k]).0 by {
        if k == visiting.len() {
            assert(visiting[j].0 != dir);
        }
    }
    let dirs = more.map_values(|e: (Seq<char>, bool)| e.0);
    assert(dirs.no_duplicates()) by {
        assert forall|j: int, k: int|
            0 <= j < dirs.len() && 0 <= k < dirs.len() && j != k implies dirs[j] != dirs[k] by {
            if j < k {
                assert(more[j].0 != more[k].0);
            } else {
                assert(more[k].0 != more[j].0);
            }
        }
    }
    let keys = env.disk.manifests.keys();
    assert forall|d: Seq<char>| dirs.to_set().contains(d) implies keys.to_set().contains(d) by {
        let k = choose|k: int| 0 <= k < dirs.len() && dirs[k] == d;
        assert(env.disk.manifests@.contains_key(more[k].0));
        assert(keys.contains(d));
    }
    dirs.unique_seq_to_set();
    keys.lemma_cardinality_of_set();
    vstd::set_lib::lemma_len_subset(dirs.to_set(), keys.to_set());
}

/// Whether every package of one list is in another, as it was.
spec fn stay(before: Seq<(String, Package)>, after: Seq<(String, Package)>) -> bool {
    forall|e: (String, Package)| #[trigger] before.contains(e) ==> after.contains(e)
}

/// What an import has come to.
spec fn agrees(
    r: Result<PackageId, ImportStop>,
    after: Importing,
    want: Result<(ImportView, PackageIdView), StopView>,
) -> bool {
    match r {
        Ok(id) => want == Ok::<(ImportView, PackageIdView), StopView>((after.state(), id@)),
        Err(stop) => want == Err::<(ImportView, PackageIdView), StopView>(stop@),
    }
}

/// The identity of the package in a directory, where it has been imported.
fn find_imported(packages: &Vec<(String, Package)>, dir: &str) -> (r: Option<PackageId>)
    ensures
        (match r {
            Some(id) => Some(id@),
            None => None,
        }) == imported_in(packages_view(packages@), dir@),
{
    let ghost all = packages_view(packages@);
    let mut i: usize = packages.len();
    assert(all.take(all.len() as int) =~= all);
    while i > 0
        invariant
            i <= packages@.len(),
            all == packages_view(packages@),
            imported_in(all, dir@) == imported_in(all.take(i as int), dir@),
        decreases i,
    {
        i -= 1;
        proof {
            let t = all.take(i as int + 1);
            assert(t.last() == (packages@[i as int].0@, packages@[i as int].1@));
            assert(t.drop_last() =~= all.take(i as int));
        }
        if same(packages[i].0.as_str(), dir) {
            return Some(packages[i].1.id.clone());
        }
    }
    None
}

/// Where a directory belongs among packages in the order of paths.
fn find_place(packages: &Vec<(String, Package)>, dir: &str) -> (r: usize)
    ensures
        r == place_of(packages_view(packages@), dir@, 0),
        r <= packages@.len(),
{
    let ghost all = packages_view(packages@);
    let mut i: usize = 0;
    while i < packages.len() && !path_less(dir, packages[i].0.as_str())
        invariant
            i <= packages@.len(),
            all == packages_view(packages@),
            place_of(all, dir@, 0) == place_of(all, dir@, i as int),
        decreases packages@.len() - i,
    {
        assert(all[i as int].0 == packages@[i as int].0@);
        i += 1;
    }
    if i < packages.len() {
        assert(all[i as int].0 == packages@[i as int].0@);
    }
    i
}

/// Files a package under its directory; the others stay as they are.
fn file_package(packages: &mut Vec<(String, Package)>, dir: &str, package: Package)
    ensures
        packages_view(final(packages)@) == packages_view(old(packages)@).insert(
            place_of(packages_view(old(packages)@), dir@, 0),
            (dir@, package@),
        ),
        stay(old(packages)@, final(packages)@),
{
    let at = find_place(packages, dir);
    let ghost before = packages@;
    packages.insert(at, (owned(dir), package));
    proof {
        assert(packages_view(packages@) =~= packages_view(before).insert(
            at as int,
            (dir@, package@),
        ));
        assert forall|e: (String, Package)| #[trigger] before.contains(e) implies packages@.contains(
            e,
        ) by {
            let k = choose|k: int| 0 <= k < before.len() && before[k] == e;
            if k < at {
                assert(packages@[k] == e);
            } else {
                assert(packages@[k + 1] == e);
            }
        }
    }
}

/// Whether a directory is being imported, and whether a dev or optional edge lies
/// on the way from it to the innermost one.
fn scan_visiting(visiting: &Vec<(String, bool)>, dir: &str) -> (r: (bool, bool))
    ensures
        r.0 == is_visiting(visiting_view(visiting@), dir@),
        r.1 == has_dev_edge(visiting_view(visiting@), dir@),
{
    let ghost all = visiting_view(visiting@);
    let mut here = false;
    let mut dev = false;
    let mut i: usize = 0;
    while i < visiting.len()
        invariant
            i <= visiting@.len(),
            all == visiting_view(visiting@),
            here == exists|k: int| 0 <= k < i && (#[trigger] all[k]).0 == dir@,
            dev == has_dev_edge(all.take(i as int), dir@),
        decreases visiting@.len() - i,
    {
        assert(all[i as int] == (visiting@[i as int].0@, visiting@[i as int].1));
        proof {
            lemma_dev_edge_push(all.take(i as int), all[i as int], dir@);
            assert(all.take(i as int + 1) =~= all.take(i as int).push(all[i as int]));
            assert(is_visiting(all.take(i as int), dir@) == here) by {
                if here {
                    let k = choose|k: int| 0 <= k < i && (#[trigger] all[k]).0 == dir@;
                    assert(all.take(i as int)[k].0 == dir@);
                }
                if is_visiting(all.take(i as int), dir@) {
                    let k = choose|k: int|
                        0 <= k < i && (#[trigger] all.take(i as int)[k]).0 == dir@;
                    assert(all[k].0 == dir@);
                }
            }
        }
        if here && visiting[i].1 {
            dev = true;
        }
        if same(visiting[i].0.as_str(), dir) {
            here = true;
        }
        i += 1;
    }
    assert(all.take(all.len() as int) =~= all);
    (here, dev)
}

proof fn lemma_dev_edge_push(
    visiting: Seq<(Seq<char>, bool)>,
    next: (Seq<char>, bool),
    dir: Seq<char>,
)
    ensures
        has_dev_edge(visiting.push(next), dir) <==> has_dev_edge(visiting, dir) || (is_visiting(
            visiting,
            dir,
        ) && next.1),
{
    let more = visiting.push(next);
    if has_dev_edge(visiting, dir) {
        let (j, k) = choose|j: int, k: int|
            0 <= j < k < visiting.len() && (#[trigger] visiting[j]).0 == dir && (
            #[trigger] visiting[k]).1;
        assert(more[j].0 == dir && more[k].1);
    }
    if is_visiting(visiting, dir) && next.1 {
        let j = choose|j: int| 0 <= j < visiting.len() && (#[trigger] visiting[j]).0 == dir;
        assert(more[j].0 == dir && more[visiting.len() as int].1);
    }
    if has_dev_edge(more, dir) {
        let (j, k) = choose|j: int, k: int|
            0 <= j < k < more.len() && (#[trigger] more[j]).0 == dir && (#[trigger] more[k]).1;
        assert(visiting[j].0 == dir);
        if k < visiting.len() {
            assert(visiting[k].1);
        }
    }
}

/// Imports the package at `dir` (a workspace member or a dependency), and its
/// dependencies with it. Returns the package's exact identity. Cycles are
/// rejected, matching Cargo.
///
/// `forced` overrides the derived identity: registry checkouts imported from
/// the lock keep the lock's exact `(name, version, source)`, and git checkouts
/// keep the git source (propagated to nested path dependencies).
fn import_package<'a>(
    env: &ImportEnv<'a>,
    st: &mut Importing,
    dir: &str,
    is_member: bool,
    via_dev: bool,
    forced: &Option<ForcedIdentity>,
    ws: Option<&'a CargoWorkspace>,
    n: usize,
) -> (r: Result<PackageId, ImportStop>)
    requires
        fits(env.view(), old(st).state().visiting, n as nat),
        old(st).used <= env.answers@.len(),
    ensures
        agrees(
            r,
            *final(st),
            imported(
                env.view(),
                old(st).state(),
                dir@,
                is_member,
                via_dev,
                forced_view(*forced),
                ws,
                n as nat,
            ),
        ),
        final(st).visiting@ == old(st).visiting@,
        stay(old(st).packages@, final(st).packages@),
        r is Ok ==> final(st).used <= env.answers@.len(),
    decreases n, 1int, 0int,
{
    let disk: &'a Disk = env.disk;
    let canonical = match disk.canonical.get(dir) {
        None => return Err(ImportStop::Need(Query::Canonical(owned(dir)))),
        Some(Err(why)) => return Err(
            ImportStop::Failed(CargoImportError::Io(owned(dir), why.clone())),
        ),
        Some(Ok(c)) => c.as_str(),
    };
    if let Some(id) = find_imported(&st.packages, canonical) {
        return Ok(id);
    }
    // A package reached through a dependency is still a member when the
    // members list names it: dev-dependencies and the workspace identity then
    // apply.
    let member = is_member || list_contains(env.members, canonical);
    let manifest: &'a CargoManifest = match disk.manifests.get(canonical) {
        None => return Err(ImportStop::Need(Query::Manifest(owned(canonical)))),
        Some(Err(e)) => return Err(ImportStop::Failed(e.copy())),
        Some(Ok(m)) => m,
    };
    // A path dependency may be its own workspace root; its tables then apply,
    // not the importer's.
    let own: Option<&'a CargoWorkspace> = match &manifest.workspace {
        Some(w) => Some(w),
        None => ws,
    };
    match &manifest.package {
        None => Err(
            ImportStop::Failed(
                CargoImportError::Unsupported(
                    cat(canonical, " declares a workspace but not a package"),
                ),
            ),
        ),
        Some(package) => import_known(
            env,
            st,
            dir,
            canonical,
            member,
            via_dev,
            forced,
            manifest,
            package,
            own,
            n,
        ),
    }
}

/// Imports a package whose manifest is known.
fn import_known<'a>(
    env: &ImportEnv<'a>,
    st: &mut Importing,
    dir: &str,
    canonical: &str,
    member: bool,
    via_dev: bool,
    forced: &Option<ForcedIdentity>,
    manifest: &'a CargoManifest,
    package: &'a CargoPackage,
    ws: Option<&'a CargoWorkspace>,
    n: usize,
) -> (r: Result<PackageId, ImportStop>)
    requires
        fits(env.view(), old(st).state().visiting, n as nat),
        old(st).used <= env.answers@.len(),
        env.disk.manifests@.contains_key(canonical@),
    ensures
        agrees(
            r,
            *final(st),
            imported_package(
                env.view(),
                old(st).state(),
                dir@,
                canonical@,
                member,
                via_dev,
                forced_view(*forced),
                *manifest,
                *package,
                ws,
                n as nat,
            ),
        ),
        final(st).visiting@ == old(st).visiting@,
        stay(old(st).packages@, final(st).packages@),
        r is Ok ==> final(st).used <= env.answers@.len(),
    decreases n, 0int, 1int,
{
    let ghost start = st.state();
    let ghost start_visiting = st.visiting@;
    let name = package.name.as_str();
    let none: Option<CargoWorkspacePackage> = None;
    let fields: &Option<CargoWorkspacePackage> = match ws {
        Some(w) => &w.package,
        None => &none,
    };
    let version = match resolve_field(
        &package.version,
        fields,
        name,
        "version",
        canonical,
        "0.0.0",
    ) {
        Ok(v) => v,
        Err(e) => return Err(ImportStop::Failed(e)),
    };
    let edition = match resolve_field(
        &package.edition,
        fields,
        name,
        "edition",
        canonical,
        "2015",
    ) {
        Ok(v) => v,
        Err(e) => return Err(ImportStop::Failed(e)),
    };
    let id = match package_identity(
        name,
        version.as_str(),
        Version::parse(version.as_str()),
        forced,
        member,
        dir,
        canonical,
        env.root,
    ) {
        Ok(id) => id,
        Err(e) => return Err(ImportStop::Failed(e)),
    };
    let (here, dev) = scan_visiting(&st.visiting, canonical);
    if here {
        if via_dev || dev {
            return Ok(id);
        }
        return Err(
            ImportStop::Failed(
                CargoImportError::Unsupported(cat("cyclic path dependency involving ", dir)),
            ),
        );
    }
    let (mut pkg, decls) = match read_package(
        env,
        manifest,
        member,
        package,
        fields,
        &id,
        canonical,
        version.as_str(),
        edition.as_str(),
    ) {
        Ok(p) => p,
        Err(stop) => return Err(stop),
    };
    let ghost bare = pkg@;
    let (resolved, used) = match resolve_deps(env, &id, canonical, ws, &decls, st.used) {
        Ok(r) => r,
        Err(stop) => return Err(stop),
    };
    let ghost deps_spec = resolved_views(resolved@);
    st.used = used;
    st.visiting.push((owned(canonical), via_dev));
    let ghost within = ImportView {
        visiting: start.visiting.push((canonical@, via_dev)),
        used: used as int,
        ..start
    };
    proof {
        assert(st.state().visiting =~= within.visiting);
        assert(st.state() == within);
        lemma_room(env.view(), start.visiting, n as nat, canonical@, via_dev);
    }
    let (deps, build_deps, dev_deps) = match import_deps(env, st, &resolved, forced, ws, n) {
        Ok(lists) => lists,
        Err(stop) => {
            st.visiting.pop();
            assert(st.visiting@ =~= start_visiting);
            return Err(stop);
        },
    };
    pkg.deps = deps;
    pkg.build_deps = build_deps;
    pkg.dev_deps = dev_deps;
    let ghost after = st.state();
    st.visiting.pop();
    proof {
        assert(st.visiting@ =~= start_visiting);
    }
    file_package(&mut st.packages, canonical, pkg);
    proof {
        assert(pkg@ == (PackageView {
            deps: pkg@.deps,
            build_deps: pkg@.build_deps,
            dev_deps: pkg@.dev_deps,
            ..bare
        }));
    }
    Ok(id)
}

/// Imports these dependencies in turn; gives the edges of the three lists.
fn import_deps<'a>(
    env: &ImportEnv<'a>,
    st: &mut Importing,
    resolved: &Vec<ResolvedDep>,
    forced: &Option<ForcedIdentity>,
    ws: Option<&'a CargoWorkspace>,
    n: usize,
) -> (r: Result<(Vec<Dep>, Vec<Dep>, Vec<Dep>), ImportStop>)
    requires
        n > 0,
        fits(env.view(), old(st).state().visiting, (n - 1) as nat),
        old(st).used <= env.answers@.len(),
    ensures
        match imported_deps(
            env.view(),
            old(st).state(),
            resolved_views(resolved@),
            resolved@.len() as int,
            forced_view(*forced),
            ws,
            n as nat,
        ) {
            Ok((after, ids)) => {
                let all = resolved_views(resolved@);
                let k = resolved@.len() as int;
                &&& r is Ok
                &&& final(st).state() == after
                &&& deps_view(r->Ok_0.0@) == deps_of(all, ids, DepKind::Normal, k)
                &&& deps_view(r->Ok_0.1@) == deps_of(all, ids, DepKind::Build, k)
                &&& deps_view(r->Ok_0.2@) == deps_of(all, ids, DepKind::Dev, k)
            },
            Err(stop) => r is Err && r->Err_0@ == stop,
        },
        final(st).visiting@ == old(st).visiting@,
        stay(old(st).packages@, final(st).packages@),
        r is Ok ==> final(st).used <= env.answers@.len(),
    decreases n, 0int, 0int,
{
    let ghost deps_spec = resolved_views(resolved@);
    let ghost within = st.state();
    let ghost visiting_now = st.visiting@;
    let mut deps: Vec<Dep> = Vec::new();
    let mut build_deps: Vec<Dep> = Vec::new();
    let mut dev_deps: Vec<Dep> = Vec::new();
    let ghost mut ids: Seq<PackageIdView> = Seq::empty();
    let mut k: usize = 0;
    proof {
        assert(deps_view(deps@) =~= Seq::<DepView>::empty());
        assert(deps_view(build_deps@) =~= Seq::<DepView>::empty());
        assert(deps_view(dev_deps@) =~= Seq::<DepView>::empty());
    }
    while k < resolved.len()
        invariant
            k <= resolved@.len(),
            n > 0,
            deps_spec == resolved_views(resolved@),
            within == old(st).state(),
            visiting_now == old(st).visiting@,
            st.visiting@ == visiting_now,
            stay(old(st).packages@, st.packages@),
            visiting_view(visiting_now) == within.visiting,
            st.used <= env.answers@.len(),
            fits(env.view(), within.visiting, (n - 1) as nat),
            ids.len() == k,
            imported_deps(
                env.view(),
                within,
                deps_spec,
                k as int,
                forced_view(*forced),
                ws,
                n as nat,
            ) == Ok::<(ImportView, Seq<PackageIdView>), StopView>((st.state(), ids)),
            deps_view(deps@) == deps_of(deps_spec, ids, DepKind::Normal, k as int),
            deps_view(build_deps@) == deps_of(deps_spec, ids, DepKind::Build, k as int),
            deps_view(dev_deps@) == deps_of(deps_spec, ids, DepKind::Dev, k as int),
        decreases resolved@.len() - k,
    {
        let dep = &resolved[k];
        assert(deps_spec[k as int] == dep.resolved());
        let via = dep.kind == DepKind::Dev || dep.plan.optional;
        let ghost total = deps_spec.len() as int;
        let found: PackageId = match (&dep.plan.origin, &dep.locked) {
            (Origin::Path(path), _) => {
                // A path dependency of a git checkout inherits the checkout's
                // source identity.
                let below: Option<ForcedIdentity> = match forced {
                    Some(ForcedIdentity::Source(source)) => Some(
                        ForcedIdentity::Source(source.clone()),
                    ),
                    _ => None,
                };
                match import_package(env, st, path.as_str(), false, via, &below, ws, n - 1) {
                    Ok(imported) => {
                        if !same(imported.name.as_str(), dep.plan.package.as_str()) {
                            proof {
                                lemma_deps_stop(
                                    env.view(),
                                    within,
                                    deps_spec,
                                    k as int + 1,
                                    total,
                                    forced_view(*forced),
                                    ws,
                                    n as nat,
                                );
                            }
                            return Err(ImportStop::Failed(wrong_name(&dep.plan, path, &imported)));
                        }
                        imported
                    },
                    Err(stop) => {
                        proof {
                            lemma_deps_stop(
                                env.view(),
                                within,
                                deps_spec,
                                k as int + 1,
                                total,
                                forced_view(*forced),
                                ws,
                                n as nat,
                            );
                        }
                        return Err(stop);
                    },
                }
            },
            (Origin::Edge(_), Some(locked)) => {
                let by = if locked.propagate_source {
                    ForcedIdentity::Source(locked.id.source.clone())
                } else {
                    ForcedIdentity::Exact(locked.id.clone())
                };
                match import_package(
                    env,
                    st,
                    locked.source_dir.as_str(),
                    false,
                    via,
                    &Some(by),
                    ws,
                    n - 1,
                ) {
                    Ok(imported) => imported,
                    Err(stop) => {
                        proof {
                            lemma_deps_stop(
                                env.view(),
                                within,
                                deps_spec,
                                k as int + 1,
                                total,
                                forced_view(*forced),
                                ws,
                                n as nat,
                            );
                        }
                        return Err(stop);
                    },
                }
            },
            (Origin::Edge(_), None) => {
                let source = String::new();
                proof {
                    reveal_strlit("");
                    assert(source@ =~= Seq::<char>::empty());
                }
                PackageId {
                    name: dep.plan.package.clone(),
                    version: Version::new(0, 0, 0),
                    source: SourceId::Registry(source),
                }
            },
        };
        let ghost ids_before = ids;
        proof {
            ids = ids.push(found@);
            lemma_deps_prefix(deps_spec, ids_before, found@, k as int);
        }
        let edge = Dep {
            extern_name: dep.plan.extern_name.clone(),
            package: found,
            optional: dep.plan.optional,
            default_features: dep.plan.default_features,
            features: copy_texts(&dep.plan.features),
            target: copy_opt(&dep.plan.target),
        };
        assert(edge@ == dep_of(deps_spec[k as int].plan, ids[k as int]));
        match dep.kind {
            DepKind::Normal => push_dep(&mut deps, edge),
            DepKind::Build => push_dep(&mut build_deps, edge),
            DepKind::Dev => push_dep(&mut dev_deps, edge),
        }
        k += 1;
    }
    Ok((deps, build_deps, dev_deps))
}

fn push_dep(out: &mut Vec<Dep>, dep: Dep)
    ensures
        deps_view(final(out)@) == deps_view(old(out)@).push(dep@),
{
    let ghost before = out@;
    out.push(dep);
    assert(deps_view(out@) =~= deps_view(before).push(dep@));
}

fn wrong_name(plan: &DepPlan, path: &String, found: &PackageId) -> (r: CargoImportError)
    ensures
        r@ == ImportFault::Unsupported(
            "path dependency "@ + replace_spec(plan.extern_name@, '_', '-') + " = { path = "@
                + quoted(path@) + " } resolves to package "@ + quoted(found.name@) + ", not "@
                + quoted(plan.package@),
        ),
{
    let mut out = cat5(
        "path dependency ",
        replace_char(plan.extern_name.as_str(), '_', '-').as_str(),
        " = { path = ",
        quote(path.as_str()).as_str(),
        " } resolves to package ",
    );
    out.append(quote(found.name.as_str()).as_str());
    out.append(", not ");
    out.append(quote(plan.package.as_str()).as_str());
    CargoImportError::Unsupported(out)
}

/// The dependencies of the first entries do not depend on later identities.
proof fn lemma_deps_prefix(resolved: Seq<ResolvedView>, ids: Seq<PackageIdView>, more: PackageIdView, n: int)
    requires
        n <= ids.len(),
    ensures
        deps_of(resolved, ids.push(more), DepKind::Normal, n) == deps_of(
            resolved,
            ids,
            DepKind::Normal,
            n,
        ),
        deps_of(resolved, ids.push(more), DepKind::Build, n) == deps_of(
            resolved,
            ids,
            DepKind::Build,
            n,
        ),
        deps_of(resolved, ids.push(more), DepKind::Dev, n) == deps_of(
            resolved,
            ids,
            DepKind::Dev,
            n,
        ),
    decreases n,
{
    if n > 0 {
        lemma_deps_prefix(resolved, ids, more, n - 1);
    }
}

proof fn lemma_deps_stop(
    env: EnvView<'_>,
    st: ImportView,
    deps: Seq<ResolvedView>,
    a: int,
    b: int,
    forced: Option<ForcedView>,
    ws: Option<&CargoWorkspace>,
    n: nat,
)
    requires
        a <= b,
        imported_deps(env, st, deps, a, forced, ws, n) is Err,
    ensures
        imported_deps(env, st, deps, b, forced, ws, n) == imported_deps(
            env,
            st,
            deps,
            a,
            forced,
            ws,
            n,
        ),
    decreases b,
{
    if a < b {
        lemma_deps_stop(env, st, deps, a, b - 1, forced, ws, n);
    }
}

/// The import of the first `n` members, in turn, with their identities.
pub open spec fn imported_members(
    env: EnvView<'_>,
    ws: Option<&CargoWorkspace>,
    members: Seq<Seq<char>>,
    n: int,
) -> Result<(ImportView, Seq<PackageIdView>), StopView>
    decreases n,
{
    if n <= 0 {
        Ok(
            (
                ImportView { packages: Seq::empty(), visiting: Seq::empty(), used: 0 },
                Seq::empty(),
            ),
        )
    } else {
        match imported_members(env, ws, members, n - 1) {
            Err(stop) => Err(stop),
            Ok((st, ids)) => match imported(
                env,
                st,
                members[n - 1],
                true,
                false,
                None,
                ws,
                env.disk.manifests.keys().len(),
            ) {
                Err(stop) => Err(stop),
                Ok((after, id)) => Ok((after, ids.push(id))),
            },
        }
    }
}

proof fn lemma_members_stop(
    env: EnvView<'_>,
    ws: Option<&CargoWorkspace>,
    members: Seq<Seq<char>>,
    a: int,
    b: int,
)
    requires
        a <= b,
        imported_members(env, ws, members, a) is Err,
    ensures
        imported_members(env, ws, members, b) == imported_members(env, ws, members, a),
    decreases b,
{
    if a < b {
        lemma_members_stop(env, ws, members, a, b - 1);
    }
}

/// Imports the members of a workspace, and every package they depend on: the
/// packages in the order of their canonical directories, and the identities of
/// the members in the order they are listed.
pub fn import_members<'a>(
    env: &ImportEnv<'a>,
    ws: Option<&'a CargoWorkspace>,
    members: &Vec<String>,
) -> (r: Result<(Vec<Package>, Vec<PackageId>), ImportStop>)
    ensures
        match imported_members(env.view(), ws, texts(members@), members@.len() as int) {
            Ok((st, ids)) => {
                &&& r is Ok
                &&& r->Ok_0.0@.map_values(|p: Package| p@) == st.packages.map_values(
                    |e: (Seq<char>, PackageView)| e.1,
                )
                &&& r->Ok_0.1@.map_values(|id: PackageId| id@) == ids
            },
            Err(stop) => r is Err && r->Err_0@ == stop,
        },
{
    let ghost all = texts(members@);
    let n = env.disk.manifests.len();
    let mut st = Importing { packages: Vec::new(), visiting: Vec::new(), used: 0 };
    let mut ids: Vec<PackageId> = Vec::new();
    let mut i: usize = 0;
    proof {
        assert(st.state().packages =~= Seq::<(Seq<char>, PackageView)>::empty());
        assert(st.state().visiting =~= Seq::<(Seq<char>, bool)>::empty());
        assert(ids@.map_values(|id: PackageId| id@) =~= Seq::<PackageIdView>::empty());
    }
    while i < members.len()
        invariant
            i <= members@.len(),
            all == texts(members@),
            n == env.disk.manifests.keys().len(),
            st.visiting@.len() == 0,
            st.used <= env.answers@.len(),
            imported_members(env.view(), ws, all, i as int) == Ok::<
                (ImportView, Seq<PackageIdView>),
                StopView,
            >((st.state(), ids@.map_values(|id: PackageId| id@))),
        decreases members@.len() - i,
    {
        assert(all[i as int] == members@[i as int]@);
        let ghost before = ids@;
        match import_package(env, &mut st, members[i].as_str(), true, false, &None, ws, n) {
            Ok(id) => {
                ids.push(id);
                assert(ids@.map_values(|id: PackageId| id@) =~= before.map_values(
                    |id: PackageId| id@,
                ).push(id@));
            },
            Err(stop) => {
                proof {
                    lemma_members_stop(env.view(), ws, all, i as int + 1, all.len() as int);
                }
                return Err(stop);
            },
        }
        i += 1;
    }
    let ghost found = st.state().packages;
    let ghost entries = st.packages@;
    let mut rest = st.packages;
    let mut reversed: Vec<Package> = Vec::new();
    while rest.len() > 0
        invariant
            rest@.len() + reversed@.len() == entries.len(),
            rest@ == entries.take(rest@.len() as int),
            forall|k: int|
                0 <= k < reversed@.len() ==> #[trigger] reversed@[k] == entries[entries.len() - 1
                    - k].1,
        decreases rest@.len(),
    {
        let ghost before = rest@;
        if let Some((_, package)) = rest.pop() {
            assert(rest@ =~= entries.take(rest@.len() as int));
            assert(before[before.len() - 1] == entries[before.len() - 1]);
            reversed.push(package);
        }
    }
    let mut packages: Vec<Package> = Vec::new();
    while reversed.len() > 0
        invariant
            reversed@.len() + packages@.len() == entries.len(),
            forall|k: int|
                0 <= k < reversed@.len() ==> #[trigger] reversed@[k] == entries[entries.len() - 1
                    - k].1,
            forall|k: int| 0 <= k < packages@.len() ==> #[trigger] packages@[k] == entries[k].1,
        decreases reversed@.len(),
    {
        let ghost before = reversed@;
        if let Some(package) = reversed.pop() {
            assert(package == before[before.len() - 1]);
            packages.push(package);
        }
    }
    proof {
        let got = packages@.map_values(|p: Package| p@);
        let want = found.map_values(|e: (Seq<char>, PackageView)| e.1);
        assert(got =~= want);
    }
    Ok((packages, ids))
}

} // verus!
