//! Compilation units: what is compiled and run, and what each unit depends on.
//!
//! Every crate compilation (library, binary, proc macro, build script, example,
//! test) becomes one unit, and so does every run of a build script or a test.
//! Units name each other by ids that are functions of the model, so the order
//! of packages does not matter.

use vstd::prelude::*;
use vstd::string::*;
use crate::disk::Disk;
use crate::features::{is_native, position_of_package};
use crate::graph::{dep_active, edge_live, mark_reached, positions, reaches, Walk};
use crate::link_walk::{find_unlinkable, first_unlinkable};
use crate::model::{
    crate_name, crate_type_text, lib_crate_name, lib_crate_text, lock_source_text, CrateType,
    Dep, Package, PackageIdView, ProfileSpec, RustModel, SourceId, SourceView,
};
use crate::resolution::{dep_list, find, native, EdgeKind};
use crate::strmap::{StrMap, StrSet};
use crate::text::{cat, cat3, cat4, cat5, opt_view, owned, quote, quoted, same, starts};
use crate::version::version_text;

verus! {

/// What is known of the toolchain.
#[derive(Clone, Debug)]
pub struct Toolchain {
    /// The rustc host triple.
    pub host_triple: String,
    /// The file extension of shared libraries on the host.
    pub dll_extension: String,
    /// The output of `rustc -vV`.
    pub version_verbose: String,
    /// The digest of the sysroot's tree, in hexadecimal.
    pub sysroot_tree: String,
    /// The path of rustc.
    pub rustc_path: String,
}

/// A crate root that lies outside its package's directory, and where it is
/// mounted instead.
#[derive(Clone, Debug)]
pub struct MountedRoot {
    /// Position of the package.
    pub package: usize,
    /// Path as declared.
    pub original: String,
    /// Path in the source tree.
    pub rewritten: String,
}

/// Everything that planning depends on.
pub struct Planner<'a> {
    /// The model.
    pub model: &'a RustModel,
    /// What is known of target keys.
    pub disk: &'a Disk,
    /// The toolchain.
    pub toolchain: &'a Toolchain,
    /// The name of the profile.
    pub profile_name: &'a str,
    /// The profile.
    pub profile: &'a ProfileSpec,
    /// Whether test targets are planned and run.
    pub tests_enabled: bool,
    /// Arguments passed to the test binaries.
    pub test_args: &'a Vec<String>,
    /// The metadata hash of a crate, by its name and by its kind.
    pub metas: &'a StrMap<StrMap<String>>,
    /// The crate roots mounted elsewhere.
    pub roots: &'a Vec<MountedRoot>,
}

/// Planning failure.
#[derive(Clone, Debug, PartialEq, Eq)]
pub enum PlanError {
    /// What is wrong.
    Message(String),
    /// A unit's dependency has not completed.
    MissingDependency(String),
    /// The metadata hash of a crate is not known yet.
    NeedMetadata { crate_name: String, kind: String },
}

/// What a planning failure holds.
pub enum PlanFault {
    Message(Seq<char>),
    MissingDependency(Seq<char>),
    NeedMetadata { crate_name: Seq<char>, kind: Seq<char> },
}

impl View for PlanError {
    type V = PlanFault;

    open spec fn view(&self) -> PlanFault {
        match *self {
            PlanError::Message(m) => PlanFault::Message(m@),
            PlanError::MissingDependency(id) => PlanFault::MissingDependency(id@),
            PlanError::NeedMetadata { crate_name, kind } => PlanFault::NeedMetadata {
                crate_name: crate_name@,
                kind: kind@,
            },
        }
    }
}

// ---- Labels and ids -----------------------------------------------------------

/// Whether another package has the same name as the one at `i`.
pub open spec fn shares_name(m: RustModel, i: int) -> bool {
    exists|j: int|
        0 <= j < m.packages@.len() && j != i && (#[trigger] m.packages@[j]).name@
            == m.packages@[i].name@
}

/// What tells packages of one name apart.
pub open spec fn label_suffix(id: PackageIdView) -> Seq<char> {
    "@"@ + version_text(id.version) + "#"@ + (match id.source {
        SourceView::Workspace(rel) => "workspace+"@ + rel,
        other => lock_source_text(other),
    })
}

/// How units name a package: by its name, and by its version and source too
/// where several packages have the name.
pub open spec fn label_of(m: RustModel, i: int) -> Seq<char> {
    if shares_name(m, i) {
        m.packages@[i].name@ + label_suffix(m.packages@[i].id@)
    } else {
        m.packages@[i].name@
    }
}

fn has_namesake(model: &RustModel, i: usize) -> (r: bool)
    requires
        i < model.packages@.len(),
    ensures
        r == shares_name(*model, i as int),
{
    let mut j: usize = 0;
    while j < model.packages.len()
        invariant
            j <= model.packages@.len(),
            i < model.packages@.len(),
            forall|k: int|
                0 <= k < j && k != i ==> (#[trigger] model.packages@[k]).name@
                    != model.packages@[i as int].name@,
        decreases model.packages@.len() - j,
    {
        if j != i && same(model.packages[j].name.as_str(), model.packages[i].name.as_str()) {
            return true;
        }
        j += 1;
    }
    false
}

fn suffix(package: &Package) -> (r: String)
    ensures
        r@ == label_suffix(package.id@),
{
    let source = match &package.id.source {
        SourceId::Workspace(rel) => cat("workspace+", rel.as_str()),
        _ => package.id.source.lock_source(),
    };
    cat4("@", package.id.version.to_text().as_str(), "#", source.as_str())
}

/// The label of the package at `i`.
pub fn label(model: &RustModel, i: usize) -> (r: String)
    requires
        i < model.packages@.len(),
    ensures
        r@ == label_of(*model, i as int),
{
    let package = &model.packages[i];
    if has_namesake(model, i) {
        cat(package.name.as_str(), suffix(package).as_str())
    } else {
        package.name.clone()
    }
}

/// The name that a crate's metadata hash is made with: the crate's own, with
/// what tells packages of one name apart where several have it.
pub open spec fn meta_name(m: RustModel, i: int, crate_text: Seq<char>) -> Seq<char> {
    if shares_name(m, i) {
        crate_text + label_suffix(m.packages@[i].id@)
    } else {
        crate_text
    }
}

/// The metadata hash of a crate, where it is known.
pub open spec fn meta_of(p: Planner<'_>, i: int, crate_text: Seq<char>, kind: Seq<char>) -> Result<
    Seq<char>,
    PlanFault,
> {
    let name = meta_name(*p.model, i, crate_text);
    if p.metas@.contains_key(name) && p.metas@[name]@.contains_key(kind) {
        Ok(p.metas@[name]@[kind]@)
    } else {
        Err(PlanFault::NeedMetadata { crate_name: name, kind })
    }
}

/// What a text or a planning failure is.
pub open spec fn text_plan(r: Result<String, PlanError>) -> Result<Seq<char>, PlanFault> {
    match r {
        Ok(s) => Ok(s@),
        Err(e) => Err(e@),
    }
}

pub(crate) fn find_meta(p: &Planner<'_>, i: usize, crate_text: &str, kind: &str) -> (r: Result<
    String,
    PlanError,
>)
    requires
        i < p.model.packages@.len(),
    ensures
        text_plan(r) == meta_of(*p, i as int, crate_text@, kind@),
{
    let name = if has_namesake(p.model, i) {
        cat(crate_text, suffix(&p.model.packages[i]).as_str())
    } else {
        owned(crate_text)
    };
    if let Some(kinds) = p.metas.get(name.as_str()) {
        if let Some(hash) = kinds.get(kind) {
            return Ok(hash.clone());
        }
    }
    Err(PlanError::NeedMetadata { crate_name: name, kind: owned(kind) })
}

/// The file extension of a crate type.
pub open spec fn extension_of(p: Planner<'_>, crate_type: Seq<char>) -> Seq<char> {
    if crate_type == "rlib"@ {
        "rlib"@
    } else if crate_type == "staticlib"@ {
        "a"@
    } else {
        p.toolchain.dll_extension@
    }
}

pub(crate) fn extension(p: &Planner<'_>, crate_type: &str) -> (r: String)
    ensures
        r@ == extension_of(*p, crate_type@),
{
    if same(crate_type, "rlib") {
        owned("rlib")
    } else if same(crate_type, "staticlib") {
        owned("a")
    } else {
        p.toolchain.dll_extension.clone()
    }
}

/// The file name of a library artifact.
pub open spec fn artifact_name(crate_text: Seq<char>, meta: Seq<char>, ext: Seq<char>) -> Seq<char> {
    "lib"@ + crate_text + "-"@ + meta + "."@ + ext
}

pub(crate) fn artifact(crate_text: &str, meta: &str, ext: &str) -> (r: String)
    ensures
        r@ == artifact_name(crate_text@, meta@, ext@),
{
    let mut out = cat5("lib", crate_text, "-", meta, ".");
    out.append(ext);
    out
}

/// The crate types that a library is compiled as.
pub open spec fn types_of(types: Seq<CrateType>) -> Seq<CrateType> {
    if types.len() == 0 {
        seq![CrateType::Rlib]
    } else {
        types
    }
}

/// The crate type that dependents link: the first there is of rlib, staticlib,
/// cdylib and dylib.
pub open spec fn linked_type(types: Seq<CrateType>) -> CrateType {
    let all = types_of(types);
    if all.contains(CrateType::Rlib) {
        CrateType::Rlib
    } else if all.contains(CrateType::Staticlib) {
        CrateType::Staticlib
    } else if all.contains(CrateType::Cdylib) {
        CrateType::Cdylib
    } else {
        CrateType::Dylib
    }
}

fn has_type(types: &Vec<CrateType>, t: CrateType) -> (r: bool)
    ensures
        r == types@.contains(t),
{
    let mut i: usize = 0;
    while i < types.len()
        invariant
            i <= types@.len(),
            forall|k: int| 0 <= k < i ==> #[trigger] types@[k] != t,
        decreases types@.len() - i,
    {
        if types[i] == t {
            return true;
        }
        i += 1;
    }
    false
}

fn choose_type(types: &Vec<CrateType>) -> (r: CrateType)
    ensures
        r == linked_type(types@),
{
    if types.len() == 0 {
        assert(types_of(types@)[0] == CrateType::Rlib);
        return CrateType::Rlib;
    }
    if has_type(types, CrateType::Rlib) {
        CrateType::Rlib
    } else if has_type(types, CrateType::Staticlib) {
        CrateType::Staticlib
    } else if has_type(types, CrateType::Cdylib) {
        CrateType::Cdylib
    } else {
        CrateType::Dylib
    }
}

/// What tells the units of a package for the execution host apart from those for
/// the target.
pub open spec fn side_suffix(host: bool) -> Seq<char> {
    if host {
        ":host"@
    } else {
        ""@
    }
}

pub(crate) fn side(host: bool) -> (r: &'static str)
    ensures
        r@ == side_suffix(host),
{
    if host {
        ":host"
    } else {
        ""
    }
}

/// The kind that the metadata hash of a crate is made with. Proc macros are for
/// the host alone.
pub open spec fn side_kind(crate_type: Seq<char>, host: bool) -> Seq<char> {
    if crate_type == "proc-macro"@ {
        crate_type
    } else {
        crate_type + side_suffix(host)
    }
}

pub(crate) fn kind_for(crate_type: &str, host: bool) -> (r: String)
    ensures
        r@ == side_kind(crate_type@, host),
{
    if same(crate_type, "proc-macro") {
        owned(crate_type)
    } else {
        cat(crate_type, side(host))
    }
}

/// The id of the unit that compiles a library as one crate type.
pub open spec fn lib_id(m: RustModel, i: int, t: CrateType, host: bool) -> Seq<char> {
    "rust:lib:"@ + label_of(m, i) + ":"@ + crate_type_text(t) + side_suffix(host)
}

/// The id of the unit that compiles a proc macro.
pub open spec fn macro_id(m: RustModel, i: int) -> Seq<char> {
    "rust:proc-macro:"@ + label_of(m, i)
}

/// The id of the unit that compiles a build script.
pub open spec fn script_compile_id(m: RustModel, i: int, host: bool) -> Seq<char> {
    "rust:bs-compile:"@ + label_of(m, i) + side_suffix(host)
}

/// The id of the unit that runs a build script.
pub open spec fn script_run_id(m: RustModel, i: int, host: bool) -> Seq<char> {
    "rust:bs-run:"@ + label_of(m, i) + side_suffix(host)
}

/// Names the unit that compiles a package's build script, for one side.
pub fn name_script_compile(model: &RustModel, i: usize, host: bool) -> (r: String)
    requires
        i < model.packages@.len(),
    ensures
        r@ == script_compile_id(*model, i as int, host),
{
    cat3("rust:bs-compile:", label(model, i).as_str(), side(host))
}

/// Names the unit that runs a package's build script, for one side.
pub fn name_script_run(model: &RustModel, i: usize, host: bool) -> (r: String)
    requires
        i < model.packages@.len(),
    ensures
        r@ == script_run_id(*model, i as int, host),
{
    cat3("rust:bs-run:", label(model, i).as_str(), side(host))
}

/// The id of the unit that dependents of a package link, and the kind of crate
/// it compiles; nothing where the package has no library. Units for the host link
/// units for the host.
pub open spec fn linked_unit(m: RustModel, i: int, host: bool) -> Option<(Seq<char>, Seq<char>)> {
    match m.packages@[i].lib {
        None => None,
        Some(lib) => Some(
            if lib.proc_macro {
                (macro_id(m, i), "proc-macro"@)
            } else {
                let t = linked_type(lib.crate_types@);
                (lib_id(m, i, t, host), crate_type_text(t))
            },
        ),
    }
}

/// The id of the unit that dependents of a package link.
pub open spec fn linked_action(m: RustModel, i: int, host: bool) -> Option<Seq<char>> {
    match linked_unit(m, i, host) {
        Some((action, _)) => Some(action),
        None => None,
    }
}

fn find_linked(model: &RustModel, i: usize, host: bool) -> (r: Option<(String, String)>)
    requires
        i < model.packages@.len(),
    ensures
        crate::text::pair_view(r) == linked_unit(*model, i as int, host),
{
    match &model.packages[i].lib {
        None => None,
        Some(lib) => {
            let name = label(model, i);
            if lib.proc_macro {
                Some((cat("rust:proc-macro:", name.as_str()), owned("proc-macro")))
            } else {
                let t = choose_type(&lib.crate_types);
                Some(
                    (
                        cat5("rust:lib:", name.as_str(), ":", t.to_rustc(), side(host)),
                        owned(t.to_rustc()),
                    ),
                )
            }
        },
    }
}

// ---- Dependencies ---------------------------------------------------------------

/// A dependency resolved at plan time.
#[derive(Clone, Debug)]
pub enum DepSpec {
    /// A Rust crate produced by another unit.
    Rust {
        /// `--extern` name.
        extern_name: String,
        /// Producer unit.
        action: String,
        /// Artifact file name (e.g. `libfoo-0123456789abcdef.rlib`).
        file: String,
    },
    /// A prebuilt native library (no unit).
    Native,
}

/// What a resolved dependency holds.
pub enum DepSpecView {
    Rust { extern_name: Seq<char>, action: Seq<char>, file: Seq<char> },
    Native,
}

impl View for DepSpec {
    type V = DepSpecView;

    open spec fn view(&self) -> DepSpecView {
        match *self {
            DepSpec::Rust { extern_name, action, file } => DepSpecView::Rust {
                extern_name: extern_name@,
                action: action@,
                file: file@,
            },
            DepSpec::Native => DepSpecView::Native,
        }
    }
}

/// What is wrong with an edge that leads to no linkable package. Dropping it
/// silently would link against a missing crate and fail deep inside rustc.
pub open spec fn edge_fault(m: RustModel, dep: Dep) -> Option<Seq<char>> {
    if native(m, dep.package.name@) {
        None
    } else {
        match find(m.packages@, dep.package@) {
            None => Some(
                "dependency "@ + quoted(dep.extern_name@) + " of "@ + quoted(dep.package.name@)
                    + " names no imported package or cc_import; if it is a registry dependency missing from Tong.lock, run `tong lock` (the lockfile may be stale for the requested features)"@,
            ),
            Some(j) => if m.packages@[j].lib is None {
                Some(
                    "dependency "@ + quoted(dep.extern_name@) + " names package "@ + quoted(
                        dep.package.name@,
                    ) + ", which has no library target"@,
                )
            } else {
                None
            },
        }
    }
}

/// The artifact of the library that dependents of a package link.
pub open spec fn linked_dep(p: Planner<'_>, j: int, extern_name: Seq<char>, host: bool) -> Result<
    DepSpecView,
    PlanFault,
> {
    let (action, kind) = linked_unit(*p.model, j, host)->0;
    let name = lib_crate_text(p.model.packages@[j]);
    match meta_of(p, j, name, side_kind(kind, host)) {
        Ok(meta) => Ok(
            DepSpecView::Rust {
                extern_name,
                action,
                file: artifact_name(name, meta, extension_of(p, kind)),
            },
        ),
        Err(fault) => Err(fault),
    }
}

/// The producer of a dependency, or the native import it is.
pub open spec fn dep_spec_of(p: Planner<'_>, dep: Dep, host: bool) -> Result<DepSpecView, PlanFault> {
    if native(*p.model, dep.package.name@) {
        Ok(DepSpecView::Native)
    } else if let Some(message) = edge_fault(*p.model, dep) {
        Err(PlanFault::Message(message))
    } else {
        linked_dep(p, find(p.model.packages@, dep.package@)->0, dep.extern_name@, host)
    }
}

/// What a resolved dependency or a planning failure is.
pub open spec fn dep_plan(r: Result<DepSpec, PlanError>) -> Result<DepSpecView, PlanFault> {
    match r {
        Ok(d) => Ok(d@),
        Err(e) => Err(e@),
    }
}

fn link_dep(p: &Planner<'_>, j: usize, extern_name: &str, host: bool) -> (r: Result<DepSpec, PlanError>)
    requires
        j < p.model.packages@.len(),
        p.model.packages@[j as int].lib is Some,
    ensures
        dep_plan(r) == linked_dep(*p, j as int, extern_name@, host),
{
    match find_linked(p.model, j, host) {
        None => Err(PlanError::Message(String::new())),
        Some((action, kind)) => {
            let name = lib_crate_name(&p.model.packages[j]);
            match find_meta(p, j, name.as_str(), kind_for(kind.as_str(), host).as_str()) {
                Ok(meta) => Ok(
                    DepSpec::Rust {
                        extern_name: owned(extern_name),
                        action,
                        file: artifact(
                            name.as_str(),
                            meta.as_str(),
                            extension(p, kind.as_str()).as_str(),
                        ),
                    },
                ),
                Err(e) => Err(e),
            }
        },
    }
}

pub(crate) fn check_edge(model: &RustModel, dep: &Dep) -> (r: Option<String>)
    ensures
        opt_view(r) == edge_fault(*model, *dep),
{
    if is_native(model, dep.package.name.as_str()) {
        return None;
    }
    match position_of_package(&model.packages, &dep.package) {
        None => Some(
            cat5(
                "dependency ",
                quote(dep.extern_name.as_str()).as_str(),
                " of ",
                quote(dep.package.name.as_str()).as_str(),
                " names no imported package or cc_import; if it is a registry dependency missing from Tong.lock, run `tong lock` (the lockfile may be stale for the requested features)",
            ),
        ),
        Some(j) => if model.packages[j].lib.is_none() {
            Some(
                cat5(
                    "dependency ",
                    quote(dep.extern_name.as_str()).as_str(),
                    " names package ",
                    quote(dep.package.name.as_str()).as_str(),
                    ", which has no library target",
                ),
            )
        } else {
            None
        },
    }
}

/// Resolves a dependency to its producer or native import.
pub fn dep_spec(p: &Planner<'_>, dep: &Dep, host: bool) -> (r: Result<DepSpec, PlanError>)
    ensures
        dep_plan(r) == dep_spec_of(*p, *dep, host),
{
    if is_native(p.model, dep.package.name.as_str()) {
        return Ok(DepSpec::Native);
    }
    if let Some(message) = check_edge(p.model, dep) {
        return Err(PlanError::Message(message));
    }
    match position_of_package(&p.model.packages, &dep.package) {
        Some(j) => link_dep(p, j, dep.extern_name.as_str(), host),
        None => Err(PlanError::Message(String::new())),
    }
}

/// What resolved dependencies hold.
pub open spec fn dep_specs_view(v: Seq<DepSpec>) -> Seq<DepSpecView> {
    v.map_values(|d: DepSpec| d@)
}

/// The live ones among the first `n` edges of a list, resolved.
pub open spec fn specs_upto(p: Planner<'_>, i: int, kind: EdgeKind, host: bool, n: int) -> Result<
    Seq<DepSpecView>,
    PlanFault,
>
    decreases n,
{
    if n <= 0 {
        Ok(Seq::empty())
    } else {
        match specs_upto(p, i, kind, host, n - 1) {
            Err(fault) => Err(fault),
            Ok(before) => {
                let dep = dep_list(p.model.packages@[i], kind)[n - 1];
                if edge_live(*p.model, *p.disk, p.toolchain.host_triple@, i, dep) {
                    match dep_spec_of(p, dep, host) {
                        Ok(d) => Ok(before.push(d)),
                        Err(fault) => Err(fault),
                    }
                } else {
                    Ok(before)
                }
            },
        }
    }
}

proof fn lemma_specs_fault(p: Planner<'_>, i: int, kind: EdgeKind, host: bool, a: int, b: int)
    requires
        a <= b,
        specs_upto(p, i, kind, host, a) is Err,
    ensures
        specs_upto(p, i, kind, host, b) == specs_upto(p, i, kind, host, a),
    decreases b,
{
    if a < b {
        lemma_specs_fault(p, i, kind, host, a, b - 1);
    }
}

/// Which of a package's edges a unit links: its own library, and lists of edges.
#[derive(Clone, Copy, PartialEq, Eq, Structural, Debug)]
pub struct Needs {
    /// The package's own library, where it has one.
    pub own: bool,
    /// Normal dependencies.
    pub normal: bool,
    /// Build dependencies.
    pub build: bool,
    /// Dev dependencies.
    pub dev: bool,
}

/// Whether a unit links a list of edges.
pub open spec fn needs_list(needs: Needs, kind: EdgeKind) -> bool {
    match kind {
        EdgeKind::Normal => needs.normal,
        EdgeKind::Build => needs.build,
        EdgeKind::Dev => needs.dev,
    }
}

/// The resolved edges of a list, where a unit links it.
pub open spec fn list_specs(p: Planner<'_>, i: int, needs: Needs, kind: EdgeKind, host: bool) -> Result<
    Seq<DepSpecView>,
    PlanFault,
> {
    if needs_list(needs, kind) {
        specs_upto(p, i, kind, host, dep_list(p.model.packages@[i], kind).len() as int)
    } else {
        Ok(Seq::empty())
    }
}

/// The package's own library as a dependency of a unit.
pub open spec fn own_spec(p: Planner<'_>, i: int, needs: Needs, host: bool) -> Result<
    Seq<DepSpecView>,
    PlanFault,
> {
    if needs.own && p.model.packages@[i].lib is Some {
        match linked_dep(p, i, lib_crate_text(p.model.packages@[i]), host) {
            Ok(d) => Ok(seq![d]),
            Err(fault) => Err(fault),
        }
    } else {
        Ok(Seq::empty())
    }
}

/// The direct dependencies of a unit, in order: the own library, then normal,
/// build and dev dependencies.
pub open spec fn specs_of(p: Planner<'_>, i: int, needs: Needs, host: bool) -> Result<
    Seq<DepSpecView>,
    PlanFault,
> {
    match (
        own_spec(p, i, needs, host),
        list_specs(p, i, needs, EdgeKind::Normal, host),
        list_specs(p, i, needs, EdgeKind::Build, host),
        list_specs(p, i, needs, EdgeKind::Dev, host),
    ) {
        (Err(fault), _, _, _) => Err(fault),
        (_, Err(fault), _, _) => Err(fault),
        (_, _, Err(fault), _) => Err(fault),
        (_, _, _, Err(fault)) => Err(fault),
        (Ok(a), Ok(b), Ok(c), Ok(d)) => Ok(a + b + c + d),
    }
}

fn add_specs(p: &Planner<'_>, i: usize, kind: EdgeKind, host: bool, out: &mut Vec<DepSpec>) -> (r: Option<
    PlanError,
>)
    requires
        i < p.model.packages@.len(),
    ensures
        match specs_upto(
            *p,
            i as int,
            kind, host,
            dep_list(p.model.packages@[i as int], kind).len() as int,
        ) {
            Ok(more) => r is None && dep_specs_view(final(out)@) == dep_specs_view(old(out)@)
                + more,
            Err(fault) => r is Some && r->0@ == fault,
        },
{
    let package = &p.model.packages[i];
    let deps: &Vec<Dep> = match kind {
        EdgeKind::Normal => &package.deps,
        EdgeKind::Build => &package.build_deps,
        EdgeKind::Dev => &package.dev_deps,
    };
    let ghost start = dep_specs_view(out@);
    let mut n: usize = 0;
    assert(start =~= start + Seq::<DepSpecView>::empty());
    while n < deps.len()
        invariant
            n <= deps@.len(),
            i < p.model.packages@.len(),
            deps@ == dep_list(p.model.packages@[i as int], kind),
            specs_upto(*p, i as int, kind, host, n as int) is Ok,
            dep_specs_view(out@) == start + specs_upto(*p, i as int, kind, host, n as int)->Ok_0,
        decreases deps@.len() - n,
    {
        let dep = &deps[n];
        assert(dep_list(p.model.packages@[i as int], kind)[n as int] == *dep);
        if dep_active(p.model, p.disk, p.toolchain.host_triple.as_str(), i, dep) {
            match dep_spec(p, dep, host) {
                Ok(d) => {
                    let ghost before = out@;
                    out.push(d);
                    assert(dep_specs_view(out@) =~= dep_specs_view(before).push(d@));
                    assert(dep_specs_view(out@) =~= start + specs_upto(
                        *p,
                        i as int,
                        kind, host,
                        n as int + 1,
                    )->Ok_0);
                },
                Err(e) => {
                    proof {
                        lemma_specs_fault(*p, i as int, kind, host, n as int + 1, deps@.len() as int);
                    }
                    return Some(e);
                },
            }
        }
        n += 1;
    }
    None
}

/// Resolves the direct dependencies of a unit.
pub fn resolve_specs(p: &Planner<'_>, i: usize, needs: Needs, host: bool) -> (r: Result<
    Vec<DepSpec>,
    PlanError,
>)
    requires
        i < p.model.packages@.len(),
    ensures
        (match r {
            Ok(v) => Ok::<Seq<DepSpecView>, PlanFault>(dep_specs_view(v@)),
            Err(e) => Err(e@),
        }) == specs_of(*p, i as int, needs, host),
{
    let mut out: Vec<DepSpec> = Vec::new();
    assert(dep_specs_view(out@) =~= Seq::<DepSpecView>::empty());
    if needs.own && p.model.packages[i].lib.is_some() {
        let name = lib_crate_name(&p.model.packages[i]);
        match link_dep(p, i, name.as_str(), host) {
            Ok(d) => {
                out.push(d);
                assert(dep_specs_view(out@) =~= seq![d@]);
            },
            Err(e) => return Err(e),
        }
    }
    let ghost a = dep_specs_view(out@);
    if needs.normal {
        if let Some(e) = add_specs(p, i, EdgeKind::Normal, host, &mut out) {
            return Err(e);
        }
    } else {
        assert(a =~= a + Seq::<DepSpecView>::empty());
    }
    let ghost b = dep_specs_view(out@);
    if needs.build {
        if let Some(e) = add_specs(p, i, EdgeKind::Build, host, &mut out) {
            return Err(e);
        }
    } else {
        assert(b =~= b + Seq::<DepSpecView>::empty());
    }
    let ghost c = dep_specs_view(out@);
    if needs.dev {
        if let Some(e) = add_specs(p, i, EdgeKind::Dev, host, &mut out) {
            return Err(e);
        }
    } else {
        assert(c =~= c + Seq::<DepSpecView>::empty());
    }
    Ok(out)
}

// ---- The transitive closure -------------------------------------------------------

/// Whether a live edge that a unit links directly leads to a package.
pub open spec fn links_directly(p: Planner<'_>, i: int, needs: Needs, j: int) -> bool {
    ||| needs.own && p.model.packages@[i].lib is Some && j == i
    ||| exists|kind: EdgeKind, k: int|
        #![trigger dep_list(p.model.packages@[i], kind)[k]]
        0 <= k < dep_list(p.model.packages@[i], kind).len() && needs_list(needs, kind) && edge_live(
            *p.model,
            *p.disk,
            p.toolchain.host_triple@,
            i,
            dep_list(p.model.packages@[i], kind)[k],
        ) && !native(*p.model, dep_list(p.model.packages@[i], kind)[k].package.name@) && find(
            p.model.packages@,
            dep_list(p.model.packages@[i], kind)[k].package@,
        ) == Some(j)
}

/// Whether a unit links a package, directly or through other crates.
pub open spec fn links(p: Planner<'_>, i: int, needs: Needs, j: int) -> bool {
    reaches(
        *p.model,
        *p.disk,
        p.toolchain.host_triple@,
        Walk::Links,
        Set::new(|x: int| links_directly(p, i, needs, x)),
        j,
    )
}

/// Whether this is what is wrong with a live edge of a package that a unit
/// links.
pub open spec fn closure_fault(p: Planner<'_>, i: int, needs: Needs, message: Seq<char>) -> bool {
    exists|j: int, k: int|
        #![trigger p.model.packages@[j].deps@[k]]
        0 <= j < p.model.packages@.len() && 0 <= k < p.model.packages@[j].deps@.len() && links(
            p,
            i,
            needs,
            j,
        ) && edge_live(
            *p.model,
            *p.disk,
            p.toolchain.host_triple@,
            j,
            p.model.packages@[j].deps@[k],
        ) && edge_fault(*p.model, p.model.packages@[j].deps@[k]) == Some(message)
}

/// The units whose artifacts a unit needs at hand: rustc resolves transitive
/// crates through the dependency directory, so every reachable crate counts.
pub open spec fn linked_actions(p: Planner<'_>, i: int, needs: Needs, host: bool) -> Set<Seq<char>> {
    Set::new(
        |id: Seq<char>|
            exists|j: int|
                #![trigger linked_action(*p.model, j, host)]
                0 <= j < p.model.packages@.len() && links(p, i, needs, j) && linked_action(*p.model, j, host) == Some(id),
    )
}

fn add_roots(p: &Planner<'_>, i: usize, kind: EdgeKind, out: &mut Vec<usize>)
    requires
        i < p.model.packages@.len(),
        forall|k: int|
            0 <= k < old(out)@.len() ==> #[trigger] old(out)@[k] < p.model.packages@.len(),
    ensures
        forall|k: int|
            0 <= k < final(out)@.len() ==> #[trigger] final(out)@[k] < p.model.packages@.len(),
        forall|j: int| #[trigger]
            positions(final(out)@).contains(j) <==> positions(old(out)@).contains(j) || exists|k: int|
                #![trigger dep_list(p.model.packages@[i as int], kind)[k]]
                0 <= k < dep_list(p.model.packages@[i as int], kind).len() && edge_live(
                    *p.model,
                    *p.disk,
                    p.toolchain.host_triple@,
                    i as int,
                    dep_list(p.model.packages@[i as int], kind)[k],
                ) && !native(
                    *p.model,
                    dep_list(p.model.packages@[i as int], kind)[k].package.name@,
                ) && find(
                    p.model.packages@,
                    dep_list(p.model.packages@[i as int], kind)[k].package@,
                ) == Some(j),
{
    let package = &p.model.packages[i];
    let deps: &Vec<Dep> = match kind {
        EdgeKind::Normal => &package.deps,
        EdgeKind::Build => &package.build_deps,
        EdgeKind::Dev => &package.dev_deps,
    };
    let ghost start = positions(out@);
    let ghost list = dep_list(p.model.packages@[i as int], kind);
    let mut n: usize = 0;
    while n < deps.len()
        invariant
            n <= deps@.len(),
            i < p.model.packages@.len(),
            list == dep_list(p.model.packages@[i as int], kind),
            deps@ == list,
            forall|k: int| 0 <= k < out@.len() ==> #[trigger] out@[k] < p.model.packages@.len(),
            forall|j: int| #[trigger]
                positions(out@).contains(j) <==> start.contains(j) || exists|k: int|
                    #![trigger list[k]]
                    0 <= k < n && edge_live(
                        *p.model,
                        *p.disk,
                        p.toolchain.host_triple@,
                        i as int,
                        list[k],
                    ) && !native(*p.model, list[k].package.name@) && find(
                        p.model.packages@,
                        list[k].package@,
                    ) == Some(j),
        decreases deps@.len() - n,
    {
        let dep = &deps[n];
        assert(list[n as int] == *dep);
        let ghost before = positions(out@);
        let mut added: Option<usize> = None;
        if dep_active(p.model, p.disk, p.toolchain.host_triple.as_str(), i, dep) && !is_native(
            p.model,
            dep.package.name.as_str(),
        ) {
            if let Some(j) = position_of_package(&p.model.packages, &dep.package) {
                out.push(j);
                added = Some(j);
                assert(positions(out@) =~= before.push(j as int));
            }
        }
        proof {
            assert forall|j: int| #[trigger]
                positions(out@).contains(j) <==> start.contains(j) || exists|k: int|
                #![trigger list[k]]
                0 <= k < n + 1 && edge_live(
                    *p.model,
                    *p.disk,
                    p.toolchain.host_triple@,
                    i as int,
                    list[k],
                ) && !native(*p.model, list[k].package.name@) && find(
                    p.model.packages@,
                    list[k].package@,
                ) == Some(j) by {
                if before.contains(j) {
                    let x = choose|x: int| 0 <= x < before.len() && before[x] == j;
                    assert(positions(out@)[x] == j);
                    if !start.contains(j) {
                        let k = choose|k: int|
                            #![trigger list[k]]
                            0 <= k < n && edge_live(
                                *p.model,
                                *p.disk,
                                p.toolchain.host_triple@,
                                i as int,
                                list[k],
                            ) && !native(*p.model, list[k].package.name@) && find(
                                p.model.packages@,
                                list[k].package@,
                            ) == Some(j);
                        assert(0 <= k < n + 1 && list[k] == list[k]);
                    }
                }
                if positions(out@).contains(j) && !before.contains(j) {
                    let x = choose|x: int|
                        0 <= x < positions(out@).len() && positions(out@)[x] == j;
                    if x < before.len() {
                        assert(before[x] == j);
                    }
                    assert(list[n as int] == *dep);
                }
                if exists|k: int|
                    #![trigger list[k]]
                    0 <= k < n + 1 && edge_live(
                        *p.model,
                        *p.disk,
                        p.toolchain.host_triple@,
                        i as int,
                        list[k],
                    ) && !native(*p.model, list[k].package.name@) && find(
                        p.model.packages@,
                        list[k].package@,
                    ) == Some(j) {
                    let k = choose|k: int|
                        #![trigger list[k]]
                        0 <= k < n + 1 && edge_live(
                            *p.model,
                            *p.disk,
                            p.toolchain.host_triple@,
                            i as int,
                            list[k],
                        ) && !native(*p.model, list[k].package.name@) && find(
                            p.model.packages@,
                            list[k].package@,
                        ) == Some(j);
                    if k < n {
                        assert(before.contains(j));
                    } else {
                        assert(positions(out@)[positions(out@).len() - 1] == j);
                    }
                }
            }
        }
        n += 1;
    }
}

/// Finds the units whose artifacts a unit needs at hand; fails where an edge on
/// the way leads to no linkable package.
pub fn transitive_dep_specs(p: &Planner<'_>, i: usize, needs: Needs, host: bool) -> (r: Result<
    StrSet,
    PlanError,
>)
    requires
        i < p.model.packages@.len(),
    ensures
        match r {
            Ok(set) => set@ == linked_actions(*p, i as int, needs, host) && first_unlinkable(
                *p,
                i as int,
                needs,
            ) is None,
            Err(e) => e@ is Message && first_unlinkable(*p, i as int, needs) == Some(
                e@->Message_0,
            ),
        },
{
    if let Some(message) = find_unlinkable(p, i, needs) {
        return Err(PlanError::Message(message));
    }
    let model = p.model;
    let triple = p.toolchain.host_triple.as_str();
    let mut roots: Vec<usize> = Vec::new();
    if needs.own && model.packages[i].lib.is_some() {
        roots.push(i);
    }
    let ghost own = positions(roots@);
    assert forall|j: int| #[trigger] own.contains(j) <==> needs.own
        && p.model.packages@[i as int].lib is Some && j == i by {
        if own.contains(j) {
            let x = choose|x: int| 0 <= x < own.len() && own[x] == j;
            assert(roots@[x] == i);
        }
        if needs.own && p.model.packages@[i as int].lib is Some && j == i {
            assert(own[0] == j);
        }
    }
    if needs.normal {
        add_roots(p, i, EdgeKind::Normal, &mut roots);
    }
    if needs.build {
        add_roots(p, i, EdgeKind::Build, &mut roots);
    }
    if needs.dev {
        add_roots(p, i, EdgeKind::Dev, &mut roots);
    }
    let reached = mark_reached(model, p.disk, triple, Walk::Links, &roots);
    let ghost starts = Set::new(|x: int| links_directly(*p, i as int, needs, x));
    proof {
        let given = Set::new(
            |x: int| exists|k: int| 0 <= k < roots@.len() && #[trigger] roots@[k] == x,
        );
        let list = |kind: EdgeKind| dep_list(p.model.packages@[i as int], kind);
        assert forall|x: int| given.contains(x) <==> starts.contains(x) by {
            assert(given.contains(x) <==> positions(roots@).contains(x)) by {
                if given.contains(x) {
                    let k = choose|k: int| 0 <= k < roots@.len() && #[trigger] roots@[k] == x;
                    assert(positions(roots@)[k] == x);
                }
                if positions(roots@).contains(x) {
                    let k = choose|k: int|
                        0 <= k < positions(roots@).len() && positions(roots@)[k] == x;
                    assert(roots@[k] == x);
                }
            }
            if links_directly(*p, i as int, needs, x) {
                if !(needs.own && p.model.packages@[i as int].lib is Some && x == i) {
                    let (kind, k) = choose|kind: EdgeKind, k: int|
                        #![trigger dep_list(p.model.packages@[i as int], kind)[k]]
                        0 <= k < dep_list(p.model.packages@[i as int], kind).len() && needs_list(
                            needs,
                            kind,
                        ) && edge_live(
                            *p.model,
                            *p.disk,
                            p.toolchain.host_triple@,
                            i as int,
                            dep_list(p.model.packages@[i as int], kind)[k],
                        ) && !native(
                            *p.model,
                            dep_list(p.model.packages@[i as int], kind)[k].package.name@,
                        ) && find(
                            p.model.packages@,
                            dep_list(p.model.packages@[i as int], kind)[k].package@,
                        ) == Some(x);
                    match kind {
                        EdgeKind::Normal => {
                            assert(dep_list(p.model.packages@[i as int], EdgeKind::Normal)[k]
                                == dep_list(p.model.packages@[i as int], kind)[k]);
                        },
                        EdgeKind::Build => {
                            assert(dep_list(p.model.packages@[i as int], EdgeKind::Build)[k]
                                == dep_list(p.model.packages@[i as int], kind)[k]);
                        },
                        EdgeKind::Dev => {
                            assert(dep_list(p.model.packages@[i as int], EdgeKind::Dev)[k]
                                == dep_list(p.model.packages@[i as int], kind)[k]);
                        },
                    }
                    assert(positions(roots@).contains(x));
                }
            }
        }
        assert(given =~= starts);
    }
    let mut out = StrSet::new();
    let mut j: usize = 0;
    while j < model.packages.len()
        invariant
            j <= p.model.packages@.len(),
            model == p.model,
            triple@ == p.toolchain.host_triple@,
            reached@.len() == p.model.packages@.len(),
            forall|x: int|
                0 <= x < reached@.len() ==> (#[trigger] reached@[x] <==> links(
                    *p,
                    i as int,
                    needs,
                    x,
                )),
            forall|id: Seq<char>| #[trigger]
                out@.contains(id) <==> exists|x: int|
                    #![trigger linked_action(*p.model, x, host)]
                    0 <= x < j && links(*p, i as int, needs, x) && linked_action(*p.model, x, host) == Some(id),
        decreases p.model.packages@.len() - j,
    {
        let ghost before = out@;
        if reached[j] {
            if let Some((action, _)) = find_linked(model, j, host) {
                out.insert(action);
            }
        }
        proof {
            assert forall|id: Seq<char>| #[trigger]
                out@.contains(id) <==> exists|x: int|
                #![trigger linked_action(*p.model, x, host)]
                0 <= x < j + 1 && links(*p, i as int, needs, x) && linked_action(*p.model, x, host) == Some(id) by {
                if before.contains(id) {
                    let x = choose|x: int|
                        #![trigger linked_action(*p.model, x, host)]
                        0 <= x < j && links(*p, i as int, needs, x) && linked_action(*p.model, x, host) == Some(id);
                    assert(0 <= x < j + 1 && linked_action(*p.model, x, host) == Some(id));
                }
                if out@.contains(id) && !before.contains(id) {
                    assert(linked_action(*p.model, j as int, host) == Some(id));
                }
                if exists|x: int|
                    #![trigger linked_action(*p.model, x, host)]
                    0 <= x < j + 1 && links(*p, i as int, needs, x) && linked_action(*p.model, x, host) == Some(id) {
                    let x = choose|x: int|
                        #![trigger linked_action(*p.model, x, host)]
                        0 <= x < j + 1 && links(*p, i as int, needs, x) && linked_action(*p.model, x, host) == Some(id);
                    if x < j {
                        assert(before.contains(id));
                    }
                }
            }
        }
        j += 1;
    }
    assert(out@ =~= linked_actions(*p, i as int, needs, host));
    Ok(out)
}

} // verus!
