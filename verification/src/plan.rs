//! The plan: every unit of a build, in order.

use vstd::prelude::*;
use vstd::string::*;
use crate::features::{is_native, position_of_package};
use crate::graph::{
    collect_cc, dep_active, edge_enabled, edge_live, is_enabled, lemma_closed_holds_reached,
    lemma_reach_root, lemma_reach_step, leads, mark_reached, native_closure, positions, reaches,
    script_order, walk_scripts, Walk,
};
use crate::link_walk::first_unlinkable;
use crate::model::{
    crate_name, crate_type_text, lib_crate_name, lib_crate_text, profile_flags, sanitized,
    CrateType, Dep, Edition, Package, RustModel,
};
use crate::resolution::{dep_list, find, lemma_find, native, EdgeKind};
use crate::strmap::{ascending, ascending_of, StrSet};
use crate::text::{
    cat, cat3, cat4, cat5, copy_texts, opt_view, owned, push_all, push_string, push_text, same, starts,
    starts_with, texts,
};
use crate::units::{
    artifact, artifact_name, dep_specs_view, extension, extension_of, find_meta, kind_for,
    label, label_of, lib_id, linked_actions, macro_id, meta_of, name_script_compile,
    name_script_run, resolve_specs, script_compile_id, script_run_id, side, side_kind, specs_of,
    transitive_dep_specs, types_of, DepSpec, DepSpecView, Needs, PlanError, PlanFault, Planner,
};

verus! {

/// What a compilation is for.
#[derive(Clone, Copy, PartialEq, Eq, Structural, Debug)]
pub enum Role {
    /// A build script.
    Script,
    /// A library or a proc macro.
    Library,
    /// A binary.
    Bin,
    /// An example.
    Example,
    /// The unit tests of a library.
    UnitTest,
    /// An integration test or a benchmark, which finds the package's binaries.
    Test,
}

/// A crate compilation.
pub struct CompileUnit {
    /// What it is for.
    pub role: Role,
    /// Whether it is compiled for the execution host whatever the target.
    pub host: bool,
    /// `--crate-name`.
    pub crate_name: String,
    /// Rust edition.
    pub edition: Edition,
    /// `--crate-type`, or `test`.
    pub crate_type: String,
    /// Metadata hash.
    pub meta: String,
    /// Output file name.
    pub output: String,
    /// Direct dependencies.
    pub deps: Vec<DepSpec>,
    /// The run of the package's build script.
    pub build_script: Option<String>,
    /// Build-script runs whose link directives apply to this crate: the
    /// package's own script and those of its transitive dependencies.
    pub directive_sources: Vec<String>,
    /// Crate root.
    pub crate_root: String,
    /// Flags of the workspace and of the package.
    pub extra_flags: Vec<String>,
    /// `--cfg feature="..."` flags for the package's activated features.
    pub feature_cfgs: Vec<String>,
    /// The units of every reachable crate (all mounted at `deps/`).
    pub transitive: StrSet,
    /// The package's library is a proc macro.
    pub is_proc_macro: bool,
    /// Flags of the profile.
    pub profile_flags: Vec<String>,
    /// Native imports: name and link name.
    pub cc: Vec<(String, String)>,
    /// The package's binaries that it finds: name and unit.
    pub bins: Vec<(String, String)>,
}

/// A run of a build script.
pub struct ScriptRun {
    /// Whether it is for the package's units for the execution host.
    pub host: bool,
    /// The unit that compiles the script.
    pub compile: String,
    /// The script's binary.
    pub binary: String,
    /// The package's activated features, in order.
    pub features: Vec<String>,
    /// The direct dependencies that link a native library and have a build
    /// script: the `links` value, and the run of the script, whose metadata is
    /// exported to this one.
    pub links: Vec<(String, String)>,
}

/// A run of a test binary.
pub struct TestRun {
    /// The unit that compiles the test.
    pub compile: String,
    /// The test binary.
    pub binary: String,
    /// Whether it uses the libtest harness.
    pub harness: bool,
    /// Arguments.
    pub args: Vec<String>,
    /// Whether the run may be cached.
    pub cached: bool,
    /// The package's binaries that it finds: name and unit.
    pub bins: Vec<(String, String)>,
}

/// What a unit does.
pub enum UnitKind {
    /// Compile a crate.
    Compile(CompileUnit),
    /// Run a build script.
    ScriptRun(ScriptRun),
    /// Run a test.
    TestRun(TestRun),
}

/// One unit of the build.
pub struct Unit {
    /// Its id.
    pub id: String,
    /// What kind of work it is, in a word.
    pub mnemonic: String,
    /// Position of the package it belongs to.
    pub package: usize,
    /// Whether the package is outside the workspace.
    pub external: bool,
    /// What it does.
    pub kind: UnitKind,
}

// ---- What is compiled ------------------------------------------------------------

/// What a compilation is asked for.
pub struct CompileRequest {
    pub id: Seq<char>,
    pub mnemonic: Seq<char>,
    pub package: int,
    pub crate_name: Seq<char>,
    pub crate_type: Seq<char>,
    pub output: Option<Seq<char>>,
    pub needs: Needs,
    pub script: bool,
    pub root: Seq<char>,
    /// What it is for.
    pub role: Role,
    /// Whether it belongs to the package's units for the execution host: these
    /// have the package's features there, and its build script's run for them.
    pub host: bool,
    /// Whether it is compiled for the execution host, and links units for it.
    pub for_host: bool,
}

/// A unit of the build, by what it is for.
pub enum Target {
    ScriptCompile(int, bool),
    ScriptRun(int, bool),
    Macro(int),
    Lib(int, CrateType, bool),
    Bin(int, int),
    Example(int, int),
    TestCompile(int, int),
    TestRun(int, int),
}

/// Whether every one of these features is on.
pub open spec fn features_met(m: RustModel, i: int, required: Seq<Seq<char>>) -> bool {
    forall|k: int|
        0 <= k < required.len() ==> m.feature_map.features_of(
            m.packages@[i].id@,
            false,
        ).contains(#[trigger] required[k])
}

/// What kind of test a target is: the library's unit test, a benchmark, or an
/// integration test.
pub open spec fn test_kind(p: Package, t: int) -> Seq<char> {
    if p.tests@[t].bench {
        "bench"@
    } else if p.lib is Some && p.lib->0.path@ == p.tests@[t].path@ {
        "lib"@
    } else {
        "test"@
    }
}

/// What the compilation of a test is for.
pub open spec fn test_role(p: Package, t: int) -> Role {
    if !p.tests@[t].bench && p.lib is Some && p.lib->0.path@ == p.tests@[t].path@ {
        Role::UnitTest
    } else {
        Role::Test
    }
}

/// The id of the unit that compiles a binary.
pub open spec fn bin_id(m: RustModel, i: int, k: int) -> Seq<char> {
    "rust:bin:"@ + label_of(m, i) + ":"@ + m.packages@[i].bins@[k].name@
}

/// Those of the first `n` binaries of a package that are planned: name and unit.
pub open spec fn planned_bins(m: RustModel, i: int, n: int) -> Seq<(Seq<char>, Seq<char>)>
    decreases n,
{
    if n <= 0 {
        Seq::empty()
    } else {
        let before = planned_bins(m, i, n - 1);
        if features_met(m, i, texts(m.packages@[i].bins@[n - 1].required_features@)) {
            before.push((m.packages@[i].bins@[n - 1].name@, bin_id(m, i, n - 1)))
        } else {
            before
        }
    }
}

/// The binaries that a compilation, and the run of what it compiles, find.
pub open spec fn bins_found(m: RustModel, i: int, role: Role) -> Seq<(Seq<char>, Seq<char>)> {
    if role == Role::Test {
        planned_bins(m, i, m.packages@[i].bins@.len() as int)
    } else {
        Seq::empty()
    }
}

/// What tells a test of a package apart.
pub open spec fn test_label(m: RustModel, i: int, t: int) -> Seq<char> {
    label_of(m, i) + ":"@ + test_kind(m.packages@[i], t) + ":"@ + m.packages@[i].tests@[t].name@
}

/// The name of a build script's binary.
pub open spec fn script_binary(p: Package) -> Seq<char> {
    sanitized(p.name@) + "_build_script"@
}

/// Whether a package is one whose units for the execution host are asked for: a
/// proc macro, or what a build script links.
pub open spec fn host_root(m: RustModel, j: int) -> bool {
    ||| 0 <= j < m.packages@.len() && m.packages@[j].lib is Some
        && m.packages@[j].lib->0.proc_macro
    ||| exists|i: int, k: int|
        #![trigger m.packages@[i].build_deps@[k]]
        0 <= i < m.packages@.len() && 0 <= k < m.packages@[i].build_deps@.len() && host_edge(
            m,
            i,
            m.packages@[i].build_deps@[k],
        ) && find(m.packages@, m.packages@[i].build_deps@[k].package@) == Some(j)
}

/// Whether a build edge is followed: the package has a build script, and the edge
/// is enabled and leads to no native import.
pub open spec fn host_edge(m: RustModel, i: int, dep: Dep) -> bool {
    m.packages@[i].build_script is Some && edge_enabled(m, i, dep) && !native(
        m,
        dep.package.name@,
    )
}

/// Whether a package has units for the execution host: one of these, or what they
/// lead to.
#[verifier::opaque]
pub open spec fn hosted(p: Planner<'_>, j: int) -> bool {
    reaches(
        *p.model,
        *p.disk,
        p.toolchain.host_triple@,
        Walk::Builds,
        Set::new(|x: int| host_root(*p.model, x)),
        j,
    )
}

/// The library targets of a package for the target or for the host: its build
/// script, then its library as each of its crate types. A proc macro is for the
/// host alone.
pub open spec fn side_targets(m: RustModel, i: int, host: bool) -> Seq<Target> {
    script_targets(m, i, host) + crate_targets(m, i, host)
}

/// The targets of a package's build script.
pub open spec fn script_targets(m: RustModel, i: int, host: bool) -> Seq<Target> {
    if m.packages@[i].build_script is Some {
        seq![Target::ScriptCompile(i, host), Target::ScriptRun(i, host)]
    } else {
        Seq::empty()
    }
}

/// The targets of a package's library or proc macro.
pub open spec fn crate_targets(m: RustModel, i: int, host: bool) -> Seq<Target> {
    match m.packages@[i].lib {
        None => Seq::empty(),
        Some(lib) => if lib.proc_macro {
            if host {
                seq![Target::Macro(i)]
            } else {
                Seq::empty()
            }
        } else {
            types_of(lib.crate_types@).map_values(|t: CrateType| Target::Lib(i, t, host))
        },
    }
}

/// The library targets of a package: those for the target, and those for the host
/// where it has any.
pub open spec fn lib_targets(p: Planner<'_>, i: int) -> Seq<Target> {
    side_targets(*p.model, i, false) + (if hosted(p, i) {
        side_targets(*p.model, i, true)
    } else {
        Seq::empty()
    })
}

/// Those of the first `n` binaries whose required features are on.
pub open spec fn bin_targets(m: RustModel, i: int, n: int) -> Seq<Target>
    decreases n,
{
    if n <= 0 {
        Seq::empty()
    } else {
        let before = bin_targets(m, i, n - 1);
        if features_met(m, i, texts(m.packages@[i].bins@[n - 1].required_features@)) {
            before.push(Target::Bin(i, n - 1))
        } else {
            before
        }
    }
}

/// Those of the first `n` examples whose required features are on.
pub open spec fn example_targets(m: RustModel, i: int, n: int) -> Seq<Target>
    decreases n,
{
    if n <= 0 {
        Seq::empty()
    } else {
        let before = example_targets(m, i, n - 1);
        if features_met(m, i, texts(m.packages@[i].examples@[n - 1].required_features@)) {
            before.push(Target::Example(i, n - 1))
        } else {
            before
        }
    }
}

/// Those of the first `n` tests whose required features are on: each is compiled
/// and run.
pub open spec fn test_targets(m: RustModel, i: int, n: int) -> Seq<Target>
    decreases n,
{
    if n <= 0 {
        Seq::empty()
    } else {
        let before = test_targets(m, i, n - 1);
        if features_met(m, i, texts(m.packages@[i].tests@[n - 1].required_features@)) {
            before.push(Target::TestCompile(i, n - 1)).push(Target::TestRun(i, n - 1))
        } else {
            before
        }
    }
}

/// The library targets of the first `n` packages.
pub open spec fn all_libs(p: Planner<'_>, n: int) -> Seq<Target>
    decreases n,
{
    if n <= 0 {
        Seq::empty()
    } else {
        all_libs(p, n - 1) + lib_targets(p, n - 1)
    }
}

/// The binaries of the first `n` packages.
pub open spec fn all_bins(m: RustModel, n: int) -> Seq<Target>
    decreases n,
{
    if n <= 0 {
        Seq::empty()
    } else {
        all_bins(m, n - 1) + bin_targets(m, n - 1, m.packages@[n - 1].bins@.len() as int)
    }
}

/// The examples and tests of the first `n` packages.
pub open spec fn all_tests(m: RustModel, n: int) -> Seq<Target>
    decreases n,
{
    if n <= 0 {
        Seq::empty()
    } else {
        all_tests(m, n - 1) + example_targets(
            m,
            n - 1,
            m.packages@[n - 1].examples@.len() as int,
        ) + test_targets(m, n - 1, m.packages@[n - 1].tests@.len() as int)
    }
}

/// Every target of a build, in order: libraries, proc macros and build scripts
/// first, then binaries, then (in test builds) examples and tests.
pub open spec fn all_targets(p: Planner<'_>) -> Seq<Target> {
    let m = *p.model;
    let n = m.packages@.len() as int;
    all_libs(p, n) + all_bins(m, n) + (if p.tests_enabled {
        all_tests(m, n)
    } else {
        Seq::empty()
    })
}

/// What is asked of the compilation for a target.
pub open spec fn request_of(m: RustModel, t: Target) -> CompileRequest {
    let normal = Needs { own: false, normal: true, build: false, dev: false };
    match t {
        Target::ScriptCompile(i, host) => CompileRequest {
            id: script_compile_id(m, i, host),
            mnemonic: "RustBuildScriptCompile"@,
            package: i,
            crate_name: script_binary(m.packages@[i]),
            crate_type: "bin"@,
            output: None,
            needs: Needs { own: false, normal: false, build: true, dev: false },
            script: false,
            root: m.packages@[i].build_script->0@,
            role: Role::Script,
            host,
            for_host: true,
        },
        Target::Macro(i) => CompileRequest {
            id: macro_id(m, i),
            mnemonic: "RustProcMacro"@,
            package: i,
            crate_name: lib_crate_text(m.packages@[i]),
            crate_type: "proc-macro"@,
            output: None,
            needs: normal,
            script: true,
            root: m.packages@[i].lib->0.path@,
            role: Role::Library,
            host: true,
            for_host: true,
        },
        Target::Lib(i, t, host) => CompileRequest {
            id: lib_id(m, i, t, host),
            mnemonic: "RustLibrary"@,
            package: i,
            crate_name: lib_crate_text(m.packages@[i]),
            crate_type: crate_type_text(t),
            output: None,
            needs: normal,
            script: true,
            root: m.packages@[i].lib->0.path@,
            role: Role::Library,
            host,
            for_host: host,
        },
        Target::Bin(i, k) => CompileRequest {
            id: bin_id(m, i, k),
            mnemonic: "RustBinary"@,
            package: i,
            crate_name: sanitized(m.packages@[i].bins@[k].name@),
            crate_type: "bin"@,
            output: Some(m.packages@[i].bins@[k].name@),
            needs: Needs { own: true, ..normal },
            script: true,
            root: m.packages@[i].bins@[k].path@,
            role: Role::Bin,
            host: false,
            for_host: false,
        },
        Target::Example(i, k) => CompileRequest {
            id: "rust:example:"@ + label_of(m, i) + ":"@ + m.packages@[i].examples@[k].name@,
            mnemonic: "RustExample"@,
            package: i,
            crate_name: sanitized(m.packages@[i].examples@[k].name@),
            crate_type: "bin"@,
            output: Some(m.packages@[i].examples@[k].name@),
            needs: Needs { own: true, dev: true, ..normal },
            script: true,
            root: m.packages@[i].examples@[k].path@,
            role: Role::Example,
            host: false,
            for_host: false,
        },
        Target::TestCompile(i, k) => CompileRequest {
            id: "rust:test-compile:"@ + test_label(m, i, k),
            mnemonic: "RustTestCompile"@,
            package: i,
            crate_name: sanitized(m.packages@[i].tests@[k].name@),
            crate_type: test_crate_type(m.packages@[i].tests@[k].harness),
            output: Some(m.packages@[i].tests@[k].name@),
            needs: Needs { own: true, dev: true, ..normal },
            script: true,
            root: m.packages@[i].tests@[k].path@,
            role: test_role(m.packages@[i], k),
            host: false,
            for_host: false,
        },
        Target::ScriptRun(i, _) => request_of_none(i),
        Target::TestRun(i, _) => request_of_none(i),
    }
}

/// What a unit that compiles nothing is asked for.
pub open spec fn request_of_none(i: int) -> CompileRequest {
    CompileRequest {
        id: Seq::empty(),
        mnemonic: Seq::empty(),
        package: i,
        crate_name: Seq::empty(),
        crate_type: Seq::empty(),
        output: None,
        needs: Needs { own: false, normal: false, build: false, dev: false },
        script: false,
        root: Seq::empty(),
        role: Role::Script,
        host: false,
        for_host: false,
    }
}

/// What a test target is compiled as: one without the libtest harness is a
/// binary of its own.
pub open spec fn test_crate_type(harness: bool) -> Seq<char> {
    if harness {
        "test"@
    } else {
        "bin"@
    }
}

/// Whether a target is a compilation.
pub open spec fn is_compile(t: Target) -> bool {
    !(t is ScriptRun) && !(t is TestRun)
}

// ---- The parts of a compilation ---------------------------------------------------

/// The file that a compilation writes.
pub open spec fn output_of(
    p: Planner<'_>,
    crate_text: Seq<char>,
    crate_type: Seq<char>,
    meta: Seq<char>,
    output: Option<Seq<char>>,
) -> Seq<char> {
    match output {
        Some(name) => name,
        None => if crate_type == "bin"@ {
            crate_text
        } else {
            artifact_name(crate_text, meta, extension_of(p, crate_type))
        },
    }
}

/// The crate root, where it is mounted.
pub open spec fn root_from(p: Planner<'_>, i: int, path: Seq<char>, from: int) -> Seq<char>
    decreases p.roots@.len() - from,
{
    if from < 0 || from >= p.roots@.len() {
        path
    } else if p.roots@[from].package == i && p.roots@[from].original@ == path {
        p.roots@[from].rewritten@
    } else {
        root_from(p, i, path, from + 1)
    }
}

/// The compile-time crate root for a package-relative path, rewritten when the
/// file lives outside the package dir.
pub fn crate_root_for(p: &Planner<'_>, i: usize, path: &str) -> (r: String)
    ensures
        r@ == root_from(*p, i as int, path@, 0),
{
    let mut k: usize = 0;
    while k < p.roots.len()
        invariant
            k <= p.roots@.len(),
            root_from(*p, i as int, path@, 0) == root_from(*p, i as int, path@, k as int),
        decreases p.roots@.len() - k,
    {
        if p.roots[k].package == i && same(p.roots[k].original.as_str(), path) {
            return p.roots[k].rewritten.clone();
        }
        k += 1;
    }
    owned(path)
}

/// Whether a package is outside the workspace: a dependency.
pub open spec fn is_external(m: RustModel, i: int) -> bool {
    forall|k: int|
        0 <= k < m.members@.len() ==> (#[trigger] m.members@[k])@ != m.packages@[i].id@
}

/// Whether a package belongs to the workspace; everything else (registry, git,
/// and path-outside-workspace dependencies) is external.
pub fn pkg_external(model: &RustModel, i: usize) -> (r: bool)
    requires
        i < model.packages@.len(),
    ensures
        r == is_external(*model, i as int),
{
    let mut k: usize = 0;
    while k < model.members.len()
        invariant
            k <= model.members@.len(),
            i < model.packages@.len(),
            forall|x: int|
                0 <= x < k ==> (#[trigger] model.members@[x])@ != model.packages@[i as int].id@,
        decreases model.members@.len() - k,
    {
        if model.members[k].same(&model.packages[i].id) {
            return false;
        }
        k += 1;
    }
    true
}

/// The flags of the workspace and of the package; lints of external crates are
/// their maintainers' concern.
pub open spec fn extra_flags_of(m: RustModel, i: int) -> Seq<Seq<char>> {
    let own = texts(m.global_rustflags@) + texts(m.packages@[i].rustflags@);
    if is_external(m, i) {
        own.push("--cap-lints"@).push("allow"@)
    } else {
        own
    }
}

fn collect_flags(model: &RustModel, i: usize) -> (r: Vec<String>)
    requires
        i < model.packages@.len(),
    ensures
        texts(r@) == extra_flags_of(*model, i as int),
{
    let mut out = copy_texts(&model.global_rustflags);
    push_all(&mut out, &model.packages[i].rustflags);
    if pkg_external(model, i) {
        push_text(&mut out, "--cap-lints");
        push_text(&mut out, "allow");
    }
    out
}

/// The `--cfg` flags of features.
pub open spec fn feature_flags(features: Seq<Seq<char>>) -> Seq<Seq<char>>
    decreases features.len(),
{
    if features.len() == 0 {
        Seq::empty()
    } else {
        feature_flags(features.drop_last()).push("--cfg"@).push(
            "feature=\""@ + features.last() + "\""@,
        )
    }
}

/// The activated features of a package for the target or for the host, in order.
pub open spec fn features_of(m: RustModel, i: int, host: bool) -> Seq<Seq<char>> {
    ascending_of(m.feature_map.features_of(m.packages@[i].id@, host))
}

fn list_features(model: &RustModel, i: usize, host: bool) -> (r: Vec<String>)
    requires
        i < model.packages@.len(),
    ensures
        texts(r@) == features_of(*model, i as int, host),
{
    model.feature_map.features_for(&model.packages[i].id, host).to_list()
}

fn list_feature_flags(features: &Vec<String>) -> (r: Vec<String>)
    ensures
        texts(r@) == feature_flags(texts(features@)),
{
    let ghost all = texts(features@);
    let mut out: Vec<String> = Vec::new();
    let mut i: usize = 0;
    assert(texts(out@) =~= feature_flags(all.take(0)));
    while i < features.len()
        invariant
            i <= features@.len(),
            all == texts(features@),
            texts(out@) == feature_flags(all.take(i as int)),
        decreases features@.len() - i,
    {
        proof {
            assert(all.take(i as int + 1).drop_last() =~= all.take(i as int));
            assert(all.take(i as int + 1).last() == features@[i as int]@);
        }
        push_text(&mut out, "--cfg");
        push_string(&mut out, cat3("feature=\"", features[i].as_str(), "\""));
        i += 1;
    }
    assert(all.take(all.len() as int) =~= all);
    out
}

/// Flags without the choice of LTO, from a position on: it is not supported for
/// proc macros.
pub open spec fn without_lto(flags: Seq<Seq<char>>, from: int) -> Seq<Seq<char>>
    decreases flags.len() - from,
{
    if from < 0 || from >= flags.len() {
        Seq::empty()
    } else if flags[from] == "-C"@ && from + 1 < flags.len() && starts(
        flags[from + 1],
        "lto="@,
    ) {
        without_lto(flags, from + 2)
    } else {
        seq![flags[from]] + without_lto(flags, from + 1)
    }
}

fn drop_lto(flags: &Vec<String>) -> (r: Vec<String>)
    ensures
        texts(r@) == without_lto(texts(flags@), 0),
{
    let ghost all = texts(flags@);
    let mut out: Vec<String> = Vec::new();
    let mut i: usize = 0;
    assert(texts(out@) + without_lto(all, 0) =~= without_lto(all, 0));
    while i < flags.len()
        invariant
            i <= flags@.len(),
            all == texts(flags@),
            texts(out@) + without_lto(all, i as int) == without_lto(all, 0),
        decreases flags@.len() - i,
    {
        assert(all[i as int] == flags@[i as int]@);
        let mut skip = false;
        if same(flags[i].as_str(), "-C") && flags.len() - i > 1 {
            assert(all[i as int + 1] == flags@[i as int + 1]@);
            skip = starts_with(flags[i + 1].as_str(), "lto=");
        }
        if skip {
            i += 2;
        } else {
            let ghost before = texts(out@);
            push_text(&mut out, flags[i].as_str());
            assert(before + (seq![all[i as int]] + without_lto(all, i as int + 1)) =~= texts(out@)
                + without_lto(all, i as int + 1));
            i += 1;
        }
    }
    assert(texts(out@) + without_lto(all, i as int) =~= texts(out@));
    out
}

/// The profile's flags for a crate type.
pub open spec fn profile_flags_of(p: Planner<'_>, crate_type: Seq<char>) -> Seq<Seq<char>> {
    if crate_type == "proc-macro"@ {
        without_lto(profile_flags(p.profile@), 0)
    } else {
        profile_flags(p.profile@)
    }
}

/// A proc macro is compiled without a choice of LTO and with every other flag of
/// the profile.
pub proof fn proc_macros_have_no_lto(flags: Seq<Seq<char>>, from: int, k: int)
    requires
        0 <= from,
        0 <= k < without_lto(flags, from).len() - 1,
        without_lto(flags, from)[k] == "-C"@,
        forall|i: int|
            0 <= i < flags.len() - 1 && flags[i] == "-C"@ ==> (#[trigger] flags[i + 1]) != "-C"@,
    ensures
        !starts(without_lto(flags, from)[k + 1], "lto="@),
    decreases flags.len() - from,
{
    let rest = without_lto(flags, from);
    if from < flags.len() {
        if flags[from] == "-C"@ && from + 1 < flags.len() && starts(flags[from + 1], "lto="@) {
            proc_macros_have_no_lto(flags, from + 2, k);
        } else {
            let tail = without_lto(flags, from + 1);
            assert(rest =~= seq![flags[from]] + tail);
            if k == 0 {
                assert(rest[0] == flags[from]);
                assert(rest[1] == tail[0]);
                if from + 1 < flags.len() {
                    assert(flags[from + 1] != "-C"@);
                    assert(tail =~= seq![flags[from + 1]] + without_lto(flags, from + 2));
                }
            } else {
                assert(rest[k] == tail[k - 1]);
                assert(rest[k + 1] == tail[k]);
                proc_macros_have_no_lto(flags, from + 1, k - 1);
            }
        }
    }
}

/// The build-script runs among these packages.
pub open spec fn scripts_among(m: RustModel, order: Seq<int>, host: bool) -> Seq<Seq<char>>
    decreases order.len(),
{
    if order.len() == 0 {
        Seq::empty()
    } else {
        let before = scripts_among(m, order.drop_last(), host);
        if m.packages@[order.last()].build_script is Some {
            before.push(script_run_id(m, order.last(), host))
        } else {
            before
        }
    }
}

/// The build-script runs whose link directives apply to a package's crates: its
/// own script, then the scripts of every transitive dependency (Cargo propagates
/// link directives to all dependents).
pub open spec fn directive_sources_of(m: RustModel, i: int, host: bool) -> Seq<Seq<char>> {
    scripts_among(m, seq![i], host) + scripts_among(m, script_order(m, i), host)
}

/// Lists the build-script runs whose link directives apply to a package.
pub fn link_directive_sources(model: &RustModel, i: usize, host: bool) -> (r: Vec<String>)
    requires
        i < model.packages@.len(),
    ensures
        texts(r@) == directive_sources_of(*model, i as int, host),
{
    let ghost m = *model;
    let mut out: Vec<String> = Vec::new();
    proof {
        assert(texts(out@) =~= Seq::<Seq<char>>::empty());
        assert(seq![i as int].drop_last() =~= Seq::<int>::empty());
        reveal_with_fuel(scripts_among, 2);
    }
    if model.packages[i].build_script.is_some() {
        push_string(&mut out, name_script_run(model, i, host));
    }
    let ghost own = texts(out@);
    assert(own == scripts_among(m, seq![i as int], host));
    let order = walk_scripts(model, i);
    let ghost all = positions(order@);
    let mut k: usize = 0;
    assert(own =~= own + scripts_among(m, all.take(0), host));
    while k < order.len()
        invariant
            k <= order@.len(),
            m == *model,
            all == positions(order@),
            forall|x: int| 0 <= x < order@.len() ==> #[trigger] order@[x] < m.packages@.len(),
            texts(out@) == own + scripts_among(m, all.take(k as int), host),
        decreases order@.len() - k,
    {
        let j = order[k];
        proof {
            assert(all.take(k as int + 1).drop_last() =~= all.take(k as int));
            assert(all.take(k as int + 1).last() == j);
        }
        if model.packages[j].build_script.is_some() {
            push_string(&mut out, name_script_run(model, j, host));
            assert(texts(out@) =~= own + scripts_among(m, all.take(k as int + 1), host));
        }
        k += 1;
    }
    assert(all.take(all.len() as int) =~= all);
    out
}

/// The link name of a native import (of the last one with the name).
pub open spec fn link_name_of(m: RustModel, name: Seq<char>, n: int) -> Seq<char>
    decreases n,
{
    if n <= 0 {
        Seq::empty()
    } else if m.cc_imports@[n - 1].name@ == name {
        m.cc_imports@[n - 1].link_name@
    } else {
        link_name_of(m, name, n - 1)
    }
}

/// The native imports that a package links, in order, each with its link name.
pub open spec fn natives_of(p: Planner<'_>, i: int) -> Seq<(Seq<char>, Seq<char>)> {
    let m = *p.model;
    ascending_of(native_closure(m, *p.disk, p.toolchain.host_triple@, i)).map_values(
        |name: Seq<char>| (name, link_name_of(m, name, m.cc_imports@.len() as int)),
    )
}

/// What pairs of strings hold.
pub open spec fn pairs_view(v: Seq<(String, String)>) -> Seq<(Seq<char>, Seq<char>)> {
    v.map_values(|x: (String, String)| (x.0@, x.1@))
}

fn find_link_name(model: &RustModel, name: &str) -> (r: String)
    ensures
        r@ == link_name_of(*model, name@, model.cc_imports@.len() as int),
{
    let mut k: usize = model.cc_imports.len();
    while k > 0
        invariant
            k <= model.cc_imports@.len(),
            link_name_of(*model, name@, model.cc_imports@.len() as int) == link_name_of(
                *model,
                name@,
                k as int,
            ),
        decreases k,
    {
        k -= 1;
        if same(model.cc_imports[k].name.as_str(), name) {
            return model.cc_imports[k].link_name.clone();
        }
    }
    let none = String::new();
    proof {
        reveal_strlit("");
        assert(none@ =~= Seq::<char>::empty());
    }
    none
}

/// Lists the native imports that a package links.
pub fn cc_for(p: &Planner<'_>, i: usize) -> (r: Vec<(String, String)>)
    requires
        i < p.model.packages@.len(),
    ensures
        pairs_view(r@) == natives_of(*p, i as int),
{
    let names = collect_cc(p.model, p.disk, p.toolchain.host_triple.as_str(), i).to_list();
    let ghost want = natives_of(*p, i as int);
    let mut out: Vec<(String, String)> = Vec::new();
    let mut k: usize = 0;
    assert(pairs_view(out@) =~= want.take(0));
    while k < names.len()
        invariant
            k <= names@.len(),
            want == natives_of(*p, i as int),
            want.len() == names@.len(),
            texts(names@) == ascending_of(
                native_closure(*p.model, *p.disk, p.toolchain.host_triple@, i as int),
            ),
            pairs_view(out@) == want.take(k as int),
        decreases names@.len() - k,
    {
        let ghost before = out@;
        let link = find_link_name(p.model, names[k].as_str());
        out.push((names[k].clone(), link));
        proof {
            assert(texts(names@)[k as int] == names@[k as int]@);
            assert(want[k as int] == (names@[k as int]@, link@));
            assert(pairs_view(out@) =~= pairs_view(before).push((names@[k as int]@, link@)));
            assert(pairs_view(out@) =~= want.take(k as int + 1));
        }
        k += 1;
    }
    assert(want.take(want.len() as int) =~= want);
    out
}

/// Those of the first `n` live normal dependencies that link a native library
/// and have a build script.
pub open spec fn links_upto(p: Planner<'_>, i: int, host: bool, n: int) -> Seq<(Seq<char>, Seq<char>)>
    decreases n,
{
    if n <= 0 {
        Seq::empty()
    } else {
        let m = *p.model;
        let before = links_upto(p, i, host, n - 1);
        let dep = m.packages@[i].deps@[n - 1];
        match find(m.packages@, dep.package@) {
            Some(j) => if edge_live(m, *p.disk, p.toolchain.host_triple@, i, dep) && !native(
                m,
                dep.package.name@,
            ) && m.packages@[j].links is Some && m.packages@[j].build_script is Some {
                before.push((m.packages@[j].links->0@, script_run_id(m, j, host)))
            } else {
                before
            },
            None => before,
        }
    }
}

/// The direct dependencies of a package whose build scripts export metadata to
/// its own.
pub open spec fn links_of(p: Planner<'_>, i: int, host: bool) -> Seq<(Seq<char>, Seq<char>)> {
    links_upto(p, i, host, p.model.packages@[i].deps@.len() as int)
}

fn list_links(p: &Planner<'_>, i: usize, host: bool) -> (r: Vec<(String, String)>)
    requires
        i < p.model.packages@.len(),
    ensures
        pairs_view(r@) == links_of(*p, i as int, host),
{
    let model = p.model;
    let package = &model.packages[i];
    let mut out: Vec<(String, String)> = Vec::new();
    let mut k: usize = 0;
    assert(pairs_view(out@) =~= Seq::<(Seq<char>, Seq<char>)>::empty());
    while k < package.deps.len()
        invariant
            k <= package.deps@.len(),
            model == p.model,
            i < model.packages@.len(),
            *package == model.packages@[i as int],
            pairs_view(out@) == links_upto(*p, i as int, host, k as int),
        decreases package.deps@.len() - k,
    {
        let dep = &package.deps[k];
        let ghost before = out@;
        if let Some(j) = position_of_package(&model.packages, &dep.package) {
            if dep_active(model, p.disk, p.toolchain.host_triple.as_str(), i, dep) && !is_native(
                model,
                dep.package.name.as_str(),
            ) {
                if let Some(links) = &model.packages[j].links {
                    if model.packages[j].build_script.is_some() {
                        let run = name_script_run(model, j, host);
                        out.push((links.clone(), run));
                        assert(pairs_view(out@) =~= pairs_view(before).push((links@, run@)));
                    }
                }
            }
        }
        k += 1;
    }
    out
}

// ---- Compilations ------------------------------------------------------------------

/// Whether a compilation is what was asked for.
pub open spec fn compiles(c: CompileUnit, p: Planner<'_>, q: CompileRequest) -> bool {
    let m = *p.model;
    let i = q.package;
    &&& c.role == q.role
    &&& c.host == q.for_host
    &&& c.crate_name@ == q.crate_name
    &&& c.edition == m.packages@[i].edition
    &&& c.crate_type@ == q.crate_type
    &&& meta_of(p, i, q.crate_name, side_kind(q.crate_type, q.host)) == Ok::<
        Seq<char>,
        PlanFault,
    >(c.meta@)
    &&& c.output@ == output_of(p, q.crate_name, q.crate_type, c.meta@, q.output)
    &&& specs_of(p, i, q.needs, q.for_host) == Ok::<Seq<DepSpecView>, PlanFault>(
        dep_specs_view(c.deps@),
    )
    &&& opt_view(c.build_script) == (if q.script && m.packages@[i].build_script is Some {
        Some(script_run_id(m, i, q.host))
    } else {
        None
    })
    &&& texts(c.directive_sources@) == directive_sources_of(m, i, q.for_host)
    &&& c.crate_root@ == root_from(p, i, q.root, 0)
    &&& texts(c.extra_flags@) == extra_flags_of(m, i)
    &&& texts(c.feature_cfgs@) == feature_flags(features_of(m, i, q.host))
    &&& c.transitive@ == linked_actions(p, i, q.needs, q.for_host)
    &&& first_unlinkable(p, i, q.needs) is None
    &&& c.is_proc_macro == (m.packages@[i].lib is Some && m.packages@[i].lib->0.proc_macro)
    &&& texts(c.profile_flags@) == profile_flags_of(p, q.crate_type)
    &&& pairs_view(c.cc@) == natives_of(p, i)
    &&& pairs_view(c.bins@) == bins_found(m, i, q.role)
}

/// Whether this is what is wrong with a compilation that was asked for: its
/// metadata hash or that of a dependency is not known, a direct dependency
/// cannot be linked, or one further down cannot.
pub open spec fn compile_fault(p: Planner<'_>, q: CompileRequest, fault: PlanFault) -> bool {
    match meta_of(p, q.package, q.crate_name, side_kind(q.crate_type, q.host)) {
        Err(f) => fault == f,
        Ok(_) => match specs_of(p, q.package, q.needs, q.for_host) {
            Err(f) => fault == f,
            Ok(_) => match first_unlinkable(p, q.package, q.needs) {
                Some(message) => fault == PlanFault::Message(message),
                None => false,
            },
        },
    }
}

/// Lists the binaries that a compilation finds.
fn list_found_bins(model: &RustModel, i: usize, role: Role) -> (r: Vec<(String, String)>)
    requires
        i < model.packages@.len(),
    ensures
        pairs_view(r@) == bins_found(*model, i as int, role),
{
    let mut out: Vec<(String, String)> = Vec::new();
    assert(pairs_view(out@) =~= Seq::<(Seq<char>, Seq<char>)>::empty());
    if role == Role::Test {
        let bins = &model.packages[i].bins;
        let name = label(model, i);
        let mut k: usize = 0;
        while k < bins.len()
            invariant
                k <= bins@.len(),
                i < model.packages@.len(),
                *bins == model.packages@[i as int].bins,
                name@ == label_of(*model, i as int),
                pairs_view(out@) == planned_bins(*model, i as int, k as int),
            decreases bins@.len() - k,
        {
            let bin = &bins[k];
            if has_features(model, i, &bin.required_features) {
                let ghost before = out@;
                let id = cat4("rust:bin:", name.as_str(), ":", bin.name.as_str());
                out.push((bin.name.clone(), id));
                assert(pairs_view(out@) =~= pairs_view(before).push((bin.name@, id@)));
            }
            k += 1;
        }
    }
    out
}

/// Plans one compilation.
fn plan_compile(
    p: &Planner<'_>,
    i: usize,
    crate_text: String,
    crate_type: &str,
    output: Option<String>,
    needs: Needs,
    script: bool,
    root: &str,
    role: Role,
    host: bool,
    for_host: bool,
    Ghost(q): Ghost<CompileRequest>,
) -> (r: Result<CompileUnit, PlanError>)
    requires
        i < p.model.packages@.len(),
        q.package == i,
        q.crate_name == crate_text@,
        q.crate_type == crate_type@,
        q.output == opt_view(output),
        q.needs == needs,
        q.script == script,
        q.root == root@,
        q.role == role,
        q.host == host,
        q.for_host == for_host,
    ensures
        match r {
            Ok(c) => compiles(c, *p, q),
            Err(e) => compile_fault(*p, q, e@),
        },
{
    let model = p.model;
    let meta = match find_meta(
        p,
        i,
        crate_text.as_str(),
        kind_for(crate_type, host).as_str(),
    ) {
        Ok(m) => m,
        Err(e) => return Err(e),
    };
    let out_name = match output {
        Some(name) => name,
        None => if same(crate_type, "bin") {
            crate_text.clone()
        } else {
            artifact(
                crate_text.as_str(),
                meta.as_str(),
                extension(p, crate_type).as_str(),
            )
        },
    };
    let deps = match resolve_specs(p, i, needs, for_host) {
        Ok(d) => d,
        Err(e) => return Err(e),
    };
    let transitive = match transitive_dep_specs(p, i, needs, for_host) {
        Ok(t) => t,
        Err(e) => return Err(e),
    };
    let flags = p.profile.rustc_flags();
    let package = &model.packages[i];
    let build_script = if script && package.build_script.is_some() {
        Some(name_script_run(model, i, host))
    } else {
        None
    };
    let is_proc_macro = match &package.lib {
        Some(lib) => lib.proc_macro,
        None => false,
    };
    Ok(
        CompileUnit {
            role,
            host: for_host,
            edition: package.edition,
            crate_type: owned(crate_type),
            meta,
            output: out_name,
            deps,
            build_script,
            directive_sources: link_directive_sources(model, i, for_host),
            crate_root: crate_root_for(p, i, root),
            extra_flags: collect_flags(model, i),
            feature_cfgs: list_feature_flags(&list_features(model, i, host)),
            transitive,
            is_proc_macro,
            profile_flags: if same(crate_type, "proc-macro") {
                drop_lto(&flags)
            } else {
                flags
            },
            cc: cc_for(p, i),
            bins: list_found_bins(model, i, role),
            crate_name: crate_text,
        },
    )
}

// ---- The plan ------------------------------------------------------------------------

/// The package that a target belongs to.
pub open spec fn target_package(t: Target) -> int {
    match t {
        Target::ScriptCompile(i, _) => i,
        Target::ScriptRun(i, _) => i,
        Target::Macro(i) => i,
        Target::Lib(i, _, _) => i,
        Target::Bin(i, _) => i,
        Target::Example(i, _) => i,
        Target::TestCompile(i, _) => i,
        Target::TestRun(i, _) => i,
    }
}

/// Whether a unit is the one for a target.
pub open spec fn unit_is(u: Unit, p: Planner<'_>, t: Target) -> bool {
    let m = *p.model;
    &&& u.package == target_package(t)
    &&& u.external == is_external(m, target_package(t))
    &&& match t {
        Target::ScriptRun(i, host) => {
            &&& u.id@ == script_run_id(m, i, host)
            &&& u.mnemonic@ == "RustBuildScriptRun"@
            &&& u.kind matches UnitKind::ScriptRun(run) && run.host == host && run.compile@
                == script_compile_id(m, i, host) && run.binary@ == script_binary(m.packages@[i])
                && texts(run.features@) == features_of(m, i, host) && pairs_view(run.links@)
                == links_of(p, i, host)
        },
        Target::TestRun(i, k) => {
            let test = m.packages@[i].tests@[k];
            &&& u.id@ == "rust:test-run:"@ + test_label(m, i, k)
            &&& u.mnemonic@ == "RustTestRun"@
            &&& u.kind matches UnitKind::TestRun(run) && run.compile@ == "rust:test-compile:"@
                + test_label(m, i, k) && run.binary@ == test.name@ && run.harness == test.harness
                && texts(run.args@) == texts(p.test_args@) && run.cached == test.cache_test_result
                && pairs_view(run.bins@) == bins_found(m, i, test_role(m.packages@[i], k))
        },
        _ => {
            let q = request_of(m, t);
            &&& u.id@ == q.id
            &&& u.mnemonic@ == q.mnemonic
            &&& u.kind matches UnitKind::Compile(c) && compiles(c, p, q)
        },
    }
}

/// Whether units have come on top, one for each of these targets, in order.
pub open spec fn extends(a: Seq<Unit>, b: Seq<Unit>, ts: Seq<Target>, p: Planner<'_>) -> bool {
    &&& b.len() == a.len() + ts.len()
    &&& forall|k: int| 0 <= k < a.len() ==> #[trigger] b[k] == a[k]
    &&& forall|k: int| 0 <= k < ts.len() ==> unit_is(b[a.len() + k], p, #[trigger] ts[k])
}

/// Whether nothing is wrong with a target.
pub open spec fn sound(p: Planner<'_>, t: Target) -> bool {
    is_compile(t) ==> forall|fault: PlanFault|
        !#[trigger] compile_fault(p, request_of(*p.model, t), fault)
}

/// Whether a target is the first of these that something is wrong with.
pub open spec fn first_faulty(p: Planner<'_>, ts: Seq<Target>, k: int) -> bool {
    0 <= k < ts.len() && is_compile(ts[k]) && forall|j: int| 0 <= j < k ==> sound(p, #[trigger] ts[j])
}

/// Whether this is what is wrong with the first of these targets that something is
/// wrong with.
pub open spec fn failing(p: Planner<'_>, ts: Seq<Target>, fault: PlanFault) -> bool {
    exists|k: int| #[trigger]
        first_faulty(p, ts, k) && compile_fault(p, request_of(*p.model, ts[k]), fault)
}

/// What units have been made for is sound.
proof fn lemma_extends_sound(a: Seq<Unit>, b: Seq<Unit>, ts: Seq<Target>, p: Planner<'_>)
    requires
        extends(a, b, ts, p),
    ensures
        forall|k: int| 0 <= k < ts.len() ==> sound(p, #[trigger] ts[k]),
{
    assert forall|k: int| 0 <= k < ts.len() implies sound(p, #[trigger] ts[k]) by {
        assert(unit_is(b[a.len() + k], p, ts[k]));
    }
}

proof fn lemma_extends(a: Seq<Unit>, b: Seq<Unit>, c: Seq<Unit>, s: Seq<Target>, t: Seq<Target>, p: Planner<'_>)
    requires
        extends(a, b, s, p),
        extends(b, c, t, p),
    ensures
        extends(a, c, s + t, p),
{
    assert forall|k: int| 0 <= k < a.len() implies #[trigger] c[k] == a[k] by {
        assert(b[k] == a[k]);
    }
    assert forall|k: int| 0 <= k < (s + t).len() implies unit_is(
        c[a.len() + k],
        p,
        #[trigger] (s + t)[k],
    ) by {
        if k < s.len() {
            assert((s + t)[k] == s[k]);
            assert(c[a.len() + k] == b[a.len() + k]);
        } else {
            assert((s + t)[k] == t[k - s.len()]);
            assert(c[b.len() + (k - s.len())] == c[a.len() + k]);
        }
    }
}

proof fn lemma_failing(p: Planner<'_>, s: Seq<Target>, t: Seq<Target>, u: Seq<Target>, fault: PlanFault)
    requires
        failing(p, t, fault),
        forall|k: int| 0 <= k < s.len() ==> sound(p, #[trigger] s[k]),
    ensures
        failing(p, s + t + u, fault),
{
    let k = choose|k: int| #[trigger]
        first_faulty(p, t, k) && compile_fault(p, request_of(*p.model, t[k]), fault);
    let all = s + t + u;
    assert(all[s.len() + k] == t[k]);
    assert forall|j: int| 0 <= j < s.len() + k implies sound(p, #[trigger] all[j]) by {
        if j < s.len() {
            assert(all[j] == s[j]);
        } else {
            assert(all[j] == t[j - s.len()]);
        }
    }
    assert(first_faulty(p, all, s.len() + k));
}

proof fn lemma_extends_none(a: Seq<Unit>, p: Planner<'_>)
    ensures
        extends(a, a, Seq::empty(), p),
{
}

/// Appends the unit for one target.
fn add_unit(p: &Planner<'_>, out: &mut Vec<Unit>, unit: Unit, Ghost(t): Ghost<Target>)
    requires
        unit_is(unit, *p, t),
    ensures
        extends(old(out)@, final(out)@, seq![t], *p),
{
    out.push(unit);
}

/// Plans a compilation and appends its unit.
fn add_compile(
    p: &Planner<'_>,
    out: &mut Vec<Unit>,
    id: String,
    mnemonic: &str,
    i: usize,
    crate_text: String,
    crate_type: &str,
    output: Option<String>,
    needs: Needs,
    script: bool,
    root: &str,
    role: Role,
    host: bool,
    for_host: bool,
    Ghost(t): Ghost<Target>,
) -> (r: Option<PlanError>)
    requires
        i < p.model.packages@.len(),
        is_compile(t),
        target_package(t) == i,
        ({
            let q = request_of(*p.model, t);
            q.id == id@ && q.mnemonic == mnemonic@ && q.package == i && q.crate_name == crate_text@
                && q.crate_type == crate_type@ && q.output == opt_view(output) && q.needs == needs
                && q.script == script && q.root == root@ && q.role == role && q.host == host
                && q.for_host == for_host
        }),
    ensures
        match r {
            None => extends(old(out)@, final(out)@, seq![t], *p),
            Some(e) => failing(*p, seq![t], e@) && final(out)@ == old(out)@,
        },
{
    let ghost q = request_of(*p.model, t);
    match plan_compile(
        p,
        i,
        crate_text,
        crate_type,
        output,
        needs,
        script,
        root,
        role,
        host,
        for_host,
        Ghost(q),
    ) {
        Ok(c) => {
            let unit = Unit {
                id,
                mnemonic: owned(mnemonic),
                package: i,
                external: pkg_external(p.model, i),
                kind: UnitKind::Compile(c),
            };
            add_unit(p, out, unit, Ghost(t));
            None
        },
        Err(e) => {
            assert(first_faulty(*p, seq![t], 0));
            Some(e)
        },
    }
}

/// Plans a package's build script, for the target or for the host.
fn plan_script(p: &Planner<'_>, i: usize, host: bool, out: &mut Vec<Unit>) -> (r: Option<PlanError>)
    requires
        i < p.model.packages@.len(),
    ensures
        match r {
            None => extends(old(out)@, final(out)@, script_targets(*p.model, i as int, host), *p),
            Some(e) => failing(*p, script_targets(*p.model, i as int, host), e@),
        },
{
    let ghost m = *p.model;
    let ghost start = out@;
    let ghost all = script_targets(m, i as int, host);
    let package = &p.model.packages[i];
    proof {
        lemma_extends_none(start, *p);
    }
    if let Some(script) = &package.build_script {
        let compile_id = name_script_compile(p.model, i, host);
        let binary = cat(crate_name(package.name.as_str()).as_str(), "_build_script");
        let ghost t = Target::ScriptCompile(i as int, host);
        if let Some(e) = add_compile(
            p,
            out,
            compile_id.clone(),
            "RustBuildScriptCompile",
            i,
            binary.clone(),
            "bin",
            None,
            Needs { own: false, normal: false, build: true, dev: false },
            false,
            script.as_str(),
            Role::Script,
            host,
            true,
            Ghost(t),
        ) {
            proof {
                let rest = all.skip(1);
                lemma_failing(*p, Seq::empty(), seq![t], rest, e@);
                assert(Seq::empty() + seq![t] + rest =~= all);
            }
            return Some(e);
        }
        let ghost mid = out@;
        let ghost u = Target::ScriptRun(i as int, host);
        let unit = Unit {
            id: name_script_run(p.model, i, host),
            mnemonic: owned("RustBuildScriptRun"),
            package: i,
            external: pkg_external(p.model, i),
            kind: UnitKind::ScriptRun(
                ScriptRun {
                    host,
                    compile: compile_id,
                    binary,
                    features: list_features(p.model, i, host),
                    links: list_links(p, i, host),
                },
            ),
        };
        add_unit(p, out, unit, Ghost(u));
        proof {
            lemma_extends(start, mid, out@, seq![t], seq![u], *p);
            assert(seq![t] + seq![u] =~= all);
        }
    }
    None
}

/// Plans a package's library or proc macro, for the target or for the host.
#[verifier::rlimit(30)]
fn plan_crates(p: &Planner<'_>, i: usize, host: bool, out: &mut Vec<Unit>) -> (r: Option<PlanError>)
    requires
        i < p.model.packages@.len(),
    ensures
        match r {
            None => extends(old(out)@, final(out)@, crate_targets(*p.model, i as int, host), *p),
            Some(e) => failing(*p, crate_targets(*p.model, i as int, host), e@),
        },
{
    let ghost m = *p.model;
    let ghost start = out@;
    let ghost all = crate_targets(m, i as int, host);
    let package = &p.model.packages[i];
    let name = label(p.model, i);
    proof {
        lemma_extends_none(start, *p);
    }
    if let Some(lib) = &package.lib {
        let lib_name = lib_crate_name(package);
        let needs = Needs { own: false, normal: true, build: false, dev: false };
        if lib.proc_macro && !host {
            assert(all =~= Seq::empty());
        } else if lib.proc_macro {
            let ghost t = Target::Macro(i as int);
            if let Some(e) = add_compile(
                p,
                out,
                cat("rust:proc-macro:", name.as_str()),
                "RustProcMacro",
                i,
                lib_name,
                "proc-macro",
                None,
                needs,
                true,
                lib.path.as_str(),
                Role::Library,
                true,
                true,
                Ghost(t),
            ) {
                proof {
                    lemma_failing(*p, Seq::empty(), seq![t], Seq::empty(), e@);
                    assert(Seq::empty() + seq![t] + Seq::empty() =~= all);
                }
                return Some(e);
            }
            proof {
                assert(seq![t] =~= all);
            }
        } else {
            let mut types: Vec<CrateType> = Vec::new();
            if lib.crate_types.len() == 0 {
                types.push(CrateType::Rlib);
            } else {
                let mut n: usize = 0;
                while n < lib.crate_types.len()
                    invariant
                        n <= lib.crate_types@.len(),
                        types@ == lib.crate_types@.take(n as int),
                    decreases lib.crate_types@.len() - n,
                {
                    types.push(lib.crate_types[n]);
                    n += 1;
                    assert(types@ =~= lib.crate_types@.take(n as int));
                }
            }
            assert(types@ =~= types_of(lib.crate_types@));
            let ghost libs = types@.map_values(|t: CrateType| Target::Lib(i as int, t, host));
            assert(libs =~= all);
            let mut n: usize = 0;
            assert(libs.take(0) =~= Seq::empty());
            while n < types.len()
                invariant
                    n <= types@.len(),
                    m == *p.model,
                    i < m.packages@.len(),
                    *package == m.packages@[i as int],
                    package.lib == Some(*lib),
                    !lib.proc_macro,
                    name@ == label_of(m, i as int),
                    lib_name@ == lib_crate_text(m.packages@[i as int]),
                    needs == (Needs { own: false, normal: true, build: false, dev: false }),
                    libs == types@.map_values(|t: CrateType| Target::Lib(i as int, t, host)),
                    all == libs,
                    all == crate_targets(m, i as int, host),
                    extends(start, out@, libs.take(n as int), *p),
                decreases types@.len() - n,
            {
                let crate_type = types[n];
                let ghost t = Target::Lib(i as int, crate_type, host);
                let ghost before = out@;
                assert(libs[n as int] == t);
                if let Some(e) = add_compile(
                    p,
                    out,
                    cat5("rust:lib:", name.as_str(), ":", crate_type.to_rustc(), side(host)),
                    "RustLibrary",
                    i,
                    lib_name.clone(),
                    crate_type.to_rustc(),
                    None,
                    needs,
                    true,
                    lib.path.as_str(),
                    Role::Library,
                    host,
                    host,
                    Ghost(t),
                ) {
                    proof {
                        lemma_extends_sound(start, before, libs.take(n as int), *p);
                        lemma_failing(
                            *p,
                            libs.take(n as int),
                            seq![t],
                            libs.skip(n as int + 1),
                            e@,
                        );
                        assert(libs.take(n as int) + seq![t] + libs.skip(n as int + 1)
                            =~= all);
                    }
                    return Some(e);
                }
                proof {
                    lemma_extends(
                        start,
                        before,
                        out@,
                        libs.take(n as int),
                        seq![t],
                        *p,
                    );
                    assert(libs.take(n as int) + seq![t] =~= libs.take(n as int + 1));
                }
                n += 1;
            }
            assert(libs.take(libs.len() as int) =~= libs);
        }
    } else {
        assert(all =~= Seq::empty());
    }
    None
}

/// Plans a package's build script, library, and proc macro, for the target or for
/// the host.
fn plan_side(p: &Planner<'_>, i: usize, host: bool, out: &mut Vec<Unit>) -> (r: Option<PlanError>)
    requires
        i < p.model.packages@.len(),
    ensures
        match r {
            None => extends(old(out)@, final(out)@, side_targets(*p.model, i as int, host), *p),
            Some(e) => failing(*p, side_targets(*p.model, i as int, host), e@),
        },
{
    let ghost m = *p.model;
    let ghost start = out@;
    let ghost all = side_targets(m, i as int, host);
    let ghost scripts = script_targets(m, i as int, host);
    let ghost crates = crate_targets(m, i as int, host);
    if let Some(e) = plan_script(p, i, host, out) {
        proof {
            lemma_failing(*p, Seq::empty(), scripts, crates, e@);
            assert(Seq::empty() + scripts + crates =~= all);
        }
        return Some(e);
    }
    let ghost mid = out@;
    if let Some(e) = plan_crates(p, i, host, out) {
        proof {
            lemma_extends_sound(start, mid, scripts, *p);
            lemma_failing(*p, scripts, crates, Seq::empty(), e@);
            assert(scripts + crates + Seq::empty() =~= all);
        }
        return Some(e);
    }
    proof {
        lemma_extends(start, mid, out@, scripts, crates, *p);
    }
    None
}

/// Plans a package's library targets; those for the host where it has any.
fn plan_package_library(p: &Planner<'_>, i: usize, host_side: bool, out: &mut Vec<Unit>) -> (r: Option<
    PlanError,
>)
    requires
        i < p.model.packages@.len(),
        host_side == hosted(*p, i as int),
    ensures
        match r {
            None => extends(old(out)@, final(out)@, lib_targets(*p, i as int), *p),
            Some(e) => failing(*p, lib_targets(*p, i as int), e@),
        },
{
    let ghost start = out@;
    let ghost all = lib_targets(*p, i as int);
    let ghost target = side_targets(*p.model, i as int, false);
    let ghost host = side_targets(*p.model, i as int, true);
    if let Some(e) = plan_side(p, i, false, out) {
        proof {
            let rest = all.skip(target.len() as int);
            lemma_failing(*p, Seq::empty(), target, rest, e@);
            assert(Seq::empty() + target + rest =~= all);
        }
        return Some(e);
    }
    let ghost mid = out@;
    if host_side {
        if let Some(e) = plan_side(p, i, true, out) {
            proof {
                lemma_extends_sound(start, mid, target, *p);
                lemma_failing(*p, target, host, Seq::empty(), e@);
                assert(target + host + Seq::empty() =~= all);
            }
            return Some(e);
        }
        proof {
            lemma_extends(start, mid, out@, target, host, *p);
            assert(target + host =~= all);
        }
    } else {
        assert(target =~= all);
    }
    None
}

/// Marks the packages that have units for the execution host.
fn mark_hosted(p: &Planner<'_>) -> (r: Vec<bool>)
    ensures
        r@.len() == p.model.packages@.len(),
        forall|j: int| 0 <= j < r@.len() ==> (#[trigger] r@[j] <==> hosted(*p, j)),
{
    let model = p.model;
    let ghost m = *model;
    let n = model.packages.len();
    let mut roots: Vec<usize> = Vec::new();
    let mut i: usize = 0;
    while i < n
        invariant
            i <= n,
            n == m.packages@.len(),
            m == *model,
            forall|x: int| 0 <= x < roots@.len() ==> #[trigger] roots@[x] < n,
            forall|j: int|
                positions(roots@).contains(j) <==> #[trigger] root_upto(m, j, i as int, 0),
        decreases n - i,
    {
        let package = &model.packages[i];
        let is_macro = match &package.lib {
            Some(lib) => lib.proc_macro,
            None => false,
        };
        let ghost before = positions(roots@);
        let mut k: usize = 0;
        if is_macro {
            roots.push(i);
            assert(positions(roots@) =~= before.push(i as int));
        }
        proof {
            assert forall|j: int| positions(roots@).contains(j) <==> #[trigger] root_within(
                m,
                j,
                i as int,
                0,
            ) by {
                assert(before.contains(j) <==> root_upto(m, j, i as int, 0));
                if is_macro {
                    lemma_push_contains(before, i as int, j);
                }
            }
        }
        if package.build_script.is_some() {
            while k < package.build_deps.len()
                invariant
                    k <= package.build_deps@.len(),
                    i < n,
                    n == m.packages@.len(),
                    m == *model,
                    *package == m.packages@[i as int],
                    package.build_script is Some,
                    forall|x: int| 0 <= x < roots@.len() ==> #[trigger] roots@[x] < n,
                    forall|j: int|
                        positions(roots@).contains(j) <==> #[trigger] root_within(
                            m,
                            j,
                            i as int,
                            k as int,
                        ),
                decreases package.build_deps@.len() - k,
            {
                let dep = &package.build_deps[k];
                let ghost prior = positions(roots@);
                let mut found: Option<usize> = None;
                if is_enabled(model, i, dep) && !is_native(model, dep.package.name.as_str()) {
                    found = position_of_package(&model.packages, &dep.package);
                }
                if let Some(j) = found {
                    roots.push(j);
                    assert(positions(roots@) =~= prior.push(j as int));
                }
                proof {
                    let d = m.packages@[i as int].build_deps@[k as int];
                    assert(d == *dep);
                    assert forall|j: int| positions(roots@).contains(j)
                        <==> #[trigger] root_within(m, j, i as int, k as int + 1) by {
                        assert(prior.contains(j) <==> root_within(m, j, i as int, k as int));
                        if let Some(f) = found {
                            lemma_push_contains(prior, f as int, j);
                        }
                        lemma_root_step(m, j, i as int, k as int);
                    }
                }
                k += 1;
            }
        }
        proof {
            assert forall|j: int| positions(roots@).contains(j) <==> #[trigger] root_upto(
                m,
                j,
                i as int + 1,
                0,
            ) by {
                assert(positions(roots@).contains(j) <==> root_within(m, j, i as int, k as int));
                lemma_root_next(m, j, i as int, k as int);
            }
        }
        i += 1;
    }
    proof {
        let given = Set::new(
            |x: int| exists|k: int| 0 <= k < roots@.len() && #[trigger] roots@[k] == x,
        );
        let want = Set::new(|x: int| host_root(m, x));
        assert forall|x: int| given.contains(x) <==> want.contains(x) by {
            assert(positions(roots@).contains(x) <==> root_upto(m, x, n as int, 0));
            lemma_root_all(m, x);
            if given.contains(x) {
                let k = choose|k: int| 0 <= k < roots@.len() && #[trigger] roots@[k] == x;
                assert(positions(roots@)[k] == x);
            }
            if positions(roots@).contains(x) {
                let k = choose|k: int| 0 <= k < positions(roots@).len() && positions(roots@)[k] == x;
                assert(roots@[k] == x);
            }
        }
        assert(given =~= want);
        reveal(hosted);
    }
    mark_reached(model, p.disk, p.toolchain.host_triple.as_str(), Walk::Builds, &roots)
}

/// Whether a package is a root because of the packages before `n`, or of the first
/// `k` build edges of the one at `n`.
spec fn root_upto(m: RustModel, j: int, n: int, k: int) -> bool {
    ||| 0 <= j < n && m.packages@[j].lib is Some && m.packages@[j].lib->0.proc_macro
    ||| exists|i: int, x: int|
        #![trigger m.packages@[i].build_deps@[x]]
        0 <= i <= n && 0 <= x && (i < n && x < m.packages@[i].build_deps@.len() || i == n && x < k)
            && host_edge(m, i, m.packages@[i].build_deps@[x]) && find(
            m.packages@,
            m.packages@[i].build_deps@[x].package@,
        ) == Some(j)
}

/// As `root_upto`, with the package at `n` itself.
spec fn root_within(m: RustModel, j: int, n: int, k: int) -> bool {
    root_upto(m, j, n, k) || (j == n && m.packages@[j].lib is Some
        && m.packages@[j].lib->0.proc_macro)
}

proof fn lemma_push_contains(s: Seq<int>, y: int, x: int)
    ensures
        s.push(y).contains(x) <==> s.contains(x) || x == y,
{
    if s.contains(x) {
        let k = choose|k: int| 0 <= k < s.len() && s[k] == x;
        assert(s.push(y)[k] == x);
    }
    assert(s.push(y)[s.len() as int] == y);
    if s.push(y).contains(x) {
        let k = choose|k: int| 0 <= k < s.push(y).len() && s.push(y)[k] == x;
        if k < s.len() {
            assert(s[k] == x);
        }
    }
}

proof fn lemma_root_step(m: RustModel, j: int, i: int, k: int)
    requires
        0 <= i < m.packages@.len(),
        0 <= k < m.packages@[i].build_deps@.len(),
    ensures
        root_within(m, j, i, k + 1) <==> root_within(m, j, i, k) || (host_edge(
            m,
            i,
            m.packages@[i].build_deps@[k],
        ) && find(m.packages@, m.packages@[i].build_deps@[k].package@) == Some(j)),
{
    if root_upto(m, j, i, k + 1) && !(0 <= j < i && m.packages@[j].lib is Some
        && m.packages@[j].lib->0.proc_macro) {
        let (a, x) = choose|a: int, x: int|
            #![trigger m.packages@[a].build_deps@[x]]
            0 <= a <= i && 0 <= x && (a < i && x < m.packages@[a].build_deps@.len() || a == i && x
                < k + 1) && host_edge(m, a, m.packages@[a].build_deps@[x]) && find(
                m.packages@,
                m.packages@[a].build_deps@[x].package@,
            ) == Some(j);
        if !(a == i && x == k) {
            assert(root_upto(m, j, i, k)) by {
                assert(host_edge(m, a, m.packages@[a].build_deps@[x]));
            }
        }
    }
    if root_upto(m, j, i, k) && !(0 <= j < i && m.packages@[j].lib is Some
        && m.packages@[j].lib->0.proc_macro) {
        let (a, x) = choose|a: int, x: int|
            #![trigger m.packages@[a].build_deps@[x]]
            0 <= a <= i && 0 <= x && (a < i && x < m.packages@[a].build_deps@.len() || a == i && x
                < k) && host_edge(m, a, m.packages@[a].build_deps@[x]) && find(
                m.packages@,
                m.packages@[a].build_deps@[x].package@,
            ) == Some(j);
        assert(host_edge(m, a, m.packages@[a].build_deps@[x]));
    }
    if host_edge(m, i, m.packages@[i].build_deps@[k]) && find(
        m.packages@,
        m.packages@[i].build_deps@[k].package@,
    ) == Some(j) {
        assert(root_upto(m, j, i, k + 1));
    }
}

proof fn lemma_root_next(m: RustModel, j: int, i: int, k: int)
    requires
        0 <= i < m.packages@.len(),
        k == m.packages@[i].build_deps@.len() || (k == 0 && m.packages@[i].build_script is None),
    ensures
        root_upto(m, j, i + 1, 0) <==> root_within(m, j, i, k),
{
    if root_upto(m, j, i + 1, 0) && !(0 <= j < i + 1 && m.packages@[j].lib is Some
        && m.packages@[j].lib->0.proc_macro) {
        let (a, x) = choose|a: int, x: int|
            #![trigger m.packages@[a].build_deps@[x]]
            0 <= a <= i + 1 && 0 <= x && (a < i + 1 && x < m.packages@[a].build_deps@.len() || a
                == i + 1 && x < 0) && host_edge(m, a, m.packages@[a].build_deps@[x]) && find(
                m.packages@,
                m.packages@[a].build_deps@[x].package@,
            ) == Some(j);
        assert(root_upto(m, j, i, k)) by {
            assert(host_edge(m, a, m.packages@[a].build_deps@[x]));
        }
    }
    if root_upto(m, j, i, k) && !(0 <= j < i && m.packages@[j].lib is Some
        && m.packages@[j].lib->0.proc_macro) {
        let (a, x) = choose|a: int, x: int|
            #![trigger m.packages@[a].build_deps@[x]]
            0 <= a <= i && 0 <= x && (a < i && x < m.packages@[a].build_deps@.len() || a == i && x
                < k) && host_edge(m, a, m.packages@[a].build_deps@[x]) && find(
                m.packages@,
                m.packages@[a].build_deps@[x].package@,
            ) == Some(j);
        assert(host_edge(m, a, m.packages@[a].build_deps@[x]));
    }
}

proof fn lemma_root_all(m: RustModel, j: int)
    ensures
        root_upto(m, j, m.packages@.len() as int, 0) <==> host_root(m, j),
{
    let n = m.packages@.len() as int;
    let by_macro = 0 <= j < n && m.packages@[j].lib is Some && m.packages@[j].lib->0.proc_macro;
    if host_root(m, j) && !by_macro {
        let (i, k) = choose|i: int, k: int|
            #![trigger m.packages@[i].build_deps@[k]]
            0 <= i < m.packages@.len() && 0 <= k < m.packages@[i].build_deps@.len() && host_edge(
                m,
                i,
                m.packages@[i].build_deps@[k],
            ) && find(m.packages@, m.packages@[i].build_deps@[k].package@) == Some(j);
        assert(host_edge(m, i, m.packages@[i].build_deps@[k]));
    }
    if root_upto(m, j, n, 0) && !by_macro {
        let (i, k) = choose|i: int, k: int|
            #![trigger m.packages@[i].build_deps@[k]]
            0 <= i <= n && 0 <= k && (i < n && k < m.packages@[i].build_deps@.len() || i == n && k
                < 0) && host_edge(m, i, m.packages@[i].build_deps@[k]) && find(
                m.packages@,
                m.packages@[i].build_deps@[k].package@,
            ) == Some(j);
        assert(host_edge(m, i, m.packages@[i].build_deps@[k]));
    }
}

/// Whether every one of these features is on.
pub(crate) fn has_features(model: &RustModel, i: usize, required: &Vec<String>) -> (r: bool)
    requires
        i < model.packages@.len(),
    ensures
        r == features_met(*model, i as int, texts(required@)),
{
    let on = model.feature_map.features_for(&model.packages[i].id, false);
    let ghost all = texts(required@);
    let mut k: usize = 0;
    while k < required.len()
        invariant
            k <= required@.len(),
            i < model.packages@.len(),
            all == texts(required@),
            on@ == model.feature_map.features_of(model.packages@[i as int].id@, false),
            forall|x: int| 0 <= x < k ==> on@.contains(#[trigger] all[x]),
        decreases required@.len() - k,
    {
        assert(all[k as int] == required@[k as int]@);
        if !on.contains(required[k].as_str()) {
            return false;
        }
        k += 1;
    }
    true
}

/// Plans a package's binaries; each depends on the package's own library (when
/// present) plus declared deps.
fn plan_package_bins(p: &Planner<'_>, i: usize, out: &mut Vec<Unit>) -> (r: Option<PlanError>)
    requires
        i < p.model.packages@.len(),
    ensures
        match r {
            None => extends(
                old(out)@,
                final(out)@,
                bin_targets(
                    *p.model,
                    i as int,
                    p.model.packages@[i as int].bins@.len() as int,
                ),
                *p,
            ),
            Some(e) => failing(
                *p,
                bin_targets(
                    *p.model,
                    i as int,
                    p.model.packages@[i as int].bins@.len() as int,
                ),
                e@,
            ),
        },
{
    let ghost m = *p.model;
    let ghost start = out@;
    let package = &p.model.packages[i];
    let name = label(p.model, i);
    let mut k: usize = 0;
    proof {
        lemma_extends_none(start, *p);
    }
    while k < package.bins.len()
        invariant
            k <= package.bins@.len(),
            m == *p.model,
            i < m.packages@.len(),
            *package == m.packages@[i as int],
            name@ == label_of(m, i as int),
            extends(start, out@, bin_targets(m, i as int, k as int), *p),
        decreases package.bins@.len() - k,
    {
        let bin = &package.bins[k];
        if has_features(p.model, i, &bin.required_features) {
            let ghost t = Target::Bin(i as int, k as int);
            let ghost before = out@;
            if let Some(e) = add_compile(
                p,
                out,
                cat4("rust:bin:", name.as_str(), ":", bin.name.as_str()),
                "RustBinary",
                i,
                crate_name(bin.name.as_str()),
                "bin",
                Some(bin.name.clone()),
                Needs { own: true, normal: true, build: false, dev: false },
                true,
                bin.path.as_str(),
                Role::Bin,
                false,
                false,
                Ghost(t),
            ) {
                proof {
                    let b = bin_targets(m, i as int, k as int);
                    lemma_extends_sound(start, before, b, *p);
                    lemma_failing(*p, b, seq![t], Seq::empty(), e@);
                    assert(b + seq![t] + Seq::empty() =~= bin_targets(
                        m,
                        i as int,
                        k as int + 1,
                    ));
                    lemma_bins_grow(*p, i as int, k as int + 1, package.bins@.len() as int, e@);
                }
                return Some(e);
            }
            proof {
                let b = bin_targets(m, i as int, k as int);
                lemma_extends(start, before, out@, b, seq![t], *p);
                assert(b + seq![t] =~= bin_targets(m, i as int, k as int + 1));
            }
        }
        k += 1;
    }
    None
}

proof fn lemma_bins_grow(p: Planner<'_>, i: int, a: int, b: int, fault: PlanFault)
    requires
        0 <= a <= b,
        failing(p, bin_targets(*p.model, i, a), fault),
    ensures
        failing(p, bin_targets(*p.model, i, b), fault),
    decreases b,
{
    if a < b {
        lemma_bins_grow(p, i, a, b - 1, fault);
        let before = bin_targets(*p.model, i, b - 1);
        let t = seq![Target::Bin(i, b - 1)];
        lemma_failing(p, Seq::empty(), before, t, fault);
        assert(Seq::empty() + before + t =~= before.push(Target::Bin(i, b - 1)));
    }
}

/// Plans a package's examples.
fn plan_package_examples(p: &Planner<'_>, i: usize, out: &mut Vec<Unit>) -> (r: Option<PlanError>)
    requires
        i < p.model.packages@.len(),
    ensures
        match r {
            None => extends(
                old(out)@,
                final(out)@,
                example_targets(
                    *p.model,
                    i as int,
                    p.model.packages@[i as int].examples@.len() as int,
                ),
                *p,
            ),
            Some(e) => failing(
                *p,
                example_targets(
                    *p.model,
                    i as int,
                    p.model.packages@[i as int].examples@.len() as int,
                ),
                e@,
            ),
        },
{
    let ghost m = *p.model;
    let ghost start = out@;
    let package = &p.model.packages[i];
    let name = label(p.model, i);
    let mut k: usize = 0;
    proof {
        lemma_extends_none(start, *p);
    }
    while k < package.examples.len()
        invariant
            k <= package.examples@.len(),
            m == *p.model,
            i < m.packages@.len(),
            *package == m.packages@[i as int],
            name@ == label_of(m, i as int),
            extends(start, out@, example_targets(m, i as int, k as int), *p),
        decreases package.examples@.len() - k,
    {
        let example = &package.examples[k];
        if has_features(p.model, i, &example.required_features) {
            let ghost t = Target::Example(i as int, k as int);
            let ghost before = out@;
            if let Some(e) = add_compile(
                p,
                out,
                cat4("rust:example:", name.as_str(), ":", example.name.as_str()),
                "RustExample",
                i,
                crate_name(example.name.as_str()),
                "bin",
                Some(example.name.clone()),
                Needs { own: true, normal: true, build: false, dev: true },
                true,
                example.path.as_str(),
                Role::Example,
                false,
                false,
                Ghost(t),
            ) {
                proof {
                    let b = example_targets(m, i as int, k as int);
                    lemma_extends_sound(start, before, b, *p);
                    lemma_failing(*p, b, seq![t], Seq::empty(), e@);
                    assert(b + seq![t] + Seq::empty() =~= example_targets(
                        m,
                        i as int,
                        k as int + 1,
                    ));
                    lemma_examples_grow(
                        *p,
                        i as int,
                        k as int + 1,
                        package.examples@.len() as int,
                        e@,
                    );
                }
                return Some(e);
            }
            proof {
                let b = example_targets(m, i as int, k as int);
                lemma_extends(start, before, out@, b, seq![t], *p);
                assert(b + seq![t] =~= example_targets(m, i as int, k as int + 1));
            }
        }
        k += 1;
    }
    None
}

proof fn lemma_examples_grow(p: Planner<'_>, i: int, a: int, b: int, fault: PlanFault)
    requires
        0 <= a <= b,
        failing(p, example_targets(*p.model, i, a), fault),
    ensures
        failing(p, example_targets(*p.model, i, b), fault),
    decreases b,
{
    if a < b {
        lemma_examples_grow(p, i, a, b - 1, fault);
        let before = example_targets(*p.model, i, b - 1);
        let t = seq![Target::Example(i, b - 1)];
        lemma_failing(p, Seq::empty(), before, t, fault);
        assert(Seq::empty() + before + t =~= before.push(Target::Example(i, b - 1)));
    }
}

/// What tells a test of a package apart.
fn name_test(model: &RustModel, i: usize, k: usize) -> (r: String)
    requires
        i < model.packages@.len(),
        k < model.packages@[i as int].tests@.len(),
    ensures
        r@ == test_label(*model, i as int, k as int),
{
    let package = &model.packages[i];
    let test = &package.tests[k];
    let mut kind = "test";
    if test.bench {
        kind = "bench";
    } else if let Some(lib) = &package.lib {
        if same(lib.path.as_str(), test.path.as_str()) {
            kind = "lib";
        }
    }
    let mut out = cat4(label(model, i).as_str(), ":", kind, ":");
    out.append(test.name.as_str());
    out
}

fn role_of_test(package: &Package, k: usize) -> (r: Role)
    requires
        k < package.tests@.len(),
    ensures
        r == test_role(*package, k as int),
{
    let test = &package.tests[k];
    if !test.bench {
        if let Some(lib) = &package.lib {
            if same(lib.path.as_str(), test.path.as_str()) {
                return Role::UnitTest;
            }
        }
    }
    Role::Test
}

/// Plans a package's test targets: one compilation per target (deps, dev-deps
/// and the package's own lib) and one run of the test binary.
fn plan_package_tests(p: &Planner<'_>, i: usize, out: &mut Vec<Unit>) -> (r: Option<PlanError>)
    requires
        i < p.model.packages@.len(),
    ensures
        match r {
            None => extends(
                old(out)@,
                final(out)@,
                test_targets(
                    *p.model,
                    i as int,
                    p.model.packages@[i as int].tests@.len() as int,
                ),
                *p,
            ),
            Some(e) => failing(
                *p,
                test_targets(
                    *p.model,
                    i as int,
                    p.model.packages@[i as int].tests@.len() as int,
                ),
                e@,
            ),
        },
{
    let ghost m = *p.model;
    let ghost start = out@;
    let package = &p.model.packages[i];
    let mut k: usize = 0;
    proof {
        lemma_extends_none(start, *p);
    }
    while k < package.tests.len()
        invariant
            k <= package.tests@.len(),
            m == *p.model,
            i < m.packages@.len(),
            *package == m.packages@[i as int],
            extends(start, out@, test_targets(m, i as int, k as int), *p),
        decreases package.tests@.len() - k,
    {
        let test = &package.tests[k];
        if has_features(p.model, i, &test.required_features) {
            let ghost t = Target::TestCompile(i as int, k as int);
            let ghost u = Target::TestRun(i as int, k as int);
            let ghost before = out@;
            let name = name_test(p.model, i, k);
            let compile_id = cat("rust:test-compile:", name.as_str());
            let crate_type = if test.harness {
                "test"
            } else {
                "bin"
            };
            let role = role_of_test(package, k);
            if let Some(e) = add_compile(
                p,
                out,
                compile_id.clone(),
                "RustTestCompile",
                i,
                crate_name(test.name.as_str()),
                crate_type,
                Some(test.name.clone()),
                Needs { own: true, normal: true, build: false, dev: true },
                true,
                test.path.as_str(),
                role,
                false,
                false,
                Ghost(t),
            ) {
                proof {
                    let b = test_targets(m, i as int, k as int);
                    lemma_extends_sound(start, before, b, *p);
                    lemma_failing(*p, b, seq![t], seq![u], e@);
                    assert(b + seq![t] + seq![u] =~= test_targets(m, i as int, k as int + 1));
                    lemma_tests_grow(*p, i as int, k as int + 1, package.tests@.len() as int, e@);
                }
                return Some(e);
            }
            let ghost mid = out@;
            let unit = Unit {
                id: cat("rust:test-run:", name.as_str()),
                mnemonic: owned("RustTestRun"),
                package: i,
                external: pkg_external(p.model, i),
                kind: UnitKind::TestRun(
                    TestRun {
                        compile: compile_id,
                        binary: test.name.clone(),
                        harness: test.harness,
                        args: copy_texts(p.test_args),
                        cached: test.cache_test_result,
                        bins: list_found_bins(p.model, i, role),
                    },
                ),
            };
            add_unit(p, out, unit, Ghost(u));
            proof {
                let b = test_targets(m, i as int, k as int);
                lemma_extends(start, before, mid, b, seq![t], *p);
                lemma_extends(start, mid, out@, b + seq![t], seq![u], *p);
                assert(b + seq![t] + seq![u] =~= test_targets(m, i as int, k as int + 1));
            }
        }
        k += 1;
    }
    None
}

proof fn lemma_tests_grow(p: Planner<'_>, i: int, a: int, b: int, fault: PlanFault)
    requires
        0 <= a <= b,
        failing(p, test_targets(*p.model, i, a), fault),
    ensures
        failing(p, test_targets(*p.model, i, b), fault),
    decreases b,
{
    if a < b {
        lemma_tests_grow(p, i, a, b - 1, fault);
        let before = test_targets(*p.model, i, b - 1);
        let t = seq![Target::TestCompile(i, b - 1), Target::TestRun(i, b - 1)];
        lemma_failing(p, Seq::empty(), before, t, fault);
        assert(Seq::empty() + before + t =~= before.push(Target::TestCompile(i, b - 1)).push(
            Target::TestRun(i, b - 1),
        ));
    }
}

proof fn lemma_libs_grow(p: Planner<'_>, a: int, b: int, fault: PlanFault)
    requires
        0 <= a <= b,
        failing(p, all_libs(p, a), fault),
    ensures
        failing(p, all_libs(p, b), fault),
    decreases b,
{
    if a < b {
        lemma_libs_grow(p, a, b - 1, fault);
        let before = all_libs(p, b - 1);
        let more = lib_targets(p, b - 1);
        lemma_failing(p, Seq::empty(), before, more, fault);
        assert(Seq::empty() + before + more =~= before + more);
    }
}

proof fn lemma_all_bins_grow(p: Planner<'_>, a: int, b: int, fault: PlanFault)
    requires
        0 <= a <= b,
        failing(p, all_bins(*p.model, a), fault),
    ensures
        failing(p, all_bins(*p.model, b), fault),
    decreases b,
{
    if a < b {
        lemma_all_bins_grow(p, a, b - 1, fault);
        let before = all_bins(*p.model, b - 1);
        let more = bin_targets(*p.model, b - 1, p.model.packages@[b - 1].bins@.len() as int);
        lemma_failing(p, Seq::empty(), before, more, fault);
        assert(Seq::empty() + before + more =~= before + more);
    }
}

proof fn lemma_all_tests_grow(p: Planner<'_>, a: int, b: int, fault: PlanFault)
    requires
        0 <= a <= b,
        failing(p, all_tests(*p.model, a), fault),
    ensures
        failing(p, all_tests(*p.model, b), fault),
    decreases b,
{
    if a < b {
        lemma_all_tests_grow(p, a, b - 1, fault);
        let m = *p.model;
        let before = all_tests(m, b - 1);
        let more = example_targets(m, b - 1, m.packages@[b - 1].examples@.len() as int)
            + test_targets(m, b - 1, m.packages@[b - 1].tests@.len() as int);
        lemma_failing(p, Seq::empty(), before, more, fault);
        assert(Seq::empty() + before + more =~= all_tests(m, b));
    }
}

/// Produces the units of the build, in order: libraries, proc macros and build
/// scripts, then binaries, then examples and tests.
#[verifier::rlimit(30)]
pub fn plan(p: &Planner<'_>) -> (r: Result<Vec<Unit>, PlanError>)
    ensures
        match r {
            Ok(units) => {
                &&& units@.len() == all_targets(*p).len()
                &&& forall|k: int|
                    0 <= k < units@.len() ==> unit_is(
                        units@[k],
                        *p,
                        #[trigger] all_targets(*p)[k],
                    )
                &&& forall|fault: PlanFault| !#[trigger] failing(*p, all_targets(*p), fault)
            },
            Err(e) => failing(*p, all_targets(*p), e@),
        },
{
    let ghost m = *p.model;
    let n: usize = p.model.packages.len();
    let ghost libs = all_libs(*p, n as int);
    let ghost bins = all_bins(m, n as int);
    let ghost tests = if p.tests_enabled {
        all_tests(m, n as int)
    } else {
        Seq::empty()
    };
    let ghost all = all_targets(*p);
    let mut out: Vec<Unit> = Vec::new();
    let ghost none = out@;
    proof {
        lemma_extends_none(none, *p);
        assert(all == libs + bins + tests);
    }
    let host_side = mark_hosted(p);
    let mut i: usize = 0;
    while i < n
        invariant
            i <= n,
            m == *p.model,
            n == m.packages@.len(),
            host_side@.len() == n,
            forall|j: int| 0 <= j < n ==> (#[trigger] host_side@[j] <==> hosted(*p, j)),
            libs == all_libs(*p, n as int),
            all == all_targets(*p),
            all == libs + bins + tests,
            extends(none, out@, all_libs(*p, i as int), *p),
        decreases n - i,
    {
        let ghost before = out@;
        if let Some(e) = plan_package_library(p, i, host_side[i], &mut out) {
            proof {
                let b = all_libs(*p, i as int);
                lemma_extends_sound(none, before, b, *p);
                lemma_failing(*p, b, lib_targets(*p, i as int), Seq::empty(), e@);
                assert(b + lib_targets(*p, i as int) + Seq::empty() =~= all_libs(*p, i as int + 1));
                lemma_libs_grow(*p, i as int + 1, n as int, e@);
                lemma_failing(*p, Seq::empty(), libs, bins + tests, e@);
                assert(Seq::empty() + libs + (bins + tests) =~= all);
            }
            return Err(e);
        }
        proof {
            lemma_extends(
                none,
                before,
                out@,
                all_libs(*p, i as int),
                lib_targets(*p, i as int),
                *p,
            );
        }
        i += 1;
    }
    let ghost after_libs = out@;
    proof {
        lemma_extends_none(after_libs, *p);
    }
    i = 0;
    while i < n
        invariant
            i <= n,
            m == *p.model,
            n == m.packages@.len(),
            bins == all_bins(m, n as int),
            all == all_targets(*p),
            all == libs + bins + tests,
            extends(none, after_libs, libs, *p),
            extends(after_libs, out@, all_bins(m, i as int), *p),
        decreases n - i,
    {
        let ghost before = out@;
        let ghost mine = bin_targets(m, i as int, m.packages@[i as int].bins@.len() as int);
        if let Some(e) = plan_package_bins(p, i, &mut out) {
            proof {
                let b = all_bins(m, i as int);
                lemma_extends_sound(after_libs, before, b, *p);
                lemma_extends_sound(none, after_libs, libs, *p);
                lemma_failing(*p, b, mine, Seq::empty(), e@);
                assert(b + mine + Seq::empty() =~= all_bins(m, i as int + 1));
                lemma_all_bins_grow(*p, i as int + 1, n as int, e@);
                lemma_failing(*p, libs, bins, tests, e@);
            }
            return Err(e);
        }
        proof {
            lemma_extends(after_libs, before, out@, all_bins(m, i as int), mine, *p);
        }
        i += 1;
    }
    let ghost after_bins = out@;
    proof {
        lemma_extends(none, after_libs, after_bins, libs, bins, *p);
        lemma_extends_none(after_bins, *p);
    }
    if p.tests_enabled {
        i = 0;
        while i < n
            invariant
                i <= n,
                m == *p.model,
                n == m.packages@.len(),
                p.tests_enabled,
                tests == all_tests(m, n as int),
                all == all_targets(*p),
                all == libs + bins + tests,
                extends(none, after_bins, libs + bins, *p),
                extends(after_bins, out@, all_tests(m, i as int), *p),
            decreases n - i,
        {
            let ghost before = out@;
            let ghost ex = example_targets(m, i as int, m.packages@[i as int].examples@.len() as int);
            let ghost te = test_targets(m, i as int, m.packages@[i as int].tests@.len() as int);
            let ghost b = all_tests(m, i as int);
            if let Some(e) = plan_package_examples(p, i, &mut out) {
                proof {
                    lemma_extends_sound(after_bins, before, b, *p);
                    lemma_extends_sound(none, after_bins, libs + bins, *p);
                    lemma_failing(*p, b, ex, te, e@);
                    lemma_all_tests_grow(*p, i as int + 1, n as int, e@);
                    lemma_failing(*p, libs + bins, tests, Seq::empty(), e@);
                    assert(libs + bins + tests + Seq::empty() =~= all);
                }
                return Err(e);
            }
            let ghost mid = out@;
            if let Some(e) = plan_package_tests(p, i, &mut out) {
                proof {
                    lemma_extends(after_bins, before, mid, b, ex, *p);
                    lemma_extends_sound(after_bins, mid, b + ex, *p);
                    lemma_extends_sound(none, after_bins, libs + bins, *p);
                    lemma_failing(*p, b + ex, te, Seq::empty(), e@);
                    assert(b + ex + te + Seq::empty() =~= all_tests(m, i as int + 1));
                    lemma_all_tests_grow(*p, i as int + 1, n as int, e@);
                    lemma_failing(*p, libs + bins, tests, Seq::empty(), e@);
                    assert(libs + bins + tests + Seq::empty() =~= all);
                }
                return Err(e);
            }
            proof {
                lemma_extends(after_bins, before, mid, b, ex, *p);
                lemma_extends(after_bins, mid, out@, b + ex, te, *p);
            }
            i += 1;
        }
    }
    proof {
        lemma_extends(none, after_bins, out@, libs + bins, tests, *p);
        assert forall|k: int| 0 <= k < out@.len() implies unit_is(
            out@[k],
            *p,
            #[trigger] all[k],
        ) by {
            assert(none.len() + k == k);
        }
        lemma_extends_sound(none, out@, all, *p);
        assert forall|fault: PlanFault| !#[trigger] failing(*p, all, fault) by {
            if failing(*p, all, fault) {
                let k = choose|k: int| #[trigger]
                    first_faulty(*p, all, k) && compile_fault(
                        *p,
                        request_of(*p.model, all[k]),
                        fault,
                    );
                assert(sound(*p, all[k]));
            }
        }
    }
    Ok(out)
}

/// The units that have to complete before a unit can start.
pub open spec fn unit_deps(u: Unit) -> Set<Seq<char>> {
    match u.kind {
        UnitKind::Compile(c) => {
            let direct = Set::new(
                |id: Seq<char>|
                    exists|k: int|
                        0 <= k < c.deps@.len() && (#[trigger] c.deps@[k])@ is Rust
                            && c.deps@[k]@->action == id,
            );
            let all = direct.union(c.transitive@).union(second_ids(c.bins@));
            match c.build_script {
                Some(id) => all.insert(id@),
                None => all,
            }
        },
        UnitKind::ScriptRun(run) => Set::new(
            |id: Seq<char>|
                id == run.compile@ || exists|k: int|
                    0 <= k < run.links@.len() && (#[trigger] run.links@[k]).1@ == id,
        ),
        UnitKind::TestRun(run) => second_ids(run.bins@).insert(run.compile@),
    }
}

/// The units that pairs end in.
pub open spec fn second_ids(pairs: Seq<(String, String)>) -> Set<Seq<char>> {
    Set::new(
        |id: Seq<char>|
            exists|k: int| 0 <= k < pairs.len() && (#[trigger] pairs[k]).1@ == id,
    )
}

/// Adds the units that pairs end in.
fn add_second_ids(out: &mut StrSet, pairs: &Vec<(String, String)>)
    ensures
        final(out)@ == old(out)@.union(second_ids(pairs@)),
{
    let ghost start = out@;
    let mut k: usize = 0;
    assert(out@ =~= start.union(second_ids(pairs@.take(0))));
    while k < pairs.len()
        invariant
            k <= pairs@.len(),
            out@ == start.union(second_ids(pairs@.take(k as int))),
        decreases pairs@.len() - k,
    {
        out.insert(pairs[k].1.clone());
        proof {
            let (a, b) = (pairs@.take(k as int), pairs@.take(k as int + 1));
            assert forall|id: Seq<char>| second_ids(b).contains(id) <==> second_ids(a).contains(id)
                || id == pairs@[k as int].1@ by {
                if second_ids(a).contains(id) {
                    let x = choose|x: int| 0 <= x < a.len() && (#[trigger] a[x]).1@ == id;
                    assert(b[x] == a[x]);
                }
                if second_ids(b).contains(id) {
                    let x = choose|x: int| 0 <= x < b.len() && (#[trigger] b[x]).1@ == id;
                    if x < k {
                        assert(a[x] == b[x]);
                    }
                }
                assert(b[k as int] == pairs@[k as int]);
            }
            assert(out@ =~= start.union(second_ids(b)));
        }
        k += 1;
    }
    assert(pairs@.take(pairs@.len() as int) =~= pairs@);
}

impl Unit {
    /// The units that have to complete first, in ascending order.
    pub fn deps(&self) -> (r: Vec<String>)
        ensures
            ascending(texts(r@)),
            forall|id: Seq<char>| texts(r@).contains(id) <==> unit_deps(*self).contains(id),
    {
        let mut out = StrSet::new();
        match &self.kind {
            UnitKind::Compile(c) => {
                out = c.transitive.clone();
                let mut k: usize = 0;
                while k < c.deps.len()
                    invariant
                        k <= c.deps@.len(),
                        forall|id: Seq<char>| #[trigger]
                            out@.contains(id) <==> c.transitive@.contains(id) || exists|x: int|
                                0 <= x < k && (#[trigger] c.deps@[x])@ is Rust
                                    && c.deps@[x]@->action == id,
                    decreases c.deps@.len() - k,
                {
                    let ghost before = out@;
                    if let DepSpec::Rust { action, .. } = &c.deps[k] {
                        out.insert(action.clone());
                    }
                    proof {
                        assert forall|id: Seq<char>| #[trigger]
                            out@.contains(id) <==> c.transitive@.contains(id) || exists|x: int|
                            0 <= x < k + 1 && (#[trigger] c.deps@[x])@ is Rust
                                && c.deps@[x]@->action == id by {
                            if before.contains(id) && !c.transitive@.contains(id) {
                                let x = choose|x: int|
                                    0 <= x < k && (#[trigger] c.deps@[x])@ is Rust
                                        && c.deps@[x]@->action == id;
                                assert(0 <= x < k + 1 && c.deps@[x]@ is Rust);
                            }
                            if out@.contains(id) && !before.contains(id) {
                                assert(c.deps@[k as int]@ is Rust);
                            }
                        }
                    }
                    k += 1;
                }
                add_second_ids(&mut out, &c.bins);
                if let Some(id) = &c.build_script {
                    out.insert(id.clone());
                }
            },
            UnitKind::ScriptRun(run) => {
                out.insert(run.compile.clone());
                let mut k: usize = 0;
                while k < run.links.len()
                    invariant
                        k <= run.links@.len(),
                        forall|id: Seq<char>| #[trigger]
                            out@.contains(id) <==> id == run.compile@ || exists|x: int|
                                0 <= x < k && (#[trigger] run.links@[x]).1@ == id,
                    decreases run.links@.len() - k,
                {
                    let ghost before = out@;
                    out.insert(run.links[k].1.clone());
                    proof {
                        assert forall|id: Seq<char>| #[trigger]
                            out@.contains(id) <==> id == run.compile@ || exists|x: int|
                            0 <= x < k + 1 && (#[trigger] run.links@[x]).1@ == id by {
                            if before.contains(id) && id != run.compile@ {
                                let x = choose|x: int|
                                    0 <= x < k && (#[trigger] run.links@[x]).1@ == id;
                                assert(0 <= x < k + 1 && run.links@[x].1@ == id);
                            }
                            if out@.contains(id) && !before.contains(id) {
                                assert(run.links@[k as int].1@ == id);
                            }
                        }
                    }
                    k += 1;
                }
            },
            UnitKind::TestRun(run) => {
                add_second_ids(&mut out, &run.bins);
                out.insert(run.compile.clone());
            },
        }
        assert(out@ =~= unit_deps(*self));
        out.to_list()
    }
}

/// Whether a unit with this id is planned.
pub open spec fn planned_id(p: Planner<'_>, id: Seq<char>) -> bool {
    exists|k: int|
        0 <= k < all_targets(p).len() && target_id(*p.model, #[trigger] all_targets(p)[k]) == id
}

/// The id of a target's unit.
pub open spec fn target_id(m: RustModel, t: Target) -> Seq<char> {
    match t {
        Target::ScriptRun(i, host) => script_run_id(m, i, host),
        Target::TestRun(i, k) => "rust:test-run:"@ + test_label(m, i, k),
        _ => request_of(m, t).id,
    }
}

proof fn lemma_libs_hold(p: Planner<'_>, n: int, i: int, k: int)
    requires
        0 <= i < n,
        0 <= k < lib_targets(p, i).len(),
    ensures
        exists|x: int|
            0 <= x < all_libs(p, n).len() && #[trigger] all_libs(p, n)[x] == lib_targets(p, i)[k],
    decreases n,
{
    let before = all_libs(p, n - 1);
    let mine = lib_targets(p, n - 1);
    if i < n - 1 {
        lemma_libs_hold(p, n - 1, i, k);
        let x = choose|x: int|
            0 <= x < before.len() && #[trigger] before[x] == lib_targets(p, i)[k];
        assert(all_libs(p, n)[x] == before[x]);
    } else {
        assert(all_libs(p, n)[before.len() + k] == mine[k]);
    }
}

/// The library targets of a package are planned; those for the host where it has
/// any.
proof fn lemma_side_planned(p: Planner<'_>, i: int, host: bool, k: int)
    requires
        0 <= i < p.model.packages@.len(),
        host ==> hosted(p, i),
        0 <= k < side_targets(*p.model, i, host).len(),
    ensures
        planned_id(p, target_id(*p.model, side_targets(*p.model, i, host)[k])),
{
    let m = *p.model;
    let n = m.packages@.len() as int;
    let at = if host {
        side_targets(m, i, false).len() + k
    } else {
        k
    };
    assert(lib_targets(p, i)[at] == side_targets(m, i, host)[k]);
    lemma_libs_hold(p, n, i, at);
    let x = choose|x: int|
        0 <= x < all_libs(p, n).len() && #[trigger] all_libs(p, n)[x] == lib_targets(p, i)[at];
    assert(all_targets(p)[x] == all_libs(p, n)[x]);
}

proof fn lemma_script_planned(p: Planner<'_>, i: int, host: bool)
    requires
        0 <= i < p.model.packages@.len(),
        p.model.packages@[i].build_script is Some,
        host ==> hosted(p, i),
    ensures
        planned_id(p, script_run_id(*p.model, i, host)),
        planned_id(p, script_compile_id(*p.model, i, host)),
{
    assert(side_targets(*p.model, i, host)[0] == Target::ScriptCompile(i, host));
    assert(side_targets(*p.model, i, host)[1] == Target::ScriptRun(i, host));
    lemma_side_planned(p, i, host, 0);
    lemma_side_planned(p, i, host, 1);
}

/// What is a root has units for the host.
proof fn lemma_root_hosted(p: Planner<'_>, j: int)
    requires
        host_root(*p.model, j),
    ensures
        hosted(p, j),
{
    reveal(hosted);
    lemma_reach_root(
        *p.model,
        *p.disk,
        p.toolchain.host_triple@,
        Walk::Builds,
        Set::new(|x: int| host_root(*p.model, x)),
        j,
    );
}

/// The crate type that dependents link is one that the library is compiled as.
proof fn lemma_linked_type(declared: Seq<CrateType>) -> (k: int)
    ensures
        0 <= k < types_of(declared).len(),
        types_of(declared)[k] == crate::units::linked_type(declared),
{
    let types = types_of(declared);
    let t = crate::units::linked_type(declared);
    assert(types.contains(t)) by {
        match types[0] {
            CrateType::Rlib => assert(types.contains(CrateType::Rlib)),
            CrateType::Staticlib => assert(types.contains(CrateType::Staticlib)),
            CrateType::Cdylib => assert(types.contains(CrateType::Cdylib)),
            CrateType::Dylib => assert(types.contains(CrateType::Dylib)),
        }
    }
    choose|k: int| 0 <= k < types.len() && types[k] == t
}

#[verifier::rlimit(30)]
proof fn lemma_linked_planned(p: Planner<'_>, j: int, host: bool)
    requires
        0 <= j < p.model.packages@.len(),
        crate::units::linked_action(*p.model, j, host) is Some,
        host ==> hosted(p, j),
    ensures
        planned_id(p, crate::units::linked_action(*p.model, j, host)->0),
{
    let m = *p.model;
    let lib = m.packages@[j].lib->0;
    let script = if m.packages@[j].build_script is Some { 2int } else { 0 };
    if lib.proc_macro {
        lemma_root_hosted(p, j);
        assert(side_targets(m, j, true)[script] == Target::Macro(j));
        lemma_side_planned(p, j, true, script);
    } else {
        let t = crate::units::linked_type(lib.crate_types@);
        let k = lemma_linked_type(lib.crate_types@);
        assert(crate_targets(m, j, host)[k] == Target::Lib(j, t, host));
        assert(side_targets(m, j, host)[script + k] == Target::Lib(j, t, host));
        lemma_side_planned(p, j, host, script + k);
    }
}

/// Whether the live edges of a list lead to packages with units for the host.
spec fn edges_hosted(p: Planner<'_>, i: int, kind: EdgeKind) -> bool {
    forall|k: int, j: int|
        #![trigger dep_list(p.model.packages@[i], kind)[k], hosted(p, j)]
        0 <= k < dep_list(p.model.packages@[i], kind).len() && edge_live(
            *p.model,
            *p.disk,
            p.toolchain.host_triple@,
            i,
            dep_list(p.model.packages@[i], kind)[k],
        ) && !native(*p.model, dep_list(p.model.packages@[i], kind)[k].package.name@) && find(
            p.model.packages@,
            dep_list(p.model.packages@[i], kind)[k].package@,
        ) == Some(j) ==> hosted(p, j)
}

/// What a package with units for the host leads to has such units too.
proof fn lemma_hosted_step(p: Planner<'_>, i: int, j: int)
    requires
        hosted(p, i),
        leads(*p.model, *p.disk, p.toolchain.host_triple@, Walk::Builds, i, j),
    ensures
        hosted(p, j),
{
    reveal(hosted);
    lemma_reach_step(
        *p.model,
        *p.disk,
        p.toolchain.host_triple@,
        Walk::Builds,
        Set::new(|x: int| host_root(*p.model, x)),
        i,
        j,
    );
}

proof fn lemma_normal_hosted(p: Planner<'_>, i: int)
    requires
        0 <= i < p.model.packages@.len(),
        hosted(p, i),
    ensures
        edges_hosted(p, i, EdgeKind::Normal),
{
    let list = dep_list(p.model.packages@[i], EdgeKind::Normal);
    assert forall|k: int, j: int|
        #![trigger list[k], hosted(p, j)]
        0 <= k < list.len() && edge_live(
            *p.model,
            *p.disk,
            p.toolchain.host_triple@,
            i,
            list[k],
        ) && !native(*p.model, list[k].package.name@) && find(
            p.model.packages@,
            list[k].package@,
        ) == Some(j) implies hosted(p, j) by {
        assert(dep_list(p.model.packages@[i], EdgeKind::Normal)[k] == list[k]);
        assert(crate::graph::follows(
            *p.model,
            *p.disk,
            p.toolchain.host_triple@,
            Walk::Builds,
            (i, EdgeKind::Normal, k),
        ));
        lemma_hosted_step(p, i, j);
    }
}

proof fn lemma_build_hosted(p: Planner<'_>, i: int)
    requires
        0 <= i < p.model.packages@.len(),
        p.model.packages@[i].build_script is Some,
    ensures
        edges_hosted(p, i, EdgeKind::Build),
{
    let list = dep_list(p.model.packages@[i], EdgeKind::Build);
    assert forall|k: int, j: int|
        #![trigger list[k], hosted(p, j)]
        0 <= k < list.len() && edge_live(
            *p.model,
            *p.disk,
            p.toolchain.host_triple@,
            i,
            list[k],
        ) && !native(*p.model, list[k].package.name@) && find(
            p.model.packages@,
            list[k].package@,
        ) == Some(j) implies hosted(p, j) by {
        assert(host_edge(*p.model, i, p.model.packages@[i].build_deps@[k]));
        assert(host_root(*p.model, j));
        lemma_root_hosted(p, j);
    }
}

/// Whatever a unit links has units for the host where all that it links directly
/// has.
proof fn lemma_links_hosted(p: Planner<'_>, i: int, needs: Needs, j: int)
    requires
        crate::units::links(p, i, needs, j),
        forall|x: int| #[trigger] crate::units::links_directly(p, i, needs, x) ==> hosted(p, x),
    ensures
        hosted(p, j),
{
    let m = *p.model;
    let triple = p.toolchain.host_triple@;
    let roots = Set::new(|x: int| crate::units::links_directly(p, i, needs, x));
    let held = Set::new(|x: int| hosted(p, x));
    assert forall|a: int, b: int|
        held.contains(a) && #[trigger] leads(m, *p.disk, triple, Walk::Links, a, b) implies held.contains(
        b,
    ) by {
        let (kind, k) = choose|kind: EdgeKind, k: int|
            #![trigger dep_list(m.packages@[a], kind)[k]]
            crate::resolution::edge_ok(m.packages@, (a, kind, k)) && crate::graph::follows(
                m,
                *p.disk,
                triple,
                Walk::Links,
                (a, kind, k),
            ) && find(m.packages@, dep_list(m.packages@[a], kind)[k].package@) == Some(b);
        assert(crate::graph::follows(m, *p.disk, triple, Walk::Builds, (a, kind, k)));
        assert(leads(m, *p.disk, triple, Walk::Builds, a, b)) by {
            assert(find(m.packages@, dep_list(m.packages@[a], kind)[k].package@) == Some(b));
        }
        lemma_hosted_step(p, a, b);
    }
    lemma_closed_holds_reached(m, *p.disk, triple, Walk::Links, roots, held, j);
}

proof fn lemma_dep_spec_planned(p: Planner<'_>, j: int, extern_name: Seq<char>, host: bool)
    requires
        0 <= j < p.model.packages@.len(),
        p.model.packages@[j].lib is Some,
        host ==> hosted(p, j),
    ensures
        crate::units::linked_dep(p, j, extern_name, host) matches Ok(d) ==> d is Rust && planned_id(
            p,
            d->action,
        ),
{
    lemma_linked_planned(p, j, host);
}

proof fn lemma_specs_planned(p: Planner<'_>, i: int, kind: EdgeKind, host: bool, n: int)
    requires
        0 <= i < p.model.packages@.len(),
        0 <= n <= dep_list(p.model.packages@[i], kind).len(),
        host ==> edges_hosted(p, i, kind),
    ensures
        crate::units::specs_upto(p, i, kind, host, n) matches Ok(v) ==> forall|k: int|
            0 <= k < v.len() && (#[trigger] v[k]) is Rust ==> planned_id(p, v[k]->action),
    decreases n,
{
    if n > 0 {
        lemma_specs_planned(p, i, kind, host, n - 1);
        let dep = dep_list(p.model.packages@[i], kind)[n - 1];
        lemma_find(p.model.packages@, dep.package@);
        if let Some(j) = find(p.model.packages@, dep.package@) {
            if p.model.packages@[j].lib is Some && edge_live(
                *p.model,
                *p.disk,
                p.toolchain.host_triple@,
                i,
                dep,
            ) && !native(*p.model, dep.package.name@) {
                assert(host ==> hosted(p, j));
                lemma_dep_spec_planned(p, j, dep.extern_name@, host);
            }
        }
    }
}

/// Whether a target is one of a package that there is, with the script that it is
/// about, and with units for the host where it is one.
spec fn target_ok(p: Planner<'_>, t: Target, n: int) -> bool {
    &&& 0 <= target_package(t) < n
    &&& t matches Target::ScriptRun(i, host) ==> p.model.packages@[i].build_script is Some && (host
        ==> hosted(p, i))
    &&& t matches Target::ScriptCompile(i, host) ==> p.model.packages@[i].build_script is Some
        && (host ==> hosted(p, i))
    &&& t matches Target::Lib(i, _, host) ==> (host ==> hosted(p, i))
    &&& t matches Target::Macro(i) ==> hosted(p, i)
}

proof fn lemma_lib_kinds(p: Planner<'_>, n: int, x: int)
    requires
        0 <= n <= p.model.packages@.len(),
        0 <= x < all_libs(p, n).len(),
    ensures
        ({
            let t = all_libs(p, n)[x];
            &&& target_ok(p, t, n)
            &&& !(t is TestRun)
        }),
    decreases n,
{
    if n > 0 {
        let before = all_libs(p, n - 1);
        if x < before.len() {
            lemma_lib_kinds(p, n - 1, x);
            assert(all_libs(p, n)[x] == before[x]);
        } else {
            let y = x - before.len();
            let mine = lib_targets(p, n - 1);
            let a = side_targets(*p.model, n - 1, false);
            assert(all_libs(p, n)[x] == mine[y]);
            if y < a.len() {
                assert(mine[y] == a[y]);
            } else {
                assert(mine[y] == side_targets(*p.model, n - 1, true)[y - a.len()]);
            }
        }
    }
}

proof fn lemma_bin_kinds(m: RustModel, i: int, n: int, x: int)
    requires
        0 <= x < bin_targets(m, i, n).len(),
    ensures
        bin_targets(m, i, n)[x] is Bin,
        target_package(bin_targets(m, i, n)[x]) == i,
    decreases n,
{
    if n > 0 {
        let before = bin_targets(m, i, n - 1);
        if x < before.len() {
            lemma_bin_kinds(m, i, n - 1, x);
            assert(bin_targets(m, i, n)[x] == before[x]);
        }
    }
}

proof fn lemma_all_bin_kinds(m: RustModel, n: int, x: int)
    requires
        0 <= n <= m.packages@.len(),
        0 <= x < all_bins(m, n).len(),
    ensures
        all_bins(m, n)[x] is Bin,
        0 <= target_package(all_bins(m, n)[x]) < n,
    decreases n,
{
    if n > 0 {
        let before = all_bins(m, n - 1);
        let k = m.packages@[n - 1].bins@.len() as int;
        if x < before.len() {
            lemma_all_bin_kinds(m, n - 1, x);
            assert(all_bins(m, n)[x] == before[x]);
        } else {
            lemma_bin_kinds(m, n - 1, k, x - before.len());
            assert(all_bins(m, n)[x] == bin_targets(m, n - 1, k)[x - before.len()]);
        }
    }
}

proof fn lemma_example_kinds(m: RustModel, i: int, n: int, x: int)
    requires
        0 <= x < example_targets(m, i, n).len(),
    ensures
        example_targets(m, i, n)[x] is Example,
        target_package(example_targets(m, i, n)[x]) == i,
    decreases n,
{
    if n > 0 {
        let before = example_targets(m, i, n - 1);
        if x < before.len() {
            lemma_example_kinds(m, i, n - 1, x);
            assert(example_targets(m, i, n)[x] == before[x]);
        }
    }
}

proof fn lemma_test_kinds(m: RustModel, i: int, n: int, x: int)
    requires
        0 <= x < test_targets(m, i, n).len(),
    ensures
        ({
            let ts = test_targets(m, i, n);
            &&& ts[x] is TestCompile || ts[x] is TestRun
            &&& target_package(ts[x]) == i
            &&& ts[x] matches Target::TestRun(_, k) ==> x > 0 && ts[x - 1] == Target::TestCompile(
                i,
                k,
            )
        }),
    decreases n,
{
    if n > 0 {
        let before = test_targets(m, i, n - 1);
        if x < before.len() {
            lemma_test_kinds(m, i, n - 1, x);
            assert(test_targets(m, i, n)[x] == before[x]);
            if x > 0 {
                assert(test_targets(m, i, n)[x - 1] == before[x - 1]);
            }
        }
    }
}

proof fn lemma_all_test_kinds(m: RustModel, n: int, x: int)
    requires
        0 <= n <= m.packages@.len(),
        0 <= x < all_tests(m, n).len(),
    ensures
        ({
            let ts = all_tests(m, n);
            &&& ts[x] is Example || ts[x] is TestCompile || ts[x] is TestRun
            &&& 0 <= target_package(ts[x]) < n
            &&& ts[x] matches Target::TestRun(i, k) ==> x > 0 && ts[x - 1] == Target::TestCompile(
                i,
                k,
            )
        }),
    decreases n,
{
    if n > 0 {
        let ts = all_tests(m, n);
        let before = all_tests(m, n - 1);
        let a = m.packages@[n - 1].examples@.len() as int;
        let b = m.packages@[n - 1].tests@.len() as int;
        let ex = example_targets(m, n - 1, a);
        let te = test_targets(m, n - 1, b);
        if x < before.len() {
            lemma_all_test_kinds(m, n - 1, x);
            assert(ts[x] == before[x]);
            if x > 0 {
                assert(ts[x - 1] == before[x - 1]);
            }
        } else if x < before.len() + ex.len() {
            lemma_example_kinds(m, n - 1, a, x - before.len());
            assert(ts[x] == ex[x - before.len()]);
        } else {
            let y = x - before.len() - ex.len();
            lemma_test_kinds(m, n - 1, b, y);
            assert(ts[x] == te[y]);
            if y > 0 {
                assert(ts[x - 1] == te[y - 1]);
            }
        }
    }
}

proof fn lemma_targets(p: Planner<'_>, t: Target)
    requires
        all_targets(p).contains(t),
    ensures
        target_ok(p, t, p.model.packages@.len() as int),
        t matches Target::TestRun(i, k) ==> all_targets(p).contains(Target::TestCompile(i, k)),
{
    let m = *p.model;
    let n = m.packages@.len() as int;
    let libs = all_libs(p, n);
    let bins = all_bins(m, n);
    let all = all_targets(p);
    let x = choose|x: int| 0 <= x < all.len() && all[x] == t;
    if x < libs.len() {
        lemma_lib_kinds(p, n, x);
        assert(all[x] == libs[x]);
    } else if x < libs.len() + bins.len() {
        lemma_all_bin_kinds(m, n, x - libs.len());
        assert(all[x] == bins[x - libs.len()]);
    } else {
        let y = x - libs.len() - bins.len();
        lemma_all_test_kinds(m, n, y);
        assert(all[x] == all_tests(m, n)[y]);
        if y > 0 {
            assert(all[x - 1] == all_tests(m, n)[y - 1]);
        }
    }
}

/// The binaries of a package that tests find are planned.
proof fn lemma_bin_planned(p: Planner<'_>, i: int, n: int, x: int)
    requires
        0 <= i < p.model.packages@.len(),
        0 <= n <= p.model.packages@[i].bins@.len(),
        0 <= x < planned_bins(*p.model, i, n).len(),
    ensures
        planned_id(p, planned_bins(*p.model, i, n)[x].1),
    decreases n,
{
    let m = *p.model;
    if n > 0 {
        let before = planned_bins(m, i, n - 1);
        if x < before.len() {
            lemma_bin_planned(p, i, n - 1, x);
            assert(planned_bins(m, i, n)[x] == before[x]);
        } else {
            let t = Target::Bin(i, n - 1);
            let len = m.packages@[i].bins@.len() as int;
            assert(bin_targets(m, i, n).last() == t);
            lemma_bins_hold(m, i, n, len, bin_targets(m, i, n).len() - 1);
            lemma_all_bins_hold(m, i, m.packages@.len() as int, t);
            let bins = all_bins(m, m.packages@.len() as int);
            let y = choose|y: int| 0 <= y < bins.len() && bins[y] == t;
            let at = all_libs(p, m.packages@.len() as int).len() + y;
            assert(all_targets(p)[at] == t);
            assert(target_id(m, all_targets(p)[at]) == bin_id(m, i, n - 1));
        }
    }
}

proof fn lemma_bins_hold(m: RustModel, i: int, a: int, b: int, x: int)
    requires
        0 <= a <= b,
        0 <= x < bin_targets(m, i, a).len(),
    ensures
        bin_targets(m, i, b).contains(bin_targets(m, i, a)[x]),
    decreases b,
{
    let t = bin_targets(m, i, a)[x];
    if a < b {
        lemma_bins_hold(m, i, a, b - 1, x);
        let before = bin_targets(m, i, b - 1);
        let y = choose|y: int| 0 <= y < before.len() && before[y] == t;
        assert(bin_targets(m, i, b)[y] == t);
    } else {
        assert(bin_targets(m, i, b)[x] == t);
    }
}

proof fn lemma_all_bins_hold(m: RustModel, i: int, n: int, t: Target)
    requires
        0 <= i < n,
        bin_targets(m, i, m.packages@[i].bins@.len() as int).contains(t),
    ensures
        all_bins(m, n).contains(t),
    decreases n,
{
    let before = all_bins(m, n - 1);
    if i < n - 1 {
        lemma_all_bins_hold(m, i, n - 1, t);
        let y = choose|y: int| 0 <= y < before.len() && before[y] == t;
        assert(all_bins(m, n)[y] == t);
    } else {
        let mine = bin_targets(m, i, m.packages@[i].bins@.len() as int);
        let y = choose|y: int| 0 <= y < mine.len() && mine[y] == t;
        assert(all_bins(m, n)[before.len() + y] == t);
    }
}

proof fn lemma_found_planned(
    p: Planner<'_>,
    i: int,
    role: Role,
    pairs: Seq<(String, String)>,
    id: Seq<char>,
)
    requires
        0 <= i < p.model.packages@.len(),
        pairs_view(pairs) == bins_found(*p.model, i, role),
        second_ids(pairs).contains(id),
    ensures
        planned_id(p, id),
{
    let k = choose|k: int| 0 <= k < pairs.len() && (#[trigger] pairs[k]).1@ == id;
    let all = bins_found(*p.model, i, role);
    assert(pairs_view(pairs).len() == pairs.len());
    assert(pairs_view(pairs)[k] == (pairs[k].0@, pairs[k].1@));
    assert(all[k].1 == id);
    assert(role == Role::Test);
    lemma_bin_planned(p, i, p.model.packages@[i].bins@.len() as int, k);
}

/// Producers and consumers agree: whatever a planned unit has to wait for is
/// itself a planned unit.
pub proof fn dependencies_are_planned(p: Planner<'_>, u: Unit, t: Target, id: Seq<char>)
    requires
        unit_is(u, p, t),
        all_targets(p).contains(t),
        unit_deps(u).contains(id),
    ensures
        planned_id(p, id),
{
    let m = *p.model;
    lemma_targets(p, t);
    let i = target_package(t);
    match u.kind {
        UnitKind::Compile(c) => {
            let q = request_of(m, t);
            assert(compiles(c, p, q));
            if q.for_host {
                lemma_host_needs(p, t);
            }
            if c.transitive@.contains(id) {
                let j = choose|j: int|
                    #![trigger crate::units::linked_action(m, j, q.for_host)]
                    0 <= j < m.packages@.len() && crate::units::links(p, i, q.needs, j)
                        && crate::units::linked_action(m, j, q.for_host) == Some(id);
                if q.for_host {
                    lemma_links_hosted(p, i, q.needs, j);
                }
                lemma_linked_planned(p, j, q.for_host);
            } else if c.build_script is Some && c.build_script->0@ == id {
                lemma_script_planned(p, i, q.host);
            } else if second_ids(c.bins@).contains(id) {
                lemma_found_planned(p, i, q.role, c.bins@, id);
            } else {
                let k = choose|k: int|
                    0 <= k < c.deps@.len() && (#[trigger] c.deps@[k])@ is Rust && c.deps@[k]@->action
                        == id;
                let all = dep_specs_view(c.deps@);
                assert(all[k] == c.deps@[k]@);
                let h = q.for_host;
                let own = crate::units::own_spec(p, i, q.needs, h)->Ok_0;
                let a = crate::units::list_specs(p, i, q.needs, EdgeKind::Normal, h)->Ok_0;
                let b = crate::units::list_specs(p, i, q.needs, EdgeKind::Build, h)->Ok_0;
                let d = crate::units::list_specs(p, i, q.needs, EdgeKind::Dev, h)->Ok_0;
                assert(all == own + a + b + d);
                if q.needs.normal {
                    lemma_specs_planned(p, i, EdgeKind::Normal, h, m.packages@[i].deps@.len() as int);
                }
                if q.needs.build {
                    lemma_specs_planned(
                        p,
                        i,
                        EdgeKind::Build,
                        h,
                        m.packages@[i].build_deps@.len() as int,
                    );
                }
                if q.needs.dev {
                    lemma_specs_planned(p, i, EdgeKind::Dev, h, m.packages@[i].dev_deps@.len() as int);
                }
                if k < own.len() {
                    assert(all[k] == own[k]);
                    lemma_dep_spec_planned(p, i, lib_crate_text(m.packages@[i]), h);
                } else if k < own.len() + a.len() {
                    assert(all[k] == a[k - own.len()]);
                } else if k < own.len() + a.len() + b.len() {
                    assert(all[k] == b[k - own.len() - a.len()]);
                } else {
                    assert(all[k] == d[k - own.len() - a.len() - b.len()]);
                }
            }
        },
        UnitKind::ScriptRun(run) => {
            let host = t->ScriptRun_1;
            if id == run.compile@ {
                lemma_script_planned(p, i, host);
            } else {
                let k = choose|k: int|
                    0 <= k < run.links@.len() && (#[trigger] run.links@[k]).1@ == id;
                let all = pairs_view(run.links@);
                assert(all[k] == (run.links@[k].0@, run.links@[k].1@));
                lemma_links_planned(p, i, host, m.packages@[i].deps@.len() as int);
                assert(planned_id(p, all[k].1));
            }
        },
        UnitKind::TestRun(run) => {
            let k = t->TestRun_1;
            if second_ids(run.bins@).contains(id) {
                lemma_found_planned(p, i, test_role(m.packages@[i], k), run.bins@, id);
            } else {
                let c = Target::TestCompile(i, k);
                let x = choose|x: int| 0 <= x < all_targets(p).len() && all_targets(p)[x] == c;
                assert(target_id(m, all_targets(p)[x]) == id);
            }
        },
    }
}

/// Whatever a unit that is compiled for the host links has units for the host.
proof fn lemma_host_needs(p: Planner<'_>, t: Target)
    requires
        target_ok(p, t, p.model.packages@.len() as int),
        is_compile(t),
        request_of(*p.model, t).for_host,
    ensures
        ({
            let i = target_package(t);
            let needs = request_of(*p.model, t).needs;
            &&& needs.normal ==> edges_hosted(p, i, EdgeKind::Normal)
            &&& needs.build ==> edges_hosted(p, i, EdgeKind::Build)
            &&& !needs.dev
            &&& !needs.own
            &&& forall|x: int| #[trigger]
                crate::units::links_directly(p, i, needs, x) ==> hosted(p, x)
        }),
{
    let i = target_package(t);
    let needs = request_of(*p.model, t).needs;
    if needs.build {
        lemma_build_hosted(p, i);
    }
    if needs.normal {
        lemma_normal_hosted(p, i);
    }
    assert forall|x: int| #[trigger]
        crate::units::links_directly(p, i, needs, x) implies hosted(p, x) by {
        let (kind, k) = choose|kind: EdgeKind, k: int|
            #![trigger dep_list(p.model.packages@[i], kind)[k]]
            0 <= k < dep_list(p.model.packages@[i], kind).len() && crate::units::needs_list(
                needs,
                kind,
            ) && edge_live(
                *p.model,
                *p.disk,
                p.toolchain.host_triple@,
                i,
                dep_list(p.model.packages@[i], kind)[k],
            ) && !native(*p.model, dep_list(p.model.packages@[i], kind)[k].package.name@) && find(
                p.model.packages@,
                dep_list(p.model.packages@[i], kind)[k].package@,
            ) == Some(x);
        assert(edges_hosted(p, i, kind));
        let dep = dep_list(p.model.packages@[i], kind)[k];
        assert(hosted(p, x));
    }
}

proof fn lemma_links_planned(p: Planner<'_>, i: int, host: bool, n: int)
    requires
        0 <= i < p.model.packages@.len(),
        0 <= n <= p.model.packages@[i].deps@.len(),
        host ==> hosted(p, i),
    ensures
        forall|k: int|
            0 <= k < links_upto(p, i, host, n).len() ==> planned_id(
                p,
                (#[trigger] links_upto(p, i, host, n)[k]).1,
            ),
    decreases n,
{
    if n > 0 {
        lemma_links_planned(p, i, host, n - 1);
        let dep = p.model.packages@[i].deps@[n - 1];
        lemma_find(p.model.packages@, dep.package@);
        if let Some(j) = find(p.model.packages@, dep.package@) {
            if p.model.packages@[j].build_script is Some && edge_live(
                *p.model,
                *p.disk,
                p.toolchain.host_triple@,
                i,
                dep,
            ) {
                if host && !native(*p.model, dep.package.name@) {
                    lemma_normal_hosted(p, i);
                    assert(dep_list(p.model.packages@[i], EdgeKind::Normal)[n - 1] == dep);
                    assert(hosted(p, j));
                }
                if !native(*p.model, dep.package.name@) {
                    lemma_script_planned(p, j, host);
                }
            }
        }
        let before = links_upto(p, i, host, n - 1);
        assert forall|k: int| 0 <= k < links_upto(p, i, host, n).len() implies planned_id(
            p,
            (#[trigger] links_upto(p, i, host, n)[k]).1,
        ) by {
            if k < before.len() {
                assert(links_upto(p, i, host, n)[k] == before[k]);
            }
        }
    }
}

} // verus!
