//! What the units of a build are.

use vstd::prelude::*;
use vstd::string::*;
use crate::graph::edge_live;
use crate::model::{
    crate_type_text, lib_crate_text, profile_flags, CrateType, Dep, PackageIdView, RustModel,
};
use crate::plan::{
    all_bins, all_libs, all_targets, all_tests, bin_targets, example_targets, feature_flags,
    features_of, hosted, lib_targets, links_upto, pairs_view, root_from, side_targets, test_targets,
    unit_is, without_lto, CompileUnit, Role, Target, Unit, UnitKind,
};
use crate::resolution::{dep_list, find, lemma_find, native, EdgeKind};
use crate::strmap::lemma_ascending_of;
use crate::text::{starts, texts};
use crate::units::{
    dep_specs_view, label_of, linked_dep, list_specs, own_spec, script_run_id, specs_of, specs_upto,
    types_of, DepSpecView, PlanFault, Planner,
};

verus! {

/// Whether a package is one of the workspace's members.
pub open spec fn is_member(m: RustModel, id: PackageIdView) -> bool {
    exists|k: int| 0 <= k < m.members@.len() && (#[trigger] m.members@[k])@ == id
}

/// Whether two texts stand next to each other in a list.
pub open spec fn in_turn(list: Seq<Seq<char>>, first: Seq<char>, second: Seq<char>) -> bool {
    exists|k: int|
        0 <= k < list.len() - 1 && #[trigger] list[k] == first && list[k + 1] == second
}

/// Whether a text is another with `_` for each `-`.
pub open spec fn underscored(name: Seq<char>, text: Seq<char>) -> bool {
    text.len() == name.len() && forall|k: int|
        0 <= k < name.len() ==> #[trigger] text[k] == (if name[k] == '-' {
            '_'
        } else {
            name[k]
        })
}

// ---- Flags ------------------------------------------------------------------------

/// The lints of workspace members are their own: these are compiled with the
/// workspace's flags and their package's, and nothing more. Any other package is
/// compiled with `--cap-lints allow` behind those flags.
pub proof fn only_members_keep_their_lints(p: Planner<'_>, u: Unit, t: Target, c: CompileUnit)
    requires
        unit_is(u, p, t),
        u.kind == UnitKind::Compile(c),
    ensures
        ({
            let package = p.model.packages@[u.package as int];
            let n = p.model.global_rustflags@.len() as int;
            let k = package.rustflags@.len() as int;
            &&& forall|x: int|
                0 <= x < n ==> (#[trigger] c.extra_flags@[x])@ == p.model.global_rustflags@[x]@
            &&& forall|x: int|
                0 <= x < k ==> c.extra_flags@[n + x]@ == (#[trigger] package.rustflags@[x])@
            &&& is_member(*p.model, package.id@) ==> c.extra_flags@.len() == n + k
            &&& !is_member(*p.model, package.id@) ==> {
                &&& c.extra_flags@.len() == n + k + 2
                &&& c.extra_flags@[n + k]@ == "--cap-lints"@
                &&& c.extra_flags@[n + k + 1]@ == "allow"@
            }
        }),
{
    let package = p.model.packages@[u.package as int];
    let n = p.model.global_rustflags@.len() as int;
    let k = package.rustflags@.len() as int;
    let flags = texts(c.extra_flags@);
    assert(flags.len() == c.extra_flags@.len());
    assert forall|x: int| 0 <= x < n implies (#[trigger] c.extra_flags@[x])@
        == p.model.global_rustflags@[x]@ by {
        assert(flags[x] == c.extra_flags@[x]@);
    }
    assert forall|x: int| 0 <= x < k implies c.extra_flags@[n + x]@ == (
    #[trigger] package.rustflags@[x])@ by {
        assert(flags[n + x] == c.extra_flags@[n + x]@);
    }
    if !is_member(*p.model, package.id@) {
        assert(flags[n + k] == c.extra_flags@[n + k]@);
        assert(flags[n + k + 1] == c.extra_flags@[n + k + 1]@);
    }
}

/// A unit is external exactly where its package is no member of the workspace.
pub proof fn units_of_members_are_not_external(p: Planner<'_>, u: Unit, t: Target)
    requires
        unit_is(u, p, t),
    ensures
        u.external <==> !is_member(*p.model, p.model.packages@[u.package as int].id@),
{
    let m = *p.model;
    let id = m.packages@[u.package as int].id@;
    if is_member(m, id) {
        let k = choose|k: int| 0 <= k < m.members@.len() && (#[trigger] m.members@[k])@ == id;
        assert(m.members@[k]@ == id);
    }
}

/// Whether a feature has its flag.
spec fn flagged(flags: Seq<Seq<char>>, features: Seq<Seq<char>>, k: int) -> bool {
    flags[2 * k] == "--cfg"@ && flags[2 * k + 1] == "feature=\""@ + features[k] + "\""@
}

proof fn lemma_feature_flags(features: Seq<Seq<char>>)
    ensures
        feature_flags(features).len() == 2 * features.len(),
        forall|k: int|
            0 <= k < features.len() ==> #[trigger] flagged(feature_flags(features), features, k),
    decreases features.len(),
{
    if features.len() > 0 {
        let less = features.drop_last();
        let flags = feature_flags(features);
        lemma_feature_flags(less);
        assert forall|k: int| 0 <= k < features.len() implies #[trigger] flagged(
            flags,
            features,
            k,
        ) by {
            if k < less.len() {
                assert(flagged(feature_flags(less), less, k));
                assert(features[k] == less[k]);
            }
        }
    }
}

/// A compilation is told of every feature that its package has on, on the side that
/// it is for, by `--cfg feature="..."`, and of no other.
pub proof fn features_reach_their_compilations(
    p: Planner<'_>,
    u: Unit,
    t: Target,
    c: CompileUnit,
    side: bool,
    feature: Seq<char>,
)
    requires
        unit_is(u, p, t),
        u.kind == UnitKind::Compile(c),
        side == (match t {
            Target::ScriptCompile(_, host) => host,
            Target::Lib(_, _, host) => host,
            Target::Macro(_) => true,
            _ => false,
        }),
        p.model.feature_map.features_of(p.model.packages@[u.package as int].id@, side).finite(),
    ensures
        ({
            let on = p.model.feature_map.features_of(
                p.model.packages@[u.package as int].id@,
                side,
            );
            let flag = "feature=\""@ + feature + "\""@;
            on.contains(feature) <==> in_turn(texts(c.feature_cfgs@), "--cfg"@, flag)
        }),
{
    let on = p.model.feature_map.features_of(p.model.packages@[u.package as int].id@, side);
    let list = features_of(*p.model, u.package as int, side);
    let flags = texts(c.feature_cfgs@);
    lemma_ascending_of(on);
    lemma_feature_flags(list);
    reveal_strlit("--cfg");
    reveal_strlit("feature=\"");
    reveal_strlit("\"");
    let head = "feature=\""@;
    if on.contains(feature) {
        let k = choose|k: int| 0 <= k < list.len() && list[k] == feature;
        assert(flagged(flags, list, k));
        assert(flags[2 * k] == "--cfg"@);
        assert(flags[2 * k + 1] == head + feature + "\""@);
    }
    if in_turn(flags, "--cfg"@, head + feature + "\""@) {
        let k = choose|k: int|
            0 <= k < flags.len() - 1 && #[trigger] flags[k] == "--cfg"@ && flags[k + 1] == head
                + feature + "\""@;
        let x = k / 2;
        if k % 2 == 1 {
            assert(flagged(flags, list, x));
            assert(flags[2 * x + 1] == head + list[x] + "\""@);
            assert(flags[k][0] == 'f');
            assert("--cfg"@[0] == '-');
        }
        assert(flagged(flags, list, x));
        let one = head + list[x] + "\""@;
        let other = head + feature + "\""@;
        assert(one == other);
        assert(list[x] =~= one.subrange(head.len() as int, one.len() - 1));
        assert(feature =~= other.subrange(head.len() as int, other.len() - 1));
        assert(list.contains(feature));
    }
}

// ---- What is compiled -------------------------------------------------------------

/// How rustc calls a crate type.
pub open spec fn type_word(t: CrateType) -> Seq<char> {
    match t {
        CrateType::Rlib => "rlib"@,
        CrateType::Dylib => "dylib"@,
        CrateType::Cdylib => "cdylib"@,
        CrateType::Staticlib => "staticlib"@,
    }
}

/// The extension of a library's file.
pub open spec fn type_extension(p: Planner<'_>, t: CrateType) -> Seq<char> {
    match t {
        CrateType::Rlib => "rlib"@,
        CrateType::Staticlib => "a"@,
        _ => p.toolchain.dll_extension@,
    }
}

/// What is behind the id of a unit for the host.
pub open spec fn side_word(host: bool) -> Seq<char> {
    if host {
        ":host"@
    } else {
        ""@
    }
}

/// Whether a crate root is where a path is declared, or where it is mounted
/// instead.
pub open spec fn is_root(p: Planner<'_>, i: int, path: Seq<char>, root: Seq<char>) -> bool {
    ||| root == path && forall|k: int|
        0 <= k < p.roots@.len() ==> (#[trigger] p.roots@[k]).package != i || p.roots@[k].original@
            != path
    ||| exists|k: int|
        0 <= k < p.roots@.len() && (#[trigger] p.roots@[k]).package == i
            && p.roots@[k].original@ == path && p.roots@[k].rewritten@ == root
}

proof fn lemma_root(p: Planner<'_>, i: int, path: Seq<char>, from: int)
    requires
        0 <= from <= p.roots@.len(),
    ensures
        ({
            let root = root_from(p, i, path, from);
            ||| root == path && forall|k: int|
                from <= k < p.roots@.len() ==> (#[trigger] p.roots@[k]).package != i
                    || p.roots@[k].original@ != path
            ||| exists|k: int|
                from <= k < p.roots@.len() && (#[trigger] p.roots@[k]).package == i
                    && p.roots@[k].original@ == path && p.roots@[k].rewritten@ == root
        }),
    decreases p.roots@.len() - from,
{
    if from < p.roots@.len() {
        if p.roots@[from].package == i && p.roots@[from].original@ == path {
            assert(p.roots@[from].rewritten@ == root_from(p, i, path, from));
        } else {
            lemma_root(p, i, path, from + 1);
        }
    }
}

/// Whether a compilation has the package's own: its edition, whether it is a proc
/// macro's, and the run of its build script where it hears one.
pub open spec fn of_package(c: CompileUnit, p: Planner<'_>, i: int, heard: bool, host: bool) -> bool {
    let package = p.model.packages@[i];
    &&& c.edition == package.edition
    &&& c.is_proc_macro <==> package.lib is Some && package.lib->0.proc_macro
    &&& heard && package.build_script is Some ==> c.build_script is Some && c.build_script->0@
        == "rust:bs-run:"@ + label_of(*p.model, i) + side_word(host)
    &&& !heard || package.build_script is None ==> c.build_script is None
}

/// Whether a crate goes by the name of a package's library: its own, or else the
/// package's, as rustc takes it.
pub open spec fn lib_named(p: Planner<'_>, i: int, name: Seq<char>) -> bool {
    let package = p.model.packages@[i];
    package.lib matches Some(lib) ==> {
        &&& lib.name matches Some(own) ==> underscored(own@, name)
        &&& lib.name is None ==> underscored(package.name@, name)
    }
}

/// The unit for a library: one of its crate types, for the target or for the host.
pub proof fn libraries_are_compiled(p: Planner<'_>, u: Unit, i: int, t: CrateType, host: bool)
    requires
        unit_is(u, p, Target::Lib(i, t, host)),
        p.model.packages@[i].lib is Some,
    ensures
        u.package == i,
        u.id@ == "rust:lib:"@ + label_of(*p.model, i) + ":"@ + type_word(t) + side_word(host),
        u.mnemonic@ == "RustLibrary"@,
        u.kind is Compile,
        ({
            let c = u.kind->Compile_0;
            &&& c.role == Role::Library
            &&& c.host == host
            &&& c.crate_type@ == type_word(t)
            &&& lib_named(p, i, c.crate_name@)
            &&& c.output@ == "lib"@ + c.crate_name@ + "-"@ + c.meta@ + "."@ + type_extension(p, t)
            &&& is_root(p, i, p.model.packages@[i].lib->0.path@, c.crate_root@)
            &&& of_package(c, p, i, true, host)
        }),
{
    lemma_root(p, i, p.model.packages@[i].lib->0.path@, 0);
    lemma_type_words();
}

proof fn lemma_type_words()
    ensures
        "rlib"@.len() == 4,
        "dylib"@.len() == 5,
        "cdylib"@.len() == 6,
        "staticlib"@.len() == 9,
        "proc-macro"@.len() == 10,
        "bin"@.len() == 3,
        "test"@.len() == 4,
        "rlib"@[0] == 'r',
        "test"@[0] == 't',
{
    reveal_strlit("rlib");
    reveal_strlit("dylib");
    reveal_strlit("cdylib");
    reveal_strlit("staticlib");
    reveal_strlit("proc-macro");
    reveal_strlit("bin");
    reveal_strlit("test");
}

/// The unit for a proc macro: a shared library for the host.
pub proof fn proc_macros_are_compiled(p: Planner<'_>, u: Unit, i: int)
    requires
        unit_is(u, p, Target::Macro(i)),
        p.model.packages@[i].lib is Some,
    ensures
        u.package == i,
        u.id@ == "rust:proc-macro:"@ + label_of(*p.model, i),
        u.mnemonic@ == "RustProcMacro"@,
        u.kind is Compile,
        ({
            let c = u.kind->Compile_0;
            &&& c.role == Role::Library
            &&& c.host
            &&& c.crate_type@ == "proc-macro"@
            &&& lib_named(p, i, c.crate_name@)
            &&& c.output@ == "lib"@ + c.crate_name@ + "-"@ + c.meta@ + "."@
                + p.toolchain.dll_extension@
            &&& is_root(p, i, p.model.packages@[i].lib->0.path@, c.crate_root@)
            &&& of_package(c, p, i, true, true)
        }),
{
    lemma_root(p, i, p.model.packages@[i].lib->0.path@, 0);
    lemma_type_words();
}

/// The units for a build script: a binary for the host, and its run.
pub proof fn build_scripts_are_compiled_and_run(
    p: Planner<'_>,
    u: Unit,
    v: Unit,
    i: int,
    host: bool,
)
    requires
        unit_is(u, p, Target::ScriptCompile(i, host)),
        unit_is(v, p, Target::ScriptRun(i, host)),
        p.model.packages@[i].build_script is Some,
    ensures
        u.package == i,
        v.package == i,
        u.id@ == "rust:bs-compile:"@ + label_of(*p.model, i) + side_word(host),
        v.id@ == "rust:bs-run:"@ + label_of(*p.model, i) + side_word(host),
        u.mnemonic@ == "RustBuildScriptCompile"@,
        v.mnemonic@ == "RustBuildScriptRun"@,
        u.kind is Compile,
        v.kind is ScriptRun,
        ({
            let c = u.kind->Compile_0;
            let run = v.kind->ScriptRun_0;
            &&& c.role == Role::Script
            &&& c.host
            &&& c.crate_type@ == "bin"@
            &&& c.output@ == c.crate_name@
            &&& is_root(p, i, p.model.packages@[i].build_script->0@, c.crate_root@)
            &&& of_package(c, p, i, false, host)
            &&& run.compile@ == u.id@
            &&& run.binary@ == c.output@
            &&& run.host == host
        }),
{
    lemma_root(p, i, p.model.packages@[i].build_script->0@, 0);
    lemma_type_words();
}

/// The run of a build script knows exactly the features of its package, on the side
/// that it runs for.
pub proof fn script_runs_know_the_features(
    p: Planner<'_>,
    v: Unit,
    i: int,
    host: bool,
    feature: Seq<char>,
)
    requires
        unit_is(v, p, Target::ScriptRun(i, host)),
        p.model.feature_map.features_of(p.model.packages@[i].id@, host).finite(),
    ensures
        v.kind is ScriptRun,
        texts(v.kind->ScriptRun_0.features@).contains(feature)
            <==> p.model.feature_map.features_of(p.model.packages@[i].id@, host).contains(feature),
{
    lemma_ascending_of(p.model.feature_map.features_of(p.model.packages@[i].id@, host));
}

/// The unit for a binary: a program under its own name.
pub proof fn binaries_are_compiled(p: Planner<'_>, u: Unit, i: int, k: int)
    requires
        unit_is(u, p, Target::Bin(i, k)),
    ensures
        u.package == i,
        u.id@ == "rust:bin:"@ + label_of(*p.model, i) + ":"@ + p.model.packages@[i].bins@[k].name@,
        u.mnemonic@ == "RustBinary"@,
        u.kind is Compile,
        ({
            let c = u.kind->Compile_0;
            let bin = p.model.packages@[i].bins@[k];
            &&& c.role == Role::Bin
            &&& !c.host
            &&& c.crate_type@ == "bin"@
            &&& underscored(bin.name@, c.crate_name@)
            &&& c.output@ == bin.name@
            &&& is_root(p, i, bin.path@, c.crate_root@)
            &&& of_package(c, p, i, true, false)
        }),
{
    lemma_root(p, i, p.model.packages@[i].bins@[k].path@, 0);
}

/// The unit for an example: a program under its own name.
pub proof fn examples_are_compiled(p: Planner<'_>, u: Unit, i: int, k: int)
    requires
        unit_is(u, p, Target::Example(i, k)),
    ensures
        u.package == i,
        u.id@ == "rust:example:"@ + label_of(*p.model, i) + ":"@
            + p.model.packages@[i].examples@[k].name@,
        u.mnemonic@ == "RustExample"@,
        u.kind is Compile,
        ({
            let c = u.kind->Compile_0;
            let example = p.model.packages@[i].examples@[k];
            &&& c.role == Role::Example
            &&& !c.host
            &&& c.crate_type@ == "bin"@
            &&& underscored(example.name@, c.crate_name@)
            &&& c.output@ == example.name@
            &&& is_root(p, i, example.path@, c.crate_root@)
            &&& of_package(c, p, i, true, false)
        }),
{
    lemma_root(p, i, p.model.packages@[i].examples@[k].path@, 0);
}

/// The units for a test: a program under its own name, with the libtest harness
/// unless it has its own, and its run with the given arguments. The run may be
/// cached exactly where the test says so. A test on the library's own crate root is
/// its unit test.
pub proof fn tests_are_compiled_and_run(p: Planner<'_>, u: Unit, v: Unit, i: int, k: int)
    requires
        unit_is(u, p, Target::TestCompile(i, k)),
        unit_is(v, p, Target::TestRun(i, k)),
    ensures
        u.package == i,
        v.package == i,
        u.mnemonic@ == "RustTestCompile"@,
        v.mnemonic@ == "RustTestRun"@,
        u.kind is Compile,
        v.kind is TestRun,
        ({
            let c = u.kind->Compile_0;
            let run = v.kind->TestRun_0;
            let package = p.model.packages@[i];
            let test = package.tests@[k];
            let unit_test = !test.bench && package.lib is Some && package.lib->0.path@
                == test.path@;
            let kind = if test.bench {
                "bench"@
            } else if unit_test {
                "lib"@
            } else {
                "test"@
            };
            let label = label_of(*p.model, i) + ":"@ + kind + ":"@ + test.name@;
            &&& u.id@ == "rust:test-compile:"@ + label
            &&& v.id@ == "rust:test-run:"@ + label
            &&& c.role == (if unit_test {
                Role::UnitTest
            } else {
                Role::Test
            })
            &&& !c.host
            &&& test.harness ==> c.crate_type@ == "test"@
            &&& !test.harness ==> c.crate_type@ == "bin"@
            &&& underscored(test.name@, c.crate_name@)
            &&& c.output@ == test.name@
            &&& is_root(p, i, test.path@, c.crate_root@)
            &&& of_package(c, p, i, true, false)
            &&& run.compile@ == u.id@
            &&& run.binary@ == c.output@
            &&& run.harness == test.harness
            &&& run.cached == test.cache_test_result
            &&& run.args@.len() == p.test_args@.len()
            &&& forall|x: int|
                0 <= x < run.args@.len() ==> (#[trigger] run.args@[x])@ == p.test_args@[x]@
        }),
{
    lemma_root(p, i, p.model.packages@[i].tests@[k].path@, 0);
    let run = v.kind->TestRun_0;
    assert(texts(run.args@).len() == run.args@.len());
    assert(texts(p.test_args@).len() == p.test_args@.len());
    assert forall|x: int| 0 <= x < run.args@.len() implies (#[trigger] run.args@[x])@
        == p.test_args@[x]@ by {
        assert(texts(run.args@)[x] == run.args@[x]@);
        assert(texts(p.test_args@)[x] == p.test_args@[x]@);
    }
}

// ---- What is planned --------------------------------------------------------------

/// Whether every one of these features is on for a package's units for the target.
pub open spec fn all_on(m: RustModel, i: int, required: Seq<String>) -> bool {
    forall|k: int|
        0 <= k < required.len() ==> m.feature_map.features_of(
            m.packages@[i].id@,
            false,
        ).contains((#[trigger] required[k])@)
}

pub(crate) proof fn lemma_all_on(m: RustModel, i: int, required: Seq<String>)
    ensures
        crate::plan::features_met(m, i, texts(required)) <==> all_on(m, i, required),
{
    let list = texts(required);
    if crate::plan::features_met(m, i, list) {
        assert forall|k: int| 0 <= k < required.len() implies m.feature_map.features_of(
            m.packages@[i].id@,
            false,
        ).contains((#[trigger] required[k])@) by {
            assert(list[k] == required[k]@);
        }
    }
    if all_on(m, i, required) {
        assert forall|k: int| 0 <= k < list.len() implies m.feature_map.features_of(
            m.packages@[i].id@,
            false,
        ).contains(#[trigger] list[k]) by {
            assert(list[k] == required[k]@);
        }
    }
}

proof fn lemma_bins_in(m: RustModel, i: int, n: int, k: int)
    requires
        0 <= k < n,
    ensures
        bin_targets(m, i, n).contains(Target::Bin(i, k)) <==> crate::plan::features_met(
            m,
            i,
            texts(m.packages@[i].bins@[k].required_features@),
        ),
    decreases n,
{
    let t = Target::Bin(i, k);
    let all = bin_targets(m, i, n);
    let before = bin_targets(m, i, n - 1);
    if k == n - 1 {
        lemma_bins_below(m, i, n - 1);
        if all.contains(t) {
            let x = choose|x: int| 0 <= x < all.len() && all[x] == t;
            if x < before.len() {
                assert(before[x] == t);
            }
        }
        if crate::plan::features_met(m, i, texts(m.packages@[i].bins@[k].required_features@)) {
            assert(all[before.len() as int] == t);
        }
    } else {
        lemma_bins_in(m, i, n - 1, k);
        if before.contains(t) {
            let x = choose|x: int| 0 <= x < before.len() && before[x] == t;
            assert(all[x] == t);
        }
        if all.contains(t) {
            let x = choose|x: int| 0 <= x < all.len() && all[x] == t;
            assert(before[x] == t);
        }
    }
}

proof fn lemma_bins_below(m: RustModel, i: int, n: int)
    ensures
        forall|x: int|
            0 <= x < bin_targets(m, i, n).len() ==> (#[trigger] bin_targets(
                m,
                i,
                n,
            )[x] matches Target::Bin(a, b) && a == i && b < n),
    decreases n,
{
    if n > 0 {
        lemma_bins_below(m, i, n - 1);
    }
}

proof fn lemma_all_bins(m: RustModel, n: int, i: int, k: int)
    requires
        0 <= i < n,
        0 <= k < m.packages@[i].bins@.len(),
    ensures
        all_bins(m, n).contains(Target::Bin(i, k)) <==> crate::plan::features_met(
            m,
            i,
            texts(m.packages@[i].bins@[k].required_features@),
        ),
    decreases n,
{
    let t = Target::Bin(i, k);
    let all = all_bins(m, n);
    let before = all_bins(m, n - 1);
    let len = m.packages@[n - 1].bins@.len() as int;
    let mine = bin_targets(m, n - 1, len);
    lemma_bins_below(m, n - 1, len);
    if i == n - 1 {
        lemma_bins_in(m, i, len, k);
        lemma_all_bins_below(m, n - 1);
        if mine.contains(t) {
            let x = choose|x: int| 0 <= x < mine.len() && mine[x] == t;
            assert(all[before.len() + x] == t);
        }
        if all.contains(t) {
            let x = choose|x: int| 0 <= x < all.len() && all[x] == t;
            if x < before.len() {
                assert(before[x] == t);
            } else {
                assert(mine[x - before.len()] == t);
            }
        }
    } else {
        lemma_all_bins(m, n - 1, i, k);
        if before.contains(t) {
            let x = choose|x: int| 0 <= x < before.len() && before[x] == t;
            assert(all[x] == t);
        }
        if all.contains(t) {
            let x = choose|x: int| 0 <= x < all.len() && all[x] == t;
            if x < before.len() {
                assert(before[x] == t);
            } else {
                assert(mine[x - before.len()] == t);
            }
        }
    }
}

proof fn lemma_all_bins_below(m: RustModel, n: int)
    ensures
        forall|x: int|
            0 <= x < all_bins(m, n).len() ==> (#[trigger] all_bins(m, n)[x] matches Target::Bin(
                a,
                _,
            ) && a < n),
    decreases n,
{
    if n > 0 {
        lemma_all_bins_below(m, n - 1);
        let len = m.packages@[n - 1].bins@.len() as int;
        lemma_bins_below(m, n - 1, len);
        let before = all_bins(m, n - 1);
        let mine = bin_targets(m, n - 1, len);
        assert forall|x: int| 0 <= x < all_bins(m, n).len() implies (
        #[trigger] all_bins(m, n)[x] matches Target::Bin(a, _) && a < n) by {
            if x < before.len() {
                assert(all_bins(m, n)[x] == before[x]);
            } else {
                assert(all_bins(m, n)[x] == mine[x - before.len()]);
            }
        }
    }
}

proof fn lemma_no_bins(p: Planner<'_>, n: int, x: int)
    requires
        0 <= n,
        0 <= x < all_libs(p, n).len(),
    ensures
        !(all_libs(p, n)[x] is Bin),
        !(all_libs(p, n)[x] is Example),
        !(all_libs(p, n)[x] is TestCompile),
        !(all_libs(p, n)[x] is TestRun),
    decreases n,
{
    let before = all_libs(p, n - 1);
    let mine = lib_targets(p, n - 1);
    if n > 0 {
        if x < before.len() {
            lemma_no_bins(p, n - 1, x);
            assert(all_libs(p, n)[x] == before[x]);
        } else {
            let y = x - before.len();
            let near = side_targets(*p.model, n - 1, false);
            assert(all_libs(p, n)[x] == mine[y]);
            if y < near.len() {
                assert(mine[y] == near[y]);
            } else {
                assert(mine[y] == side_targets(*p.model, n - 1, true)[y - near.len()]);
            }
        }
    }
}

proof fn lemma_no_bins_in_tests(m: RustModel, n: int, x: int)
    requires
        0 <= n,
        0 <= x < all_tests(m, n).len(),
    ensures
        !(all_tests(m, n)[x] is Bin),
    decreases n,
{
    if n > 0 {
        let before = all_tests(m, n - 1);
        let ex = example_targets(m, n - 1, m.packages@[n - 1].examples@.len() as int);
        let te = test_targets(m, n - 1, m.packages@[n - 1].tests@.len() as int);
        if x < before.len() {
            lemma_no_bins_in_tests(m, n - 1, x);
            assert(all_tests(m, n)[x] == before[x]);
        } else if x < before.len() + ex.len() {
            lemma_no_bins_in_examples(m, n - 1, m.packages@[n - 1].examples@.len() as int);
            assert(all_tests(m, n)[x] == ex[x - before.len()]);
        } else {
            lemma_no_bins_in_list(m, n - 1, m.packages@[n - 1].tests@.len() as int);
            assert(all_tests(m, n)[x] == te[x - before.len() - ex.len()]);
        }
    }
}

proof fn lemma_no_bins_in_examples(m: RustModel, i: int, n: int)
    ensures
        forall|x: int|
            0 <= x < example_targets(m, i, n).len() ==> (#[trigger] example_targets(m, i, n)[x]
                matches Target::Example(a, b) && a == i && b < n),
    decreases n,
{
    if n > 0 {
        lemma_no_bins_in_examples(m, i, n - 1);
    }
}

proof fn lemma_no_bins_in_list(m: RustModel, i: int, n: int)
    ensures
        forall|x: int|
            0 <= x < test_targets(m, i, n).len() ==> (#[trigger] test_targets(m, i, n)[x]
                is TestCompile || test_targets(m, i, n)[x] is TestRun),
    decreases n,
{
    if n > 0 {
        lemma_no_bins_in_list(m, i, n - 1);
    }
}

/// A binary is planned exactly where all features that it requires are on.
pub proof fn binaries_are_planned_by_their_features(p: Planner<'_>, i: int, k: int)
    requires
        0 <= i < p.model.packages@.len(),
        0 <= k < p.model.packages@[i].bins@.len(),
    ensures
        all_targets(p).contains(Target::Bin(i, k)) <==> all_on(
            *p.model,
            i,
            p.model.packages@[i].bins@[k].required_features@,
        ),
{
    let m = *p.model;
    let n = m.packages@.len() as int;
    let t = Target::Bin(i, k);
    let all = all_targets(p);
    let (a, b) = (all_libs(p, n), all_bins(m, n));
    lemma_all_bins(m, n, i, k);
    lemma_all_on(m, i, m.packages@[i].bins@[k].required_features@);
    if b.contains(t) {
        let x = choose|x: int| 0 <= x < b.len() && b[x] == t;
        assert(all[a.len() + x] == t);
    }
    if all.contains(t) {
        let x = choose|x: int| 0 <= x < all.len() && all[x] == t;
        if x < a.len() {
            lemma_no_bins(p, n, x);
            assert(all[x] == a[x]);
        } else if x < a.len() + b.len() {
            assert(b[x - a.len()] == t);
        } else {
            lemma_no_bins_in_tests(m, n, x - a.len() - b.len());
            assert(all[x] == all_tests(m, n)[x - a.len() - b.len()]);
        }
    }
}

/// Examples and tests are planned in test builds only.
pub proof fn tests_are_planned_in_test_builds(p: Planner<'_>, t: Target)
    requires
        all_targets(p).contains(t),
        t is Example || t is TestCompile || t is TestRun,
    ensures
        p.tests_enabled,
{
    let m = *p.model;
    let n = m.packages@.len() as int;
    let all = all_targets(p);
    let (a, b) = (all_libs(p, n), all_bins(m, n));
    let x = choose|x: int| 0 <= x < all.len() && all[x] == t;
    if x < a.len() {
        lemma_no_bins(p, n, x);
        assert(all[x] == a[x]);
    } else if x < a.len() + b.len() {
        lemma_all_bins_below(m, n);
        assert(all[x] == b[x - a.len()]);
    }
}

proof fn lemma_tests_in(m: RustModel, i: int, n: int, k: int)
    requires
        0 <= k < n,
        crate::plan::features_met(m, i, texts(m.packages@[i].tests@[k].required_features@)),
    ensures
        test_targets(m, i, n).contains(Target::TestCompile(i, k)),
        test_targets(m, i, n).contains(Target::TestRun(i, k)),
    decreases n,
{
    let all = test_targets(m, i, n);
    let before = test_targets(m, i, n - 1);
    let (s, t) = (Target::TestCompile(i, k), Target::TestRun(i, k));
    if k < n - 1 {
        lemma_tests_in(m, i, n - 1, k);
        let x = choose|x: int| 0 <= x < before.len() && before[x] == s;
        let y = choose|y: int| 0 <= y < before.len() && before[y] == t;
        assert(all[x] == s);
        assert(all[y] == t);
    } else {
        assert(all[before.len() as int] == s);
        assert(all[before.len() as int + 1] == t);
    }
}

proof fn lemma_examples_in(m: RustModel, i: int, n: int, k: int)
    requires
        0 <= k < n,
        crate::plan::features_met(m, i, texts(m.packages@[i].examples@[k].required_features@)),
    ensures
        example_targets(m, i, n).contains(Target::Example(i, k)),
    decreases n,
{
    let all = example_targets(m, i, n);
    let before = example_targets(m, i, n - 1);
    let s = Target::Example(i, k);
    if k < n - 1 {
        lemma_examples_in(m, i, n - 1, k);
        let x = choose|x: int| 0 <= x < before.len() && before[x] == s;
        assert(all[x] == s);
    } else {
        assert(all[before.len() as int] == s);
    }
}

proof fn lemma_all_tests(m: RustModel, n: int, i: int, t: Target)
    requires
        0 <= i < n,
        test_targets(m, i, m.packages@[i].tests@.len() as int).contains(t) || example_targets(
            m,
            i,
            m.packages@[i].examples@.len() as int,
        ).contains(t),
    ensures
        all_tests(m, n).contains(t),
    decreases n,
{
    let before = all_tests(m, n - 1);
    let all = all_tests(m, n);
    let ex = example_targets(m, n - 1, m.packages@[n - 1].examples@.len() as int);
    let te = test_targets(m, n - 1, m.packages@[n - 1].tests@.len() as int);
    if i < n - 1 {
        lemma_all_tests(m, n - 1, i, t);
        let x = choose|x: int| 0 <= x < before.len() && before[x] == t;
        assert(all[x] == t);
    } else if ex.contains(t) {
        let x = choose|x: int| 0 <= x < ex.len() && ex[x] == t;
        assert(all[before.len() + x] == t);
    } else {
        let x = choose|x: int| 0 <= x < te.len() && te[x] == t;
        assert(all[before.len() + ex.len() + x] == t);
    }
}

/// In a test build each test whose required features are on is compiled and run,
/// and each such example is compiled.
pub proof fn test_builds_have_their_tests(p: Planner<'_>, i: int, k: int)
    requires
        p.tests_enabled,
        0 <= i < p.model.packages@.len(),
    ensures
        0 <= k < p.model.packages@[i].tests@.len() && all_on(
            *p.model,
            i,
            p.model.packages@[i].tests@[k].required_features@,
        ) ==> all_targets(p).contains(Target::TestCompile(i, k)) && all_targets(p).contains(
            Target::TestRun(i, k),
        ),
        0 <= k < p.model.packages@[i].examples@.len() && all_on(
            *p.model,
            i,
            p.model.packages@[i].examples@[k].required_features@,
        ) ==> all_targets(p).contains(Target::Example(i, k)),
{
    let m = *p.model;
    let n = m.packages@.len() as int;
    let all = all_targets(p);
    let tests = all_tests(m, n);
    let at = all_libs(p, n).len() + all_bins(m, n).len();
    if 0 <= k < m.packages@[i].tests@.len() && all_on(
        m,
        i,
        m.packages@[i].tests@[k].required_features@,
    ) {
        lemma_all_on(m, i, m.packages@[i].tests@[k].required_features@);
        lemma_tests_in(m, i, m.packages@[i].tests@.len() as int, k);
        let (s, t) = (Target::TestCompile(i, k), Target::TestRun(i, k));
        lemma_all_tests(m, n, i, s);
        lemma_all_tests(m, n, i, t);
        let x = choose|x: int| 0 <= x < tests.len() && tests[x] == s;
        let y = choose|y: int| 0 <= y < tests.len() && tests[y] == t;
        assert(all[at + x] == s);
        assert(all[at + y] == t);
    }
    if 0 <= k < m.packages@[i].examples@.len() && all_on(
        m,
        i,
        m.packages@[i].examples@[k].required_features@,
    ) {
        lemma_all_on(m, i, m.packages@[i].examples@[k].required_features@);
        lemma_examples_in(m, i, m.packages@[i].examples@.len() as int, k);
        let s = Target::Example(i, k);
        lemma_all_tests(m, n, i, s);
        let x = choose|x: int| 0 <= x < tests.len() && tests[x] == s;
        assert(all[at + x] == s);
    }
}

proof fn lemma_lib_in(p: Planner<'_>, n: int, i: int, t: Target)
    requires
        0 <= i < n,
        lib_targets(p, i).contains(t),
    ensures
        all_libs(p, n).contains(t),
    decreases n,
{
    let before = all_libs(p, n - 1);
    let all = all_libs(p, n);
    if i < n - 1 {
        lemma_lib_in(p, n - 1, i, t);
        let x = choose|x: int| 0 <= x < before.len() && before[x] == t;
        assert(all[x] == t);
    } else {
        let mine = lib_targets(p, i);
        let x = choose|x: int| 0 <= x < mine.len() && mine[x] == t;
        assert(all[before.len() + x] == t);
    }
}

proof fn lemma_side_in(p: Planner<'_>, i: int, host: bool, t: Target)
    requires
        0 <= i < p.model.packages@.len(),
        host ==> hosted(p, i),
        side_targets(*p.model, i, host).contains(t),
    ensures
        all_targets(p).contains(t),
{
    let m = *p.model;
    let n = m.packages@.len() as int;
    let side = side_targets(m, i, host);
    let x = choose|x: int| 0 <= x < side.len() && side[x] == t;
    let mine = lib_targets(p, i);
    if host {
        assert(mine[side_targets(m, i, false).len() + x] == t);
    } else {
        assert(mine[x] == t);
    }
    lemma_lib_in(p, n, i, t);
    let libs = all_libs(p, n);
    let y = choose|y: int| 0 <= y < libs.len() && libs[y] == t;
    assert(all_targets(p)[y] == t);
}

/// Every library is planned for the target as each of its crate types, as an rlib
/// where it names none; every build script is compiled and run. A package that host
/// units need has all of that for the host too, and a proc macro is planned for the
/// host.
pub proof fn libraries_and_scripts_are_planned(
    p: Planner<'_>,
    i: int,
    host: bool,
    t: CrateType,
)
    requires
        0 <= i < p.model.packages@.len(),
        host ==> hosted(p, i),
    ensures
        ({
            let package = p.model.packages@[i];
            &&& package.build_script is Some ==> all_targets(p).contains(
                Target::ScriptCompile(i, host),
            ) && all_targets(p).contains(Target::ScriptRun(i, host))
            &&& package.lib matches Some(lib) ==> {
                &&& !lib.proc_macro && lib.crate_types@.contains(t) ==> all_targets(p).contains(
                    Target::Lib(i, t, host),
                )
                &&& !lib.proc_macro && lib.crate_types@.len() == 0 ==> all_targets(p).contains(
                    Target::Lib(i, CrateType::Rlib, host),
                )
                &&& lib.proc_macro && host ==> all_targets(p).contains(Target::Macro(i))
            }
        }),
{
    let m = *p.model;
    let package = m.packages@[i];
    let side = side_targets(m, i, host);
    let scripts: int = if package.build_script is Some {
        2
    } else {
        0
    };
    if package.build_script is Some {
        assert(side[0] == Target::ScriptCompile(i, host));
        assert(side[1] == Target::ScriptRun(i, host));
        lemma_side_in(p, i, host, Target::ScriptCompile(i, host));
        lemma_side_in(p, i, host, Target::ScriptRun(i, host));
    }
    if let Some(lib) = package.lib {
        if lib.proc_macro {
            if host {
                assert(side[scripts] == Target::Macro(i));
                lemma_side_in(p, i, host, Target::Macro(i));
            }
        } else if lib.crate_types@.len() == 0 {
            assert(types_of(lib.crate_types@)[0] == CrateType::Rlib);
            assert(side[scripts] == Target::Lib(i, CrateType::Rlib, host));
            lemma_side_in(p, i, host, Target::Lib(i, CrateType::Rlib, host));
        } else if lib.crate_types@.contains(t) {
            let x = choose|x: int| 0 <= x < lib.crate_types@.len() && lib.crate_types@[x] == t;
            assert(types_of(lib.crate_types@)[x] == t);
            assert(side[scripts + x] == Target::Lib(i, t, host));
            lemma_side_in(p, i, host, Target::Lib(i, t, host));
        }
    }
}

// ---- What is linked ---------------------------------------------------------------

/// Whether a unit is the library of a package that dependents link: a proc macro, or
/// the library for the same side as an rlib where it is one.
pub open spec fn links_library(p: Planner<'_>, j: int, host: bool, action: Seq<char>) -> bool {
    p.model.packages@[j].lib matches Some(lib) && {
        &&& lib.proc_macro ==> action == "rust:proc-macro:"@ + label_of(*p.model, j)
        &&& !lib.proc_macro && (lib.crate_types@.len() == 0 || lib.crate_types@.contains(
            CrateType::Rlib,
        )) ==> action == "rust:lib:"@ + label_of(*p.model, j) + ":"@ + "rlib"@ + side_word(host)
        &&& !lib.proc_macro && lib.crate_types@.len() > 0 ==> exists|t: CrateType|
            lib.crate_types@.contains(t) && action == "rust:lib:"@ + label_of(*p.model, j) + ":"@
                + #[trigger] type_word(t) + side_word(host)
    }
}

proof fn lemma_linked(p: Planner<'_>, j: int, name: Seq<char>, host: bool)
    requires
        p.model.packages@[j].lib is Some,
        linked_dep(p, j, name, host) is Ok,
    ensures
        linked_dep(p, j, name, host)->Ok_0 is Rust,
        linked_dep(p, j, name, host)->Ok_0->extern_name == name,
        links_library(p, j, host, linked_dep(p, j, name, host)->Ok_0->action),
{
    let lib = p.model.packages@[j].lib->0;
    let t = crate::units::linked_type(lib.crate_types@);
    assert(crate_type_text(t) == type_word(t));
    let all = types_of(lib.crate_types@);
    if !lib.proc_macro {
        if lib.crate_types@.len() == 0 {
            assert(all[0] == CrateType::Rlib);
            assert(all.contains(CrateType::Rlib));
        } else {
            if !all.contains(CrateType::Rlib) && !all.contains(CrateType::Staticlib)
                && !all.contains(CrateType::Cdylib) {
                assert(all[0] == CrateType::Dylib);
            }
            assert(lib.crate_types@.contains(t));
        }
    }
}

proof fn lemma_specs(p: Planner<'_>, i: int, kind: EdgeKind, host: bool, n: int)
    requires
        0 <= n <= dep_list(p.model.packages@[i], kind).len(),
        specs_upto(p, i, kind, host, n) is Ok,
    ensures
        forall|k: int|
            #![trigger dep_list(p.model.packages@[i], kind)[k]]
            0 <= k < n && is_live(p, i, dep_list(p.model.packages@[i], kind)[k]) && !native(
                *p.model,
                dep_list(p.model.packages@[i], kind)[k].package.name@,
            ) ==> exists|x: int|
                0 <= x < specs_upto(p, i, kind, host, n)->Ok_0.len() && is_linked_edge(
                    p,
                    dep_list(p.model.packages@[i], kind)[k],
                    host,
                    #[trigger] specs_upto(p, i, kind, host, n)->Ok_0[x],
                ),
        forall|x: int|
            #![trigger specs_upto(p, i, kind, host, n)->Ok_0[x]]
            0 <= x < specs_upto(p, i, kind, host, n)->Ok_0.len() ==> specs_upto(
                p,
                i,
                kind,
                host,
                n,
            )->Ok_0[x] is Native || exists|k: int|
                0 <= k < n && is_live(
                    p,
                    i,
                    #[trigger] dep_list(p.model.packages@[i], kind)[k],
                ) && is_linked_edge(
                    p,
                    dep_list(p.model.packages@[i], kind)[k],
                    host,
                    specs_upto(p, i, kind, host, n)->Ok_0[x],
                ),
    decreases n,
{
    if n > 0 {
        let deps = dep_list(p.model.packages@[i], kind);
        lemma_specs(p, i, kind, host, n - 1);
        let before = specs_upto(p, i, kind, host, n - 1)->Ok_0;
        let after = specs_upto(p, i, kind, host, n)->Ok_0;
        let dep = deps[n - 1];
        if is_live(p, i, dep) && !native(*p.model, dep.package.name@) {
            lemma_find(p.model.packages@, dep.package@);
            let j = find(p.model.packages@, dep.package@)->0;
            lemma_linked(p, j, dep.extern_name@, host);
            assert(is_linked_edge(p, dep, host, after[before.len() as int]));
        }
        assert forall|k: int|
            #![trigger deps[k]]
            0 <= k < n && is_live(p, i, deps[k]) && !native(
                *p.model,
                deps[k].package.name@,
            ) implies exists|x: int|
            0 <= x < after.len() && is_linked_edge(p, deps[k], host, #[trigger] after[x]) by {
            if k < n - 1 {
                let x = choose|x: int|
                    0 <= x < before.len() && is_linked_edge(
                        p,
                        deps[k],
                        host,
                        #[trigger] before[x],
                    );
                assert(after[x] == before[x]);
            } else {
                assert(is_linked_edge(p, deps[k], host, after[before.len() as int]));
            }
        }
        assert forall|x: int|
            #![trigger after[x]]
            0 <= x < after.len() implies after[x] is Native || exists|k: int|
            0 <= k < n && is_live(p, i, #[trigger] deps[k]) && is_linked_edge(
                p,
                deps[k],
                host,
                after[x],
            ) by {
            if x < before.len() {
                assert(after[x] == before[x]);
                if !(after[x] is Native) {
                    let k = choose|k: int|
                        0 <= k < n - 1 && is_live(p, i, #[trigger] deps[k]) && is_linked_edge(
                            p,
                            deps[k],
                            host,
                            before[x],
                        );
                    assert(is_live(p, i, deps[k]));
                }
            } else {
                assert(is_live(p, i, deps[n - 1]));
            }
        }
    }
}

/// Whether an edge counts: it is not optional or the features turn it on, and it is
/// for no other target than the host.
pub open spec fn is_live(p: Planner<'_>, i: int, dep: Dep) -> bool {
    edge_live(*p.model, *p.disk, p.toolchain.host_triple@, i, dep)
}

/// Whether a resolved dependency is the library that an edge leads to, under the
/// name that the edge gives it.
pub open spec fn is_linked_edge(p: Planner<'_>, dep: Dep, host: bool, d: DepSpecView) -> bool {
    &&& d is Rust
    &&& d->extern_name == dep.extern_name@
    &&& exists|j: int|
        0 <= j < p.model.packages@.len() && (#[trigger] p.model.packages@[j]).id@
            == dep.package@ && links_library(p, j, host, d->action)
}

/// Whether the edges of a list are linked, each live one of them.
pub open spec fn links_list(
    p: Planner<'_>,
    i: int,
    kind: EdgeKind,
    host: bool,
    all: Seq<DepSpecView>,
) -> bool {
    forall|k: int|
        #![trigger dep_list(p.model.packages@[i], kind)[k]]
        0 <= k < dep_list(p.model.packages@[i], kind).len() && is_live(
            p,
            i,
            dep_list(p.model.packages@[i], kind)[k],
        ) && !native(*p.model, dep_list(p.model.packages@[i], kind)[k].package.name@)
            ==> exists|x: int|
            0 <= x < all.len() && is_linked_edge(
                p,
                dep_list(p.model.packages@[i], kind)[k],
                host,
                #[trigger] all[x],
            )
}

/// Whether a resolved dependency is that of a live edge of a list.
pub open spec fn from_list(
    p: Planner<'_>,
    i: int,
    kind: EdgeKind,
    host: bool,
    d: DepSpecView,
) -> bool {
    exists|k: int|
        0 <= k < dep_list(p.model.packages@[i], kind).len() && is_live(
            p,
            i,
            #[trigger] dep_list(p.model.packages@[i], kind)[k],
        ) && is_linked_edge(p, dep_list(p.model.packages@[i], kind)[k], host, d)
}

/// What the units of each kind of target link: build scripts their build
/// dependencies; libraries and proc macros their normal ones; binaries also their
/// package's own library; examples and tests that, and dev-dependencies.
pub open spec fn needs_kind(t: Target, kind: EdgeKind) -> bool {
    match t {
        Target::ScriptCompile(..) => kind == EdgeKind::Build,
        Target::Macro(..) => kind == EdgeKind::Normal,
        Target::Lib(..) => kind == EdgeKind::Normal,
        Target::Bin(..) => kind == EdgeKind::Normal,
        Target::Example(..) => kind != EdgeKind::Build,
        Target::TestCompile(..) => kind != EdgeKind::Build,
        _ => false,
    }
}

/// Whether units of a kind of target link their package's own library.
pub open spec fn needs_own(t: Target) -> bool {
    t is Bin || t is Example || t is TestCompile
}

proof fn lemma_from_parts(
    all: Seq<DepSpecView>,
    part: Seq<DepSpecView>,
    at: int,
    p: Planner<'_>,
    i: int,
    kind: EdgeKind,
    host: bool,
)
    requires
        0 <= at,
        at + part.len() <= all.len(),
        all.subrange(at, at + part.len()) == part,
        links_list(p, i, kind, host, part),
    ensures
        links_list(p, i, kind, host, all),
{
    let deps = dep_list(p.model.packages@[i], kind);
    assert forall|k: int|
        #![trigger deps[k]]
        0 <= k < deps.len() && is_live(p, i, deps[k]) && !native(
            *p.model,
            deps[k].package.name@,
        ) implies exists|x: int|
        0 <= x < all.len() && is_linked_edge(p, deps[k], host, #[trigger] all[x]) by {
        let x = choose|x: int|
            0 <= x < part.len() && is_linked_edge(p, deps[k], host, #[trigger] part[x]);
        assert(all.subrange(at, at + part.len())[x] == part[x]);
        assert(all[at + x] == part[x]);
    }
}

/// A compilation links the libraries of exactly the edges that count for it, each
/// under the name that the edge gives it; binaries, examples and tests also their
/// package's own library, under its crate's name. What is compiled for the host
/// links libraries for the host.
pub proof fn compilations_link_their_edges(p: Planner<'_>, u: Unit, t: Target, c: CompileUnit)
    requires
        unit_is(u, p, t),
        u.kind == UnitKind::Compile(c),
    ensures
        ({
            let i = u.package as int;
            let all = dep_specs_view(c.deps@);
            &&& forall|kind: EdgeKind| #[trigger]
                needs_kind(t, kind) ==> links_list(p, i, kind, c.host, all)
            &&& needs_own(t) && p.model.packages@[i].lib is Some ==> exists|x: int|
                0 <= x < all.len() && is_own(p, i, c.host, #[trigger] all[x])
            &&& forall|x: int|
                0 <= x < all.len() ==> (#[trigger] all[x]) is Native || (needs_own(t) && is_own(
                    p,
                    i,
                    c.host,
                    all[x],
                )) || exists|kind: EdgeKind| #[trigger]
                    needs_kind(t, kind) && from_list(p, i, kind, c.host, all[x])
        }),
{
    let i = u.package as int;
    let q = crate::plan::request_of(*p.model, t);
    let needs = q.needs;
    let h = c.host;
    let all = dep_specs_view(c.deps@);
    assert(specs_of(p, i, needs, h) == Ok::<Seq<DepSpecView>, PlanFault>(all));
    let own = own_spec(p, i, needs, h)->Ok_0;
    let a = list_specs(p, i, needs, EdgeKind::Normal, h)->Ok_0;
    let b = list_specs(p, i, needs, EdgeKind::Build, h)->Ok_0;
    let d = list_specs(p, i, needs, EdgeKind::Dev, h)->Ok_0;
    assert(all == own + a + b + d);
    if needs.normal {
        lemma_specs(p, i, EdgeKind::Normal, h, dep_list(p.model.packages@[i], EdgeKind::Normal).len() as int);
        assert(all.subrange(own.len() as int, own.len() as int + a.len()) =~= a);
        lemma_from_parts(all, a, own.len() as int, p, i, EdgeKind::Normal, h);
    }
    if needs.build {
        lemma_specs(p, i, EdgeKind::Build, h, dep_list(p.model.packages@[i], EdgeKind::Build).len() as int);
        let at = own.len() as int + a.len();
        assert(all.subrange(at, at + b.len()) =~= b);
        lemma_from_parts(all, b, at, p, i, EdgeKind::Build, h);
    }
    if needs.dev {
        lemma_specs(p, i, EdgeKind::Dev, h, dep_list(p.model.packages@[i], EdgeKind::Dev).len() as int);
        let at = own.len() as int + a.len() + b.len();
        assert(all.subrange(at, at + d.len()) =~= d);
        lemma_from_parts(all, d, at, p, i, EdgeKind::Dev, h);
    }
    if needs.own && p.model.packages@[i].lib is Some {
        lemma_linked(p, i, lib_crate_text(p.model.packages@[i]), h);
        assert(all[0] == own[0]);
        assert(is_own(p, i, h, all[0]));
    }
    assert forall|x: int| 0 <= x < all.len() implies (#[trigger] all[x]) is Native || (needs_own(
        t,
    ) && is_own(p, i, h, all[x])) || exists|kind: EdgeKind| #[trigger]
        needs_kind(t, kind) && from_list(p, i, kind, h, all[x]) by {
        if x < own.len() {
            assert(all[x] == own[x]);
        } else if x < own.len() + a.len() {
            assert(all[x] == a[x - own.len()]);
            assert(needs_kind(t, EdgeKind::Normal));
        } else if x < own.len() + a.len() + b.len() {
            assert(all[x] == b[x - own.len() - a.len()]);
            assert(needs_kind(t, EdgeKind::Build));
        } else {
            assert(all[x] == d[x - own.len() - a.len() - b.len()]);
            assert(needs_kind(t, EdgeKind::Dev));
        }
    }
}

/// Whether a resolved dependency is a package's own library, under its crate's name.
pub open spec fn is_own(p: Planner<'_>, i: int, host: bool, d: DepSpecView) -> bool {
    d is Rust && lib_named(p, i, d->extern_name) && links_library(p, i, host, d->action)
}

/// Dependents look for the very file that a library's unit writes.
pub proof fn dependents_find_what_libraries_write(
    p: Planner<'_>,
    u: Unit,
    j: int,
    t: CrateType,
    host: bool,
    name: Seq<char>,
)
    requires
        0 <= j < p.model.packages@.len(),
        p.model.packages@[j].lib is Some,
        linked_dep(p, j, name, host) is Ok,
        p.model.packages@[j].lib->0.proc_macro ==> unit_is(u, p, Target::Macro(j)),
        !p.model.packages@[j].lib->0.proc_macro ==> unit_is(u, p, Target::Lib(j, t, host)) && u.id@
            == linked_dep(p, j, name, host)->Ok_0->action,
    ensures
        u.kind is Compile,
        u.id@ == linked_dep(p, j, name, host)->Ok_0->action,
        u.kind->Compile_0.output@ == linked_dep(p, j, name, host)->Ok_0->file,
{
    lemma_type_words();
    let lib = p.model.packages@[j].lib->0;
    if !lib.proc_macro {
        let linked = crate::units::linked_type(lib.crate_types@);
        let label = "rust:lib:"@ + label_of(*p.model, j) + ":"@;
        let a = label + crate_type_text(t) + side_word(host);
        let b = label + crate_type_text(linked) + side_word(host);
        assert(a == b);
        let n = label.len() as int;
        assert(crate_type_text(t) =~= a.subrange(n, a.len() - side_word(host).len()));
        assert(crate_type_text(linked) =~= b.subrange(n, b.len() - side_word(host).len()));
    }
}

/// An edge counts exactly where it is for the host, or for any, and it is not
/// optional or the features turn it on.
pub proof fn optional_edges_need_their_feature(p: Planner<'_>, i: int, dep: Dep)
    ensures
        dep.target is None && !dep.optional ==> is_live(p, i, dep),
        dep.optional && !p.model.feature_map.edge_on(
            p.model.packages@[i].id@,
            dep.extern_name@,
        ) ==> !is_live(p, i, dep),
        dep.target is None && dep.optional && p.model.feature_map.edge_on(
            p.model.packages@[i].id@,
            dep.extern_name@,
        ) ==> is_live(p, i, dep),
{
}

proof fn lemma_links(p: Planner<'_>, i: int, host: bool, n: int, k: int)
    requires
        0 <= k < n <= p.model.packages@[i].deps@.len(),
    ensures
        ({
            let dep = p.model.packages@[i].deps@[k];
            is_live(p, i, dep) && !native(*p.model, dep.package.name@) ==> (find(
                p.model.packages@,
                dep.package@,
            ) matches Some(j) ==> p.model.packages@[j].links is Some
                && p.model.packages@[j].build_script is Some ==> links_upto(p, i, host, n).contains(
                (p.model.packages@[j].links->0@, script_run_id(*p.model, j, host)),
            ))
        }),
    decreases n,
{
    let all = links_upto(p, i, host, n);
    let before = links_upto(p, i, host, n - 1);
    let dep = p.model.packages@[i].deps@[k];
    if is_live(p, i, dep) && !native(*p.model, dep.package.name@) {
        if let Some(j) = find(p.model.packages@, dep.package@) {
            if p.model.packages@[j].links is Some && p.model.packages@[j].build_script is Some {
                let pair = (p.model.packages@[j].links->0@, script_run_id(*p.model, j, host));
                if k < n - 1 {
                    lemma_links(p, i, host, n - 1, k);
                    let x = choose|x: int| 0 <= x < before.len() && before[x] == pair;
                    assert(all[x] == pair);
                } else {
                    assert(all[before.len() as int] == pair);
                }
            }
        }
    }
}

/// The run of a build script hears the scripts of its direct dependencies that link
/// a native library, for the same side.
pub proof fn scripts_hear_those_of_dependencies(
    p: Planner<'_>,
    v: Unit,
    i: int,
    host: bool,
    k: int,
    j: int,
)
    requires
        unit_is(v, p, Target::ScriptRun(i, host)),
        0 <= k < p.model.packages@[i].deps@.len(),
        is_live(p, i, p.model.packages@[i].deps@[k]),
        !native(*p.model, p.model.packages@[i].deps@[k].package.name@),
        find(p.model.packages@, p.model.packages@[i].deps@[k].package@) == Some(j),
        p.model.packages@[j].links is Some,
        p.model.packages@[j].build_script is Some,
    ensures
        v.kind is ScriptRun,
        exists|x: int|
            0 <= x < v.kind->ScriptRun_0.links@.len() && (
            #[trigger] v.kind->ScriptRun_0.links@[x]).0@ == p.model.packages@[j].links->0@
                && v.kind->ScriptRun_0.links@[x].1@ == "rust:bs-run:"@ + label_of(*p.model, j)
                + side_word(host),
{
    let n = p.model.packages@[i].deps@.len() as int;
    lemma_links(p, i, host, n, k);
    let links = v.kind->ScriptRun_0.links@;
    let all = pairs_view(links);
    let pair = (p.model.packages@[j].links->0@, script_run_id(*p.model, j, host));
    let x = choose|x: int| 0 <= x < all.len() && all[x] == pair;
    assert(all[x] == (links[x].0@, links[x].1@));
    assert(links[x].0@ == pair.0);
}

/// A proc macro is compiled with every flag of the profile but the choice of LTO;
/// any other crate with every flag.
pub proof fn profiles_reach_their_compilations(
    p: Planner<'_>,
    u: Unit,
    t: Target,
    c: CompileUnit,
    value: Seq<char>,
)
    requires
        unit_is(u, p, t),
        u.kind == UnitKind::Compile(c),
    ensures
        c.crate_type@ != "proc-macro"@ ==> texts(c.profile_flags@) == profile_flags(p.profile@),
        in_turn(profile_flags(p.profile@), "-C"@, value) && !starts(value, "lto="@) && value
            != "-C"@ && paired_flags(profile_flags(p.profile@)) ==> in_turn(
            texts(c.profile_flags@),
            "-C"@,
            value,
        ),
{
    let flags = profile_flags(p.profile@);
    if c.crate_type@ == "proc-macro"@ && in_turn(flags, "-C"@, value) && !starts(value, "lto="@)
        && value != "-C"@ && paired_flags(flags) {
        let k = choose|k: int|
            0 <= k < flags.len() - 1 && #[trigger] flags[k] == "-C"@ && flags[k + 1] == value;
        if k % 2 == 1 {
            assert(flags[2 * (k / 2) + 1] == flags[k]);
            assert(flags[k + 1] == "-C"@) by {
                assert(flags[2 * ((k + 1) / 2)] == "-C"@);
            }
        }
        lemma_without_lto(flags, 0, k / 2);
    }
}

/// Whether flags come in pairs, each behind a `-C`.
pub open spec fn paired_flags(flags: Seq<Seq<char>>) -> bool {
    flags.len() % 2 == 0 && forall|k: int|
        0 <= k < flags.len() / 2 ==> #[trigger] flags[2 * k] == "-C"@
}

proof fn lemma_without_lto(flags: Seq<Seq<char>>, from: int, k: int)
    requires
        paired_flags(flags),
        0 <= from <= k < flags.len() / 2,
        !starts(flags[2 * k + 1], "lto="@),
        flags[2 * k + 1] != "-C"@,
    ensures
        in_turn(without_lto(flags, 2 * from), "-C"@, flags[2 * k + 1]),
    decreases flags.len() - from,
{
    assert(flags[2 * from] == "-C"@);
    let rest = without_lto(flags, 2 * from + 2);
    let all = without_lto(flags, 2 * from);
    if starts(flags[2 * from + 1], "lto="@) {
        assert(from < k);
        lemma_without_lto(flags, from + 1, k);
    } else {
        let mid = without_lto(flags, 2 * from + 1);
        let odd = flags[2 * from + 1];
        if odd == "-C"@ && 2 * from + 2 < flags.len() && starts(flags[2 * from + 2], "lto="@) {
            reveal_strlit("-C");
            reveal_strlit("lto=");
            assert(flags[2 * (from + 1)] == "-C"@);
            assert(flags[2 * from + 2].take(4)[0] == 'l');
        }
        assert(mid =~= seq![odd] + rest);
        assert(all =~= seq!["-C"@, odd] + rest);
        if from == k {
            assert(all[0] == "-C"@ && all[1] == odd);
        } else {
            lemma_without_lto(flags, from + 1, k);
            crate::action_laws::lemma_in_turn(
                seq!["-C"@, odd],
                rest,
                "-C"@,
                flags[2 * k + 1],
            );
        }
    }
}

} // verus!
