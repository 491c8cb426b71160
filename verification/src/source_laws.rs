//! What units find in their source trees, and what a build hands out.

use vstd::prelude::*;
use vstd::string::*;
use crate::digest::Digest;
use crate::graph::native_closure;
use crate::model::Package;
use crate::sources::{
    artifacts_of, artifacts_upto, metadata_of, mounted_upto, narrowed_to, native_file_name,
    parts_upto, properties_of, roots_of, ArtifactView, Mounted, NativeFile, PartView, PathFact,
    RootFact,
};
use crate::strmap::StrMap;
use crate::text::decimal;
use crate::unit_laws::{all_on, lemma_all_on};
use crate::units::{label_of, Planner};

verus! {

// ---- Narrowing --------------------------------------------------------------------

/// A script that declares nothing sees the whole tree. Any other sees what it
/// declares, in that order, and the script itself, and nothing else.
pub proof fn scripts_see_what_they_declare(declared: Seq<Seq<char>>, script: Option<Seq<char>>)
    ensures
        narrowed_to(declared, script) is None <==> declared.len() == 0,
        narrowed_to(declared, script) matches Some(paths) ==> {
            &&& declared.is_prefix_of(paths)
            &&& script matches Some(s) ==> paths.contains(s)
            &&& forall|k: int|
                declared.len() <= k < paths.len() ==> script == Some(#[trigger] paths[k])
            &&& paths.len() <= declared.len() + 1
            &&& script matches Some(s) ==> (declared.contains(s) ==> paths == declared)
        },
{
    if let Some(paths) = narrowed_to(declared, script) {
        assert(paths.subrange(0, declared.len() as int) =~= declared);
        if let Some(s) = script {
            if !declared.contains(s) {
                assert(paths[declared.len() as int] == s);
            }
        }
    }
}

/// Whether a part of a narrowed tree is a file: its directory and its name make up
/// its path; a bare name lies in the package itself.
pub open spec fn is_file_part(path: Seq<char>, part: PartView) -> bool {
    part matches PartView::File { dir, name } && {
        &&& !name.contains('/')
        &&& path.contains('/') ==> path == dir + seq!['/'] + name
        &&& !path.contains('/') ==> dir == "."@ && name == path
    }
}

proof fn lemma_file_part(path: Seq<char>)
    ensures
        is_file_part(path, crate::sources::file_part(path)),
{
    path.index_of_last_ensures('/');
    if let Some(i) = path.index_of_last('/') {
        let name = path.skip(i + 1);
        if name.contains('/') {
            let k = choose|k: int| 0 <= k < name.len() && name[k] == '/';
            assert(path[i + 1 + k] == '/');
        }
        assert(path =~= path.take(i) + seq!['/'] + name);
    }
}

/// Whether what a declared path is, is part of a narrowed tree.
pub open spec fn is_part(fact: PathFact, part: PartView) -> bool {
    match fact {
        PathFact::Directory(path) => part == PartView::Directory(path@),
        PathFact::File(path) => is_file_part(path@, part),
        _ => false,
    }
}

/// A narrowed tree has a part for each declared path and no other; a path that does
/// not exist or lies outside the package is refused.
pub proof fn narrowed_trees_hold_what_is_declared(
    package: Seq<char>,
    paths: Seq<Seq<char>>,
    facts: Seq<PathFact>,
    n: int,
)
    requires
        0 <= n <= facts.len(),
    ensures
        parts_upto(package, paths, facts, n) is Err <==> exists|k: int|
            0 <= k < n && ((#[trigger] facts[k]) is Missing || facts[k] is Outside),
        parts_upto(package, paths, facts, n) matches Ok(parts) ==> {
            &&& forall|k: int|
                #![trigger facts[k]]
                0 <= k < n ==> exists|x: int|
                    0 <= x < parts.len() && is_part(facts[k], #[trigger] parts[x])
            &&& forall|x: int|
                #![trigger parts[x]]
                0 <= x < parts.len() ==> exists|k: int|
                    0 <= k < n && is_part(#[trigger] facts[k], parts[x])
        },
    decreases n,
{
    if n > 0 {
        narrowed_trees_hold_what_is_declared(package, paths, facts, n - 1);
        let r = parts_upto(package, paths, facts, n);
        match parts_upto(package, paths, facts, n - 1) {
            Err(_) => {
                let k = choose|k: int|
                    0 <= k < n - 1 && ((#[trigger] facts[k]) is Missing || facts[k] is Outside);
                assert(0 <= k < n && (facts[k] is Missing || facts[k] is Outside));
            },
            Ok(before) => {
                if r is Err {
                    assert(facts[n - 1] is Missing || facts[n - 1] is Outside);
                } else {
                    let parts = r->Ok_0;
                    if let PathFact::File(path) = facts[n - 1] {
                        lemma_file_part(path@);
                    }
                    assert forall|k: int| #![trigger facts[k]] 0 <= k < n implies exists|x: int|
                        0 <= x < parts.len() && is_part(facts[k], #[trigger] parts[x]) by {
                        if k < n - 1 {
                            let x = choose|x: int|
                                0 <= x < before.len() && is_part(facts[k], #[trigger] before[x]);
                            assert(parts[x] == before[x]);
                        } else if parts.len() == before.len() {
                            let x = choose|x: int|
                                0 <= x < before.len() && before[x] == PartView::Directory(
                                    facts[k]->Directory_0@,
                                );
                            assert(is_part(facts[k], parts[x]));
                        } else {
                            assert(is_part(facts[k], parts[before.len() as int]));
                        }
                    }
                    assert forall|x: int|
                        #![trigger parts[x]]
                        0 <= x < parts.len() implies exists|k: int|
                        0 <= k < n && is_part(#[trigger] facts[k], parts[x]) by {
                        if x < before.len() {
                            assert(parts[x] == before[x]);
                            let k = choose|k: int|
                                0 <= k < n - 1 && is_part(#[trigger] facts[k], before[x]);
                            assert(is_part(facts[k], parts[x]));
                        } else {
                            assert(is_part(facts[n - 1], parts[x]));
                        }
                    }
                }
            },
        }
    }
}

// ---- Roots outside ----------------------------------------------------------------

/// The roots that may lie outside a package are those of its library, its binaries
/// and its build script.
pub proof fn roots_are_those_of_targets(p: Package, path: Seq<char>)
    ensures
        roots_of(p).contains(path) <==> {
            ||| p.lib is Some && p.lib->0.path@ == path
            ||| exists|k: int| 0 <= k < p.bins@.len() && (#[trigger] p.bins@[k]).path@ == path
            ||| p.build_script is Some && p.build_script->0@ == path
        },
{
    let all = roots_of(p);
    let a: int = if p.lib is Some {
        1
    } else {
        0
    };
    let n = p.bins@.len() as int;
    if all.contains(path) {
        let x = choose|x: int| 0 <= x < all.len() && all[x] == path;
        if a <= x < a + n {
            assert(p.bins@[x - a].path@ == path);
        }
    }
    if p.lib is Some && p.lib->0.path@ == path {
        assert(all[0] == path);
    }
    if exists|k: int| 0 <= k < n && (#[trigger] p.bins@[k]).path@ == path {
        let k = choose|k: int| 0 <= k < n && (#[trigger] p.bins@[k]).path@ == path;
        assert(all[a + k] == path);
    }
    if p.build_script is Some && p.build_script->0@ == path {
        assert(all[a + n] == path);
    }
}

/// Whether a root is mounted: the directory outside, and its file there.
pub open spec fn is_mounted(path: Seq<char>, fact: RootFact, at: nat, m: Mounted) -> bool {
    fact matches RootFact::Outside { parent, name } && m.parent == parent@ && m.original == path
        && m.rewritten == "ext/"@ + decimal(at) + "/"@ + name@
}

/// Each root outside its package is mounted, in a directory of its own, and none
/// else is.
pub proof fn outside_roots_are_mounted(paths: Seq<Seq<char>>, facts: Seq<RootFact>, n: int)
    requires
        0 <= n <= facts.len(),
    ensures
        ({
            let all = mounted_upto(paths, facts, n);
            &&& forall|x: int|
                #![trigger all[x]]
                0 <= x < all.len() ==> exists|k: int|
                    0 <= k < n && is_mounted(
                        paths[k],
                        #[trigger] facts[k],
                        x as nat,
                        all[x],
                    )
            &&& forall|k: int|
                0 <= k < n && (#[trigger] facts[k]) is Outside ==> exists|x: int|
                    0 <= x < all.len() && is_mounted(
                        paths[k],
                        facts[k],
                        x as nat,
                        #[trigger] all[x],
                    )
        }),
    decreases n,
{
    if n > 0 {
        outside_roots_are_mounted(paths, facts, n - 1);
        let before = mounted_upto(paths, facts, n - 1);
        let all = mounted_upto(paths, facts, n);
        assert forall|x: int| #![trigger all[x]] 0 <= x < all.len() implies exists|k: int|
            0 <= k < n && is_mounted(paths[k], #[trigger] facts[k], x as nat, all[x]) by {
            if x < before.len() {
                assert(all[x] == before[x]);
                let k = choose|k: int|
                    0 <= k < n - 1 && is_mounted(
                        paths[k],
                        #[trigger] facts[k],
                        x as nat,
                        before[x],
                    );
                assert(is_mounted(paths[k], facts[k], x as nat, all[x]));
            } else {
                assert(is_mounted(paths[n - 1], facts[n - 1], x as nat, all[x]));
            }
        }
        assert forall|k: int| 0 <= k < n && (#[trigger] facts[k]) is Outside implies exists|x: int|
            0 <= x < all.len() && is_mounted(
                paths[k],
                facts[k],
                x as nat,
                #[trigger] all[x],
            ) by {
            if k < n - 1 {
                let x = choose|x: int|
                    0 <= x < before.len() && is_mounted(
                        paths[k],
                        facts[k],
                        x as nat,
                        #[trigger] before[x],
                    );
                assert(all[x] == before[x]);
            } else {
                assert(is_mounted(
                    paths[k],
                    facts[k],
                    before.len(),
                    all[before.len() as int],
                ));
            }
        }
    }
}

// ---- Artifacts --------------------------------------------------------------------

/// Whether an artifact is a package's binary, found under its name in what its unit
/// writes.
pub open spec fn is_binary(p: Planner<'_>, i: int, k: int, a: ArtifactView) -> bool {
    let bin = p.model.packages@[i].bins@[k];
    &&& all_on(*p.model, i, bin.required_features@)
    &&& a.name == bin.name@
    &&& a.action == "rust:bin:"@ + label_of(*p.model, i) + ":"@ + bin.name@
    &&& a.output == bin.name@
}

/// Whether one of these artifacts is a package's binary.
pub open spec fn has_binary(p: Planner<'_>, i: int, k: int, all: Seq<ArtifactView>) -> bool {
    exists|x: int| 0 <= x < all.len() && is_binary(p, i, k, #[trigger] all[x])
}

/// Whether an artifact is one of the first `n` binaries of a package.
pub open spec fn is_one_of(p: Planner<'_>, i: int, n: int, a: ArtifactView) -> bool {
    exists|k: int| 0 <= k < n && #[trigger] is_binary(p, i, k, a)
}

/// Whether an artifact is a binary of one of the first `n` packages.
pub open spec fn is_handed_out(p: Planner<'_>, n: int, a: ArtifactView) -> bool {
    exists|i: int|
        0 <= i < n && #[trigger] is_one_of(p, i, p.model.packages@[i].bins@.len() as int, a)
}

/// Whether the features that a package's binary requires are on.
pub open spec fn is_ready(p: Planner<'_>, i: int, k: int) -> bool {
    all_on(*p.model, i, p.model.packages@[i].bins@[k].required_features@)
}

proof fn lemma_artifacts_of(p: Planner<'_>, files: StrMap<NativeFile>, i: int, n: int)
    requires
        0 <= n <= p.model.packages@[i].bins@.len(),
    ensures
        forall|x: int|
            0 <= x < artifacts_of(p, files, i, n).len() ==> is_one_of(
                p,
                i,
                n,
                #[trigger] artifacts_of(p, files, i, n)[x],
            ),
        forall|k: int|
            0 <= k < n && #[trigger] is_ready(p, i, k) ==> has_binary(
                p,
                i,
                k,
                artifacts_of(p, files, i, n),
            ),
    decreases n,
{
    if n > 0 {
        lemma_artifacts_of(p, files, i, n - 1);
        lemma_all_on(*p.model, i, p.model.packages@[i].bins@[n - 1].required_features@);
        let before = artifacts_of(p, files, i, n - 1);
        let all = artifacts_of(p, files, i, n);
        assert forall|x: int| 0 <= x < all.len() implies is_one_of(
            p,
            i,
            n,
            #[trigger] all[x],
        ) by {
            if x < before.len() {
                assert(all[x] == before[x]);
                assert(is_one_of(p, i, n - 1, before[x]));
                let k = choose|k: int| 0 <= k < n - 1 && #[trigger] is_binary(p, i, k, before[x]);
                assert(is_binary(p, i, k, all[x]));
            } else {
                assert(is_binary(p, i, n - 1, all[x]));
            }
        }
        assert forall|k: int| 0 <= k < n && #[trigger] is_ready(p, i, k) implies has_binary(
            p,
            i,
            k,
            all,
        ) by {
            if k < n - 1 {
                assert(has_binary(p, i, k, before));
                let x = choose|x: int|
                    0 <= x < before.len() && is_binary(p, i, k, #[trigger] before[x]);
                assert(all[x] == before[x]);
            } else {
                assert(is_binary(p, i, k, all[before.len() as int]));
            }
        }
    }
}

/// A build hands out every binary whose required features are on, and nothing else.
pub proof fn binaries_are_handed_out(p: Planner<'_>, files: StrMap<NativeFile>, n: int)
    requires
        0 <= n <= p.model.packages@.len(),
    ensures
        ({
            let all = artifacts_upto(p, files, n);
            &&& forall|x: int|
                0 <= x < all.len() ==> is_handed_out(p, n, #[trigger] all[x])
            &&& forall|i: int, k: int|
                0 <= i < n && 0 <= k < p.model.packages@[i].bins@.len() && #[trigger] is_ready(
                    p,
                    i,
                    k,
                ) ==> has_binary(p, i, k, all)
        }),
    decreases n,
{
    if n > 0 {
        binaries_are_handed_out(p, files, n - 1);
        let bins = p.model.packages@[n - 1].bins@.len() as int;
        lemma_artifacts_of(p, files, n - 1, bins);
        let before = artifacts_upto(p, files, n - 1);
        let more = artifacts_of(p, files, n - 1, bins);
        let all = artifacts_upto(p, files, n);
        assert forall|x: int| 0 <= x < all.len() implies is_handed_out(p, n, #[trigger] all[x]) by {
            if x < before.len() {
                assert(all[x] == before[x]);
                assert(is_handed_out(p, n - 1, before[x]));
                let i = choose|i: int|
                    0 <= i < n - 1 && #[trigger] is_one_of(
                        p,
                        i,
                        p.model.packages@[i].bins@.len() as int,
                        before[x],
                    );
                assert(is_one_of(p, i, p.model.packages@[i].bins@.len() as int, all[x]));
            } else {
                assert(all[x] == more[x - before.len()]);
                assert(is_one_of(p, n - 1, bins, more[x - before.len()]));
            }
        }
        assert forall|i: int, k: int|
            0 <= i < n && 0 <= k < p.model.packages@[i].bins@.len() && #[trigger] is_ready(
                p,
                i,
                k,
            ) implies has_binary(p, i, k, all) by {
            if i < n - 1 {
                assert(has_binary(p, i, k, before));
                let x = choose|x: int|
                    0 <= x < before.len() && is_binary(p, i, k, #[trigger] before[x]);
                assert(all[x] == before[x]);
            } else {
                assert(has_binary(p, i, k, more));
                let x = choose|x: int|
                    0 <= x < more.len() && is_binary(p, i, k, #[trigger] more[x]);
                assert(all[before.len() as int + x] == more[x]);
            }
        }
    }
}

/// Beside each binary of a package lie the native libraries that the package needs,
/// each under its file name, and no other files.
pub proof fn native_libraries_lie_beside_binaries(
    p: Planner<'_>,
    files: StrMap<NativeFile>,
    i: int,
    n: int,
    x: int,
)
    requires
        0 <= n <= p.model.packages@[i].bins@.len(),
        0 <= x < artifacts_of(p, files, i, n).len(),
        native_closure(*p.model, *p.disk, p.toolchain.host_triple@, i).finite(),
    ensures
        forall|f: (Digest, Seq<char>)| #[trigger]
            artifacts_of(p, files, i, n)[x].runtime.contains(f) <==> exists|name: Seq<char>|
                #[trigger]
                native_closure(*p.model, *p.disk, p.toolchain.host_triple@, i).contains(name) && f.0
                    == files@[name].blob && f.1 == files@[name].file_name@,
    decreases n,
{
    if n > 0 {
        let before = artifacts_of(p, files, i, n - 1);
        let all = artifacts_of(p, files, i, n);
        if x < before.len() {
            assert(all[x] == before[x]);
            native_libraries_lie_beside_binaries(p, files, i, n - 1, x);
        } else {
            let set = native_closure(*p.model, *p.disk, p.toolchain.host_triple@, i);
            crate::strmap::lemma_ascending_of(set);
            let names = crate::strmap::ascending_of(set);
            let run = all[x].runtime;
            assert(run.len() == names.len());
            assert forall|k: int| 0 <= k < names.len() implies #[trigger] run[k] == (
                files@[names[k]].blob,
                files@[names[k]].file_name@,
            ) by {}
            assert forall|f: (Digest, Seq<char>)| #[trigger] run.contains(f) <==> exists|
                name: Seq<char>,
            | #[trigger]
                set.contains(name) && f.0 == files@[name].blob && f.1
                    == files@[name].file_name@ by {
                if run.contains(f) {
                    let k = choose|k: int| 0 <= k < run.len() && run[k] == f;
                    assert(names.contains(names[k]));
                    assert(set.contains(names[k]));
                }
                if exists|name: Seq<char>| #[trigger]
                    set.contains(name) && f.0 == files@[name].blob && f.1
                        == files@[name].file_name@ {
                    let name = choose|name: Seq<char>| #[trigger]
                        set.contains(name) && f.0 == files@[name].blob && f.1
                            == files@[name].file_name@;
                    assert(names.contains(name));
                    let k = choose|k: int| 0 <= k < names.len() && names[k] == name;
                    assert(run[k] == f);
                }
            }
        }
    }
}

// ---- Metadata ---------------------------------------------------------------------

/// Crates of different names, profiles, kinds or hosts have different metadata.
pub proof fn crates_are_told_apart(
    p: Planner<'_>,
    q: Planner<'_>,
    a: Seq<char>,
    b: Seq<char>,
    k: Seq<char>,
    l: Seq<char>,
)
    ensures
        metadata_of(p, a, k) == metadata_of(q, b, l) <==> {
            &&& a == b
            &&& k == l
            &&& p.profile_name@ == q.profile_name@
            &&& p.toolchain.host_triple@ == q.toolchain.host_triple@
        },
        metadata_of(p, a, k).contains(a) && metadata_of(p, a, k)[0] == a,
{
    let x = metadata_of(p, a, k);
    let y = metadata_of(q, b, l);
    assert(x[0] == a && y[0] == b);
    assert(x[1] == p.profile_name@ && y[1] == q.profile_name@);
    assert(x[2] == k && y[2] == l);
    assert(x[3] == p.toolchain.host_triple@ && y[3] == q.toolchain.host_triple@);
}

/// Every action records its profile, its compiler and its sysroot, and that it runs
/// on this machine alone; so the actions of two toolchains differ.
pub proof fn actions_record_their_toolchain(p: Planner<'_>, q: Planner<'_>)
    ensures
        properties_of(p).contains(("tong.rust.profile"@, p.profile_name@)),
        properties_of(p).contains(
            ("tong.rust.rustc_verbose_version"@, p.toolchain.version_verbose@),
        ),
        properties_of(p).contains(("tong.rust.sysroot_tree"@, p.toolchain.sysroot_tree@)),
        properties_of(p).contains(("tong.execution.portable"@, "false"@)),
        properties_of(p) == properties_of(q) ==> {
            &&& p.profile_name@ == q.profile_name@
            &&& p.toolchain.version_verbose@ == q.toolchain.version_verbose@
            &&& p.toolchain.sysroot_tree@ == q.toolchain.sysroot_tree@
        },
{
    let x = properties_of(p);
    let y = properties_of(q);
    assert(x[0] == ("tong.rust.profile"@, p.profile_name@));
    assert(x[1] == ("tong.rust.rustc_verbose_version"@, p.toolchain.version_verbose@));
    assert(x[2] == ("tong.rust.sysroot_tree"@, p.toolchain.sysroot_tree@));
    assert(x[3] == ("tong.execution.portable"@, "false"@));
    assert(y[0] == ("tong.rust.profile"@, q.profile_name@));
    assert(y[1] == ("tong.rust.rustc_verbose_version"@, q.toolchain.version_verbose@));
    assert(y[2] == ("tong.rust.sysroot_tree"@, q.toolchain.sysroot_tree@));
}

/// A native library is named as the last part of its path; where that is no name,
/// `lib`.
pub proof fn native_libraries_keep_their_name(path: Seq<char>)
    ensures
        ({
            let parts = crate::paths::components_spec(path);
            &&& parts.len() > 0 && parts.last() != "/"@ && parts.last() != "."@ && parts.last()
                != ".."@ ==> native_file_name(path) == parts.last()
            &&& parts.len() == 0 ==> native_file_name(path) == "lib"@
            &&& native_file_name(path) != "/"@ && native_file_name(path) != "."@
                && native_file_name(path) != ".."@
        }),
{
    reveal_strlit("lib");
    reveal_strlit("/");
    reveal_strlit(".");
    reveal_strlit("..");
    assert("lib"@.len() == 3 && "/"@.len() == 1 && "."@.len() == 1 && ".."@.len() == 2);
}

} // verus!
