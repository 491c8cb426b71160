//! What packages lead to one another.

use vstd::prelude::*;
use vstd::string::*;
use crate::disk::Disk;
use crate::graph::{
    depth_first, edge_live, imports_native, is_path, leads, led_by, led_to, lemma_reach_root,
    lemma_reach_step, native_closure, reaches, script_order, Walk,
};
use crate::import::is_cfg;
use crate::model::{crate_type_text, profile_flags, CrateType, Dep, Package, ProfileView, RustModel};
use crate::plan::{
    hosted, host_root, natives_of, pairs_view, root_from, scripts_among, unit_deps, unit_is,
    without_lto, CompileUnit, Target, Unit, UnitKind,
};
use crate::resolution::{dep_list, edge_ok, find, native, EdgeKind};
use crate::strmap::lemma_ascending_of;
use crate::text::{starts, texts};
use crate::unit_laws::{
    all_on, in_turn, lemma_all_on, links_library, needs_kind, needs_own, side_word, type_word,
};
use crate::units::{label_of, linked_action, linked_type, links, types_of, Needs, Planner};
use crate::workspace_laws::counts_for;

verus! {

// ---- Edges ------------------------------------------------------------------------

/// Whether the features have an edge: it is not optional, or they turn it on.
pub open spec fn is_on(m: RustModel, i: int, dep: Dep) -> bool {
    dep.optional ==> m.feature_map.edge_on(m.packages@[i].id@, dep.extern_name@)
}

/// An edge for a target counts only on it, and there as any other does.
pub proof fn target_edges_need_their_host(
    m: RustModel,
    disk: Disk,
    host: Seq<char>,
    i: int,
    dep: Dep,
)
    ensures
        edge_live(m, disk, host, i, dep) ==> is_on(m, i, dep),
        edge_live(m, disk, host, i, dep) && dep.target is Some ==> counts_for(
            disk,
            dep.target->0@,
            host,
        ),
        is_on(m, i, dep) && dep.target is None ==> edge_live(m, disk, host, i, dep),
        is_on(m, i, dep) && dep.target is Some && !is_cfg(dep.target->0@) && dep.target->0@ == host
            && host.contains('-') ==> edge_live(m, disk, host, i, dep),
        is_on(m, i, dep) && dep.target is Some && is_cfg(dep.target->0@)
            && disk.cfgs@.contains_key(host) && disk.cfgs@[host]@.contains_key(dep.target->0@)
            && counts_for(disk, dep.target->0@, host) ==> edge_live(m, disk, host, i, dep),
{
}

/// Whether a package takes part in the build of another: a normal or a build edge
/// that is on leads there.
pub open spec fn builds_on(m: RustModel, i: int, j: int) -> bool {
    exists|dep: Dep|
        (m.packages@[i].deps@.contains(dep) || m.packages@[i].build_deps@.contains(dep)) && is_on(
            m,
            i,
            dep,
        ) && !native(m, dep.package.name@) && #[trigger] find(m.packages@, dep.package@) == Some(j)
}

/// Whether a package links another: a normal edge that counts leads there.
pub open spec fn links_on(m: RustModel, disk: Disk, host: Seq<char>, i: int, j: int) -> bool {
    exists|dep: Dep|
        m.packages@[i].deps@.contains(dep) && edge_live(m, disk, host, i, dep) && !native(
            m,
            dep.package.name@,
        ) && #[trigger] find(m.packages@, dep.package@) == Some(j)
}

proof fn lemma_builds_on(m: RustModel, disk: Disk, host: Seq<char>, i: int, j: int)
    requires
        0 <= i < m.packages@.len(),
    ensures
        leads(m, disk, host, Walk::Builds, i, j) <==> builds_on(m, i, j),
{
    if leads(m, disk, host, Walk::Builds, i, j) {
        let (kind, k) = choose|kind: EdgeKind, k: int|
            #![trigger dep_list(m.packages@[i], kind)[k]]
            edge_ok(m.packages@, (i, kind, k)) && crate::graph::follows(
                m,
                disk,
                host,
                Walk::Builds,
                (i, kind, k),
            ) && find(m.packages@, dep_list(m.packages@[i], kind)[k].package@) == Some(j);
        let dep = dep_list(m.packages@[i], kind)[k];
        assert(find(m.packages@, dep.package@) == Some(j));
        match kind {
            EdgeKind::Normal => {
                assert(m.packages@[i].deps@[k] == dep);
            },
            EdgeKind::Build => {
                assert(m.packages@[i].build_deps@[k] == dep);
            },
            EdgeKind::Dev => {},
        }
    }
    if builds_on(m, i, j) {
        let dep = choose|dep: Dep|
            (m.packages@[i].deps@.contains(dep) || m.packages@[i].build_deps@.contains(dep))
                && is_on(m, i, dep) && !native(m, dep.package.name@) && #[trigger] find(
                m.packages@,
                dep.package@,
            ) == Some(j);
        if m.packages@[i].deps@.contains(dep) {
            let k = choose|k: int|
                0 <= k < m.packages@[i].deps@.len() && m.packages@[i].deps@[k] == dep;
            assert(dep_list(m.packages@[i], EdgeKind::Normal)[k] == dep);
            assert(edge_ok(m.packages@, (i, EdgeKind::Normal, k)));
        } else {
            let k = choose|k: int|
                0 <= k < m.packages@[i].build_deps@.len() && m.packages@[i].build_deps@[k] == dep;
            assert(dep_list(m.packages@[i], EdgeKind::Build)[k] == dep);
            assert(edge_ok(m.packages@, (i, EdgeKind::Build, k)));
        }
    }
}

proof fn lemma_links_on(m: RustModel, disk: Disk, host: Seq<char>, i: int, j: int)
    requires
        0 <= i < m.packages@.len(),
    ensures
        leads(m, disk, host, Walk::Links, i, j) <==> links_on(m, disk, host, i, j),
{
    if leads(m, disk, host, Walk::Links, i, j) {
        let (kind, k) = choose|kind: EdgeKind, k: int|
            #![trigger dep_list(m.packages@[i], kind)[k]]
            edge_ok(m.packages@, (i, kind, k)) && crate::graph::follows(
                m,
                disk,
                host,
                Walk::Links,
                (i, kind, k),
            ) && find(m.packages@, dep_list(m.packages@[i], kind)[k].package@) == Some(j);
        let dep = dep_list(m.packages@[i], kind)[k];
        assert(m.packages@[i].deps@[k] == dep);
        assert(find(m.packages@, dep.package@) == Some(j));
    }
    if links_on(m, disk, host, i, j) {
        let dep = choose|dep: Dep|
            m.packages@[i].deps@.contains(dep) && edge_live(m, disk, host, i, dep) && !native(
                m,
                dep.package.name@,
            ) && #[trigger] find(m.packages@, dep.package@) == Some(j);
        let k = choose|k: int|
            0 <= k < m.packages@[i].deps@.len() && m.packages@[i].deps@[k] == dep;
        assert(dep_list(m.packages@[i], EdgeKind::Normal)[k] == dep);
        assert(edge_ok(m.packages@, (i, EdgeKind::Normal, k)));
    }
}

proof fn lemma_last_step(
    m: RustModel,
    disk: Disk,
    host: Seq<char>,
    walk: Walk,
    roots: Set<int>,
    j: int,
)
    requires
        reaches(m, disk, host, walk, roots, j),
    ensures
        roots.contains(j) || exists|x: int|
            reaches(m, disk, host, walk, roots, x) && #[trigger] leads(m, disk, host, walk, x, j),
{
    let path = choose|path: Seq<int>|
        path.len() > 0 && roots.contains(path[0]) && path.last() == j && #[trigger] is_path(
            m,
            disk,
            host,
            walk,
            path,
        );
    if path.len() > 1 {
        let less = path.drop_last();
        assert forall|k: int| 0 <= k < less.len() - 1 implies leads(
            m,
            disk,
            host,
            walk,
            #[trigger] less[k],
            less[k + 1],
        ) by {
            assert(leads(m, disk, host, walk, path[k], path[k + 1]));
        }
        assert(is_path(m, disk, host, walk, less));
        assert(reaches(m, disk, host, walk, roots, less.last()));
        assert(leads(m, disk, host, walk, path[path.len() - 2], path[path.len() - 2 + 1]));
    }
}

proof fn lemma_first_step(
    m: RustModel,
    disk: Disk,
    host: Seq<char>,
    walk: Walk,
    i: int,
    j: int,
)
    requires
        reaches(m, disk, host, walk, set![i], j),
    ensures
        i == j || exists|x: int| #[trigger]
            leads(m, disk, host, walk, i, x) && reaches(m, disk, host, walk, set![x], j),
{
    let path = choose|path: Seq<int>|
        path.len() > 0 && set![i].contains(path[0]) && path.last() == j && #[trigger] is_path(
            m,
            disk,
            host,
            walk,
            path,
        );
    if path.len() > 1 {
        let rest = path.skip(1);
        assert forall|k: int| 0 <= k < rest.len() - 1 implies leads(
            m,
            disk,
            host,
            walk,
            #[trigger] rest[k],
            rest[k + 1],
        ) by {
            assert(leads(m, disk, host, walk, path[k + 1], path[k + 1 + 1]));
        }
        assert(is_path(m, disk, host, walk, rest));
        assert(set![rest[0]].contains(rest[0]));
        assert(reaches(m, disk, host, walk, set![rest[0]], j));
        assert(leads(m, disk, host, walk, path[0], path[0int + 1]));
    }
}

proof fn lemma_on_top(
    m: RustModel,
    disk: Disk,
    host: Seq<char>,
    walk: Walk,
    i: int,
    x: int,
    j: int,
)
    requires
        leads(m, disk, host, walk, i, x),
        reaches(m, disk, host, walk, set![x], j),
    ensures
        reaches(m, disk, host, walk, set![i], j),
{
    let path = choose|path: Seq<int>|
        path.len() > 0 && set![x].contains(path[0]) && path.last() == j && #[trigger] is_path(
            m,
            disk,
            host,
            walk,
            path,
        );
    let all = seq![i] + path;
    assert forall|k: int| 0 <= k < all.len() - 1 implies leads(
        m,
        disk,
        host,
        walk,
        #[trigger] all[k],
        all[k + 1],
    ) by {
        if k > 0 {
            assert(leads(m, disk, host, walk, path[k - 1], path[k - 1 + 1]));
        }
    }
    assert(is_path(m, disk, host, walk, all));
    assert(set![i].contains(all[0]));
}

// ---- Native imports ---------------------------------------------------------------

/// Whether a normal or a build edge of a package that is on names a native import.
pub open spec fn imports(m: RustModel, i: int, name: Seq<char>) -> bool {
    &&& exists|k: int| 0 <= k < m.cc_imports@.len() && (#[trigger] m.cc_imports@[k]).name@ == name
    &&& exists|dep: Dep| #[trigger]
        is_on(m, i, dep) && (m.packages@[i].deps@.contains(dep)
            || m.packages@[i].build_deps@.contains(dep)) && dep.package.name@ == name
}

proof fn lemma_imports(m: RustModel, i: int, name: Seq<char>)
    requires
        0 <= i < m.packages@.len(),
    ensures
        imports_native(m, i, name) <==> imports(m, i, name),
{
    if imports_native(m, i, name) {
        let (kind, k) = choose|kind: EdgeKind, k: int|
            #![trigger dep_list(m.packages@[i], kind)[k]]
            edge_ok(m.packages@, (i, kind, k)) && kind != EdgeKind::Dev
                && crate::graph::edge_enabled(m, i, dep_list(m.packages@[i], kind)[k]) && dep_list(
                m.packages@[i],
                kind,
            )[k].package.name@ == name && native(m, name);
        let dep = dep_list(m.packages@[i], kind)[k];
        assert(is_on(m, i, dep));
        match kind {
            EdgeKind::Normal => {
                assert(m.packages@[i].deps@[k] == dep);
            },
            EdgeKind::Build => {
                assert(m.packages@[i].build_deps@[k] == dep);
            },
            EdgeKind::Dev => {},
        }
    }
    if imports(m, i, name) {
        let dep = choose|dep: Dep| #[trigger]
            is_on(m, i, dep) && (m.packages@[i].deps@.contains(dep)
                || m.packages@[i].build_deps@.contains(dep)) && dep.package.name@ == name;
        if m.packages@[i].deps@.contains(dep) {
            let k = choose|k: int|
                0 <= k < m.packages@[i].deps@.len() && m.packages@[i].deps@[k] == dep;
            assert(dep_list(m.packages@[i], EdgeKind::Normal)[k] == dep);
            assert(edge_ok(m.packages@, (i, EdgeKind::Normal, k)));
        } else {
            let k = choose|k: int|
                0 <= k < m.packages@[i].build_deps@.len() && m.packages@[i].build_deps@[k] == dep;
            assert(dep_list(m.packages@[i], EdgeKind::Build)[k] == dep);
            assert(edge_ok(m.packages@, (i, EdgeKind::Build, k)));
        }
    }
}

/// The native imports of a package are those that it names and those of the packages
/// that it builds on, and no others.
pub proof fn natives_come_with_dependencies(
    m: RustModel,
    disk: Disk,
    host: Seq<char>,
    i: int,
    name: Seq<char>,
)
    requires
        0 <= i < m.packages@.len(),
    ensures
        native_closure(m, disk, host, i).contains(name) <==> {
            ||| imports(m, i, name)
            ||| exists|x: int| #[trigger]
                builds_on(m, i, x) && native_closure(m, disk, host, x).contains(name)
        },
{
    if native_closure(m, disk, host, i).contains(name) {
        let j = choose|j: int|
            #![trigger imports_native(m, j, name)]
            0 <= j < m.packages@.len() && reaches(m, disk, host, Walk::Builds, set![i], j)
                && imports_native(m, j, name);
        lemma_first_step(m, disk, host, Walk::Builds, i, j);
        if i == j {
            lemma_imports(m, i, name);
        } else {
            let x = choose|x: int| #[trigger]
                leads(m, disk, host, Walk::Builds, i, x) && reaches(
                    m,
                    disk,
                    host,
                    Walk::Builds,
                    set![x],
                    j,
                );
            lemma_builds_on(m, disk, host, i, x);
            assert(native_closure(m, disk, host, x).contains(name));
        }
    }
    if imports(m, i, name) {
        lemma_imports(m, i, name);
        lemma_reach_root(m, disk, host, Walk::Builds, set![i], i);
    }
    if exists|x: int| #[trigger]
        builds_on(m, i, x) && native_closure(m, disk, host, x).contains(name) {
        let x = choose|x: int| #[trigger]
            builds_on(m, i, x) && native_closure(m, disk, host, x).contains(name);
        lemma_builds_on(m, disk, host, i, x);
        let j = choose|j: int|
            #![trigger imports_native(m, j, name)]
            0 <= j < m.packages@.len() && reaches(m, disk, host, Walk::Builds, set![x], j)
                && imports_native(m, j, name);
        lemma_on_top(m, disk, host, Walk::Builds, i, x, j);
        assert(imports_native(m, j, name));
    }
}

proof fn lemma_natives_finite(m: RustModel, disk: Disk, host: Seq<char>, i: int)
    ensures
        native_closure(m, disk, host, i).finite(),
{
    let names = m.cc_imports@.map_values(|c: crate::model::CcImport| c.name@);
    let all = native_closure(m, disk, host, i);
    vstd::seq_lib::seq_to_set_is_finite(names);
    assert forall|name: Seq<char>| #[trigger] all.contains(name) implies names.to_set().contains(
        name,
    ) by {
        let k = choose|k: int|
            0 <= k < m.cc_imports@.len() && (#[trigger] m.cc_imports@[k]).name@ == name;
        assert(names[k] == name);
    }
    assert(all.subset_of(names.to_set()));
    vstd::set_lib::lemma_set_subset_finite(names.to_set(), all);
}

proof fn lemma_link_name(m: RustModel, name: Seq<char>, n: int)
    requires
        0 <= n <= m.cc_imports@.len(),
        exists|k: int| 0 <= k < n && (#[trigger] m.cc_imports@[k]).name@ == name,
    ensures
        exists|k: int|
            0 <= k < n && (#[trigger] m.cc_imports@[k]).name@ == name && m.cc_imports@[k].link_name@
                == crate::plan::link_name_of(m, name, n),
    decreases n,
{
    if m.cc_imports@[n - 1].name@ != name {
        lemma_link_name(m, name, n - 1);
    }
}

/// A compilation links each native import of its package under that import's link
/// name, and no other.
pub proof fn compilations_link_their_natives(
    p: Planner<'_>,
    u: Unit,
    t: Target,
    c: CompileUnit,
    name: Seq<char>,
)
    requires
        unit_is(u, p, t),
        u.kind == UnitKind::Compile(c),
    ensures
        native_closure(*p.model, *p.disk, p.toolchain.host_triple@, u.package as int).contains(name)
            <==> exists|x: int| 0 <= x < c.cc@.len() && (#[trigger] c.cc@[x]).0@ == name,
        forall|x: int|
            #![trigger c.cc@[x]]
            0 <= x < c.cc@.len() ==> exists|k: int|
                0 <= k < p.model.cc_imports@.len() && (#[trigger] p.model.cc_imports@[k]).name@
                    == c.cc@[x].0@ && p.model.cc_imports@[k].link_name@ == c.cc@[x].1@,
{
    let m = *p.model;
    let i = u.package as int;
    let all = native_closure(m, *p.disk, p.toolchain.host_triple@, i);
    lemma_natives_finite(m, *p.disk, p.toolchain.host_triple@, i);
    lemma_ascending_of(all);
    let names = crate::strmap::ascending_of(all);
    let cc = pairs_view(c.cc@);
    let made = natives_of(p, i);
    assert(cc == made);
    assert(made.len() == names.len() && cc.len() == c.cc@.len());
    assert forall|x: int| #![trigger c.cc@[x]] 0 <= x < c.cc@.len() implies c.cc@[x].0@ == names[x]
        && c.cc@[x].1@ == crate::plan::link_name_of(
        m,
        names[x],
        m.cc_imports@.len() as int,
    ) by {
        assert(cc[x] == (c.cc@[x].0@, c.cc@[x].1@));
        assert(made[x] == (
            names[x],
            crate::plan::link_name_of(m, names[x], m.cc_imports@.len() as int),
        ));
    }
    if all.contains(name) {
        assert(names.contains(name));
        let x = choose|x: int| 0 <= x < names.len() && names[x] == name;
        assert(c.cc@[x].0@ == name);
    }
    assert forall|x: int| #![trigger c.cc@[x]] 0 <= x < c.cc@.len() implies all.contains(
        c.cc@[x].0@,
    ) && exists|k: int|
        0 <= k < p.model.cc_imports@.len() && (#[trigger] p.model.cc_imports@[k]).name@
            == c.cc@[x].0@ && p.model.cc_imports@[k].link_name@ == c.cc@[x].1@ by {
        assert(names[x] == c.cc@[x].0@);
        assert(names.contains(c.cc@[x].0@));
        assert(native(m, c.cc@[x].0@));
        lemma_link_name(m, c.cc@[x].0@, m.cc_imports@.len() as int);
    }
}

// ---- The host's units -------------------------------------------------------------

/// Whether a package is asked for on the host: it is a proc macro, or a package with
/// a build script has a build edge that is on to it.
pub open spec fn asked_on_host(m: RustModel, j: int) -> bool {
    ||| 0 <= j < m.packages@.len() && (m.packages@[j].lib matches Some(lib) && lib.proc_macro)
    ||| exists|i: int, dep: Dep|
        0 <= i < m.packages@.len() && m.packages@[i].build_script is Some && #[trigger] is_on(
            m,
            i,
            dep,
        ) && m.packages@[i].build_deps@.contains(dep) && !native(m, dep.package.name@) && find(
            m.packages@,
            dep.package@,
        ) == Some(j)
}

proof fn lemma_host_root(m: RustModel, j: int)
    ensures
        host_root(m, j) <==> asked_on_host(m, j),
{
    if host_root(m, j) && !(0 <= j < m.packages@.len() && m.packages@[j].lib is Some
        && m.packages@[j].lib->0.proc_macro) {
        let (i, k) = choose|i: int, k: int|
            #![trigger m.packages@[i].build_deps@[k]]
            0 <= i < m.packages@.len() && 0 <= k < m.packages@[i].build_deps@.len()
                && crate::plan::host_edge(m, i, m.packages@[i].build_deps@[k]) && find(
                m.packages@,
                m.packages@[i].build_deps@[k].package@,
            ) == Some(j);
        let dep = m.packages@[i].build_deps@[k];
        assert(is_on(m, i, dep));
        assert(m.packages@[i].build_deps@.contains(dep));
    }
    if exists|i: int, dep: Dep|
        0 <= i < m.packages@.len() && m.packages@[i].build_script is Some && #[trigger] is_on(
            m,
            i,
            dep,
        ) && m.packages@[i].build_deps@.contains(dep) && !native(m, dep.package.name@) && find(
            m.packages@,
            dep.package@,
        ) == Some(j) {
        let (i, dep) = choose|i: int, dep: Dep|
            0 <= i < m.packages@.len() && m.packages@[i].build_script is Some && #[trigger] is_on(
                m,
                i,
                dep,
            ) && m.packages@[i].build_deps@.contains(dep) && !native(m, dep.package.name@) && find(
                m.packages@,
                dep.package@,
            ) == Some(j);
        let k = choose|k: int|
            0 <= k < m.packages@[i].build_deps@.len() && m.packages@[i].build_deps@[k] == dep;
        assert(find(m.packages@, m.packages@[i].build_deps@[k].package@) == Some(j));
    }
}

/// A package has units for the host where it is asked for there, or one that has
/// such units builds on it, and nowhere else.
pub proof fn host_units_come_with_dependencies(p: Planner<'_>, j: int)
    ensures
        hosted(p, j) <==> {
            ||| asked_on_host(*p.model, j)
            ||| exists|x: int|
                0 <= x < p.model.packages@.len() && hosted(p, x) && #[trigger] builds_on(
                    *p.model,
                    x,
                    j,
                )
        },
{
    reveal(hosted);
    let m = *p.model;
    let host = p.toolchain.host_triple@;
    let roots = Set::new(|x: int| host_root(m, x));
    lemma_host_root(m, j);
    if hosted(p, j) {
        lemma_last_step(m, *p.disk, host, Walk::Builds, roots, j);
        if !roots.contains(j) {
            let x = choose|x: int|
                reaches(m, *p.disk, host, Walk::Builds, roots, x) && #[trigger] leads(
                    m,
                    *p.disk,
                    host,
                    Walk::Builds,
                    x,
                    j,
                );
            lemma_builds_on(m, *p.disk, host, x, j);
            assert(hosted(p, x));
            assert(builds_on(m, x, j));
        }
    }
    if asked_on_host(m, j) {
        assert(roots.contains(j));
        lemma_reach_root(m, *p.disk, host, Walk::Builds, roots, j);
    }
    if exists|x: int|
        0 <= x < p.model.packages@.len() && hosted(p, x) && #[trigger] builds_on(m, x, j) {
        let x = choose|x: int|
            0 <= x < p.model.packages@.len() && hosted(p, x) && #[trigger] builds_on(m, x, j);
        lemma_builds_on(m, *p.disk, host, x, j);
        lemma_reach_step(m, *p.disk, host, Walk::Builds, roots, x, j);
    }
}

// ---- What is at hand --------------------------------------------------------------

/// What the units of a kind of target link.
pub open spec fn needs_of(t: Target) -> Needs {
    Needs {
        own: needs_own(t),
        normal: needs_kind(t, EdgeKind::Normal),
        build: needs_kind(t, EdgeKind::Build),
        dev: needs_kind(t, EdgeKind::Dev),
    }
}

/// Whether a unit of a package names another: as its own library, or by an edge that
/// counts, of a list that it links.
pub open spec fn names_package(p: Planner<'_>, i: int, needs: Needs, j: int) -> bool {
    ||| needs.own && p.model.packages@[i].lib is Some && j == i
    ||| exists|dep: Dep|
        {
            ||| needs.normal && p.model.packages@[i].deps@.contains(dep)
            ||| needs.build && p.model.packages@[i].build_deps@.contains(dep)
            ||| needs.dev && p.model.packages@[i].dev_deps@.contains(dep)
        } && edge_live(*p.model, *p.disk, p.toolchain.host_triple@, i, dep) && !native(
            *p.model,
            dep.package.name@,
        ) && #[trigger] find(p.model.packages@, dep.package@) == Some(j)
}

proof fn lemma_names(p: Planner<'_>, i: int, needs: Needs, j: int)
    ensures
        crate::units::links_directly(p, i, needs, j) <==> names_package(p, i, needs, j),
{
    let m = *p.model;
    let host = p.toolchain.host_triple@;
    if crate::units::links_directly(p, i, needs, j) && !(needs.own && m.packages@[i].lib is Some
        && j == i) {
        let (kind, k) = choose|kind: EdgeKind, k: int|
            #![trigger dep_list(m.packages@[i], kind)[k]]
            0 <= k < dep_list(m.packages@[i], kind).len() && crate::units::needs_list(needs, kind)
                && edge_live(m, *p.disk, host, i, dep_list(m.packages@[i], kind)[k]) && !native(
                m,
                dep_list(m.packages@[i], kind)[k].package.name@,
            ) && find(m.packages@, dep_list(m.packages@[i], kind)[k].package@) == Some(j);
        let dep = dep_list(m.packages@[i], kind)[k];
        assert(dep_list(m.packages@[i], kind).contains(dep));
        assert(find(m.packages@, dep.package@) == Some(j));
    }
    if exists|dep: Dep|
        {
            ||| needs.normal && m.packages@[i].deps@.contains(dep)
            ||| needs.build && m.packages@[i].build_deps@.contains(dep)
            ||| needs.dev && m.packages@[i].dev_deps@.contains(dep)
        } && edge_live(m, *p.disk, host, i, dep) && !native(m, dep.package.name@)
            && #[trigger] find(m.packages@, dep.package@) == Some(j) {
        let dep = choose|dep: Dep|
            {
                ||| needs.normal && m.packages@[i].deps@.contains(dep)
                ||| needs.build && m.packages@[i].build_deps@.contains(dep)
                ||| needs.dev && m.packages@[i].dev_deps@.contains(dep)
            } && edge_live(m, *p.disk, host, i, dep) && !native(m, dep.package.name@)
                && #[trigger] find(m.packages@, dep.package@) == Some(j);
        let kind = if needs.normal && m.packages@[i].deps@.contains(dep) {
            EdgeKind::Normal
        } else if needs.build && m.packages@[i].build_deps@.contains(dep) {
            EdgeKind::Build
        } else {
            EdgeKind::Dev
        };
        let list = dep_list(m.packages@[i], kind);
        let k = choose|k: int| 0 <= k < list.len() && list[k] == dep;
        assert(dep_list(m.packages@[i], kind)[k] == dep);
    }
}

/// A unit links the packages that it names, and those that a package that it links
/// links in turn, and no others.
pub proof fn links_come_with_dependencies(p: Planner<'_>, i: int, needs: Needs, j: int)
    ensures
        links(p, i, needs, j) <==> {
            ||| names_package(p, i, needs, j)
            ||| exists|x: int|
                0 <= x < p.model.packages@.len() && links(p, i, needs, x) && #[trigger] links_on(
                    *p.model,
                    *p.disk,
                    p.toolchain.host_triple@,
                    x,
                    j,
                )
        },
{
    let m = *p.model;
    let host = p.toolchain.host_triple@;
    let roots = Set::new(|x: int| crate::units::links_directly(p, i, needs, x));
    lemma_names(p, i, needs, j);
    if links(p, i, needs, j) {
        lemma_last_step(m, *p.disk, host, Walk::Links, roots, j);
        if !roots.contains(j) {
            let x = choose|x: int|
                reaches(m, *p.disk, host, Walk::Links, roots, x) && #[trigger] leads(
                    m,
                    *p.disk,
                    host,
                    Walk::Links,
                    x,
                    j,
                );
            lemma_links_on(m, *p.disk, host, x, j);
            assert(links(p, i, needs, x));
            assert(links_on(m, *p.disk, host, x, j));
        }
    }
    if names_package(p, i, needs, j) {
        assert(roots.contains(j));
        lemma_reach_root(m, *p.disk, host, Walk::Links, roots, j);
    }
    if exists|x: int|
        0 <= x < m.packages@.len() && links(p, i, needs, x) && #[trigger] links_on(
            m,
            *p.disk,
            host,
            x,
            j,
        ) {
        let x = choose|x: int|
            0 <= x < m.packages@.len() && links(p, i, needs, x) && #[trigger] links_on(
                m,
                *p.disk,
                host,
                x,
                j,
            );
        lemma_links_on(m, *p.disk, host, x, j);
        lemma_reach_step(m, *p.disk, host, Walk::Links, roots, x, j);
    }
}

proof fn lemma_linked_library(p: Planner<'_>, j: int, host: bool)
    requires
        p.model.packages@[j].lib is Some,
    ensures
        linked_action(*p.model, j, host) is Some,
        links_library(p, j, host, linked_action(*p.model, j, host)->0),
{
    let lib = p.model.packages@[j].lib->0;
    let t = linked_type(lib.crate_types@);
    assert(crate_type_text(t) == type_word(t));
    let all = types_of(lib.crate_types@);
    if !lib.proc_macro {
        if lib.crate_types@.len() == 0 {
            assert(all[0] == CrateType::Rlib);
            assert(all.contains(CrateType::Rlib));
        } else {
            if !all.contains(CrateType::Rlib) && !all.contains(CrateType::Staticlib)
                && !all.contains(CrateType::Cdylib) {
                assert(all[0] == CrateType::Dylib);
            }
            assert(lib.crate_types@.contains(t));
        }
    }
}

/// A compilation has at hand the libraries of all packages that it links, for its
/// own side, and no others.
pub proof fn linked_libraries_are_at_hand(
    p: Planner<'_>,
    u: Unit,
    t: Target,
    c: CompileUnit,
    j: int,
    id: Seq<char>,
)
    requires
        unit_is(u, p, t),
        u.kind == UnitKind::Compile(c),
    ensures
        0 <= j < p.model.packages@.len() && links(p, u.package as int, needs_of(t), j)
            && p.model.packages@[j].lib is Some ==> exists|id: Seq<char>| #[trigger]
            c.transitive@.contains(id) && links_library(p, j, c.host, id),
        c.transitive@.contains(id) ==> exists|x: int|
            0 <= x < p.model.packages@.len() && links(p, u.package as int, needs_of(t), x)
                && #[trigger] links_library(p, x, c.host, id),
{
    let m = *p.model;
    let i = u.package as int;
    assert(crate::plan::request_of(m, t).needs == needs_of(t));
    if 0 <= j < m.packages@.len() && links(p, i, needs_of(t), j) && m.packages@[j].lib is Some {
        lemma_linked_library(p, j, c.host);
        assert(c.transitive@.contains(linked_action(m, j, c.host)->0));
    }
    if c.transitive@.contains(id) {
        let x = choose|x: int|
            #![trigger linked_action(m, x, c.host)]
            0 <= x < m.packages@.len() && links(p, i, needs_of(t), x) && linked_action(
                m,
                x,
                c.host,
            ) == Some(id);
        lemma_linked_library(p, x, c.host);
    }
}

// ---- Scripts that apply -----------------------------------------------------------

proof fn lemma_led_by(m: RustModel, i: int, kind: EdgeKind, n: int, j: int)
    requires
        0 <= n <= dep_list(m.packages@[i], kind).len(),
    ensures
        led_by(m, i, kind, n).contains(j) <==> exists|k: int|
            0 <= k < n && is_on(m, i, #[trigger] dep_list(m.packages@[i], kind)[k]) && find(
                m.packages@,
                dep_list(m.packages@[i], kind)[k].package@,
            ) == Some(j),
    decreases n,
{
    if n > 0 {
        lemma_led_by(m, i, kind, n - 1, j);
        let before = led_by(m, i, kind, n - 1);
        let all = led_by(m, i, kind, n);
        if all.contains(j) {
            let x = choose|x: int| 0 <= x < all.len() && all[x] == j;
            if x < before.len() {
                assert(before[x] == j);
                assert(before.contains(j));
            } else {
                assert(is_on(m, i, dep_list(m.packages@[i], kind)[n - 1]));
            }
        }
        if before.contains(j) {
            let x = choose|x: int| 0 <= x < before.len() && before[x] == j;
            assert(all[x] == j);
        }
        if is_on(m, i, dep_list(m.packages@[i], kind)[n - 1]) && find(
            m.packages@,
            dep_list(m.packages@[i], kind)[n - 1].package@,
        ) == Some(j) {
            assert(all[before.len() as int] == j);
        }
    }
}

/// Whether a normal or a build edge of a package that is on leads to another.
pub open spec fn leads_on(m: RustModel, i: int, j: int) -> bool {
    exists|dep: Dep|
        (m.packages@[i].deps@.contains(dep) || m.packages@[i].build_deps@.contains(dep)) && is_on(
            m,
            i,
            dep,
        ) && #[trigger] find(m.packages@, dep.package@) == Some(j)
}

proof fn lemma_led_to(m: RustModel, i: int, j: int)
    ensures
        led_to(m, i).contains(j) <==> leads_on(m, i, j),
{
    let a = led_by(m, i, EdgeKind::Normal, m.packages@[i].deps@.len() as int);
    let b = led_by(m, i, EdgeKind::Build, m.packages@[i].build_deps@.len() as int);
    let normal = dep_list(m.packages@[i], EdgeKind::Normal);
    let build = dep_list(m.packages@[i], EdgeKind::Build);
    lemma_led_by(m, i, EdgeKind::Normal, m.packages@[i].deps@.len() as int, j);
    lemma_led_by(m, i, EdgeKind::Build, m.packages@[i].build_deps@.len() as int, j);
    let all = led_to(m, i);
    if all.contains(j) {
        let x = choose|x: int| 0 <= x < all.len() && all[x] == j;
        if x < a.len() {
            assert(a[x] == j);
            assert(a.contains(j));
            let k = choose|k: int|
                0 <= k < normal.len() && is_on(m, i, #[trigger] normal[k]) && find(
                    m.packages@,
                    normal[k].package@,
                ) == Some(j);
            assert(m.packages@[i].deps@.contains(normal[k]));
        } else {
            assert(b[x - a.len()] == j);
            assert(b.contains(j));
            let k = choose|k: int|
                0 <= k < build.len() && is_on(m, i, #[trigger] build[k]) && find(
                    m.packages@,
                    build[k].package@,
                ) == Some(j);
            assert(m.packages@[i].build_deps@.contains(build[k]));
        }
    }
    if leads_on(m, i, j) {
        let dep = choose|dep: Dep|
            (m.packages@[i].deps@.contains(dep) || m.packages@[i].build_deps@.contains(dep))
                && is_on(m, i, dep) && #[trigger] find(m.packages@, dep.package@) == Some(j);
        if m.packages@[i].deps@.contains(dep) {
            let k = choose|k: int| 0 <= k < normal.len() && normal[k] == dep;
            assert(is_on(m, i, dep_list(m.packages@[i], EdgeKind::Normal)[k]));
            assert(a.contains(j));
            let x = choose|x: int| 0 <= x < a.len() && a[x] == j;
            assert(all[x] == j);
        } else {
            let k = choose|k: int| 0 <= k < build.len() && build[k] == dep;
            assert(is_on(m, i, dep_list(m.packages@[i], EdgeKind::Build)[k]));
            assert(b.contains(j));
            let x = choose|x: int| 0 <= x < b.len() && b[x] == j;
            assert(all[a.len() as int + x] == j);
        }
    }
}

proof fn lemma_depth_first(m: RustModel, stack: Seq<int>, seen: Seq<bool>)
    ensures
        ({
            let all = depth_first(m, stack, seen);
            &&& forall|j: int| #[trigger] all.contains(j) ==> 0 <= j < seen.len() && !seen[j]
            &&& all.no_duplicates()
            &&& forall|j: int| #[trigger]
                stack.contains(j) && 0 <= j < seen.len() ==> seen[j] || all.contains(j)
            &&& forall|x: int, j: int|
                #![trigger all.contains(x), led_to(m, x).contains(j)]
                all.contains(x) && led_to(m, x).contains(j) && 0 <= j < seen.len() ==> seen[j]
                    || all.contains(j)
            &&& forall|j: int| #[trigger]
                all.contains(j) ==> stack.contains(j) || exists|x: int| #[trigger]
                    all.contains(x) && led_to(m, x).contains(j)
        }),
    decreases crate::graph::unseen(seen), stack.len(),
{
    let all = depth_first(m, stack, seen);
    if stack.len() > 0 {
        let top = stack.last();
        let rest = stack.drop_last();
        if top < 0 || top >= seen.len() || seen[top] {
            lemma_depth_first(m, rest, seen);
            assert forall|j: int| #[trigger]
                stack.contains(j) && 0 <= j < seen.len() implies seen[j] || all.contains(j) by {
                if j != top {
                    let x = choose|x: int| 0 <= x < stack.len() && stack[x] == j;
                    assert(rest[x] == j);
                    assert(rest.contains(j));
                }
            }
            assert forall|j: int| #[trigger] all.contains(j) implies stack.contains(j)
                || exists|x: int| #[trigger]
                all.contains(x) && led_to(m, x).contains(j) by {
                if rest.contains(j) {
                    let x = choose|x: int| 0 <= x < rest.len() && rest[x] == j;
                    assert(stack[x] == j);
                }
            }
        } else {
            crate::graph::lemma_unseen(seen, top);
            let next = rest + led_to(m, top);
            let marked = seen.update(top, true);
            let more = depth_first(m, next, marked);
            lemma_depth_first(m, next, marked);
            assert(all[0] == top);
            assert(all.contains(top));
            assert forall|j: int| #[trigger] more.contains(j) implies all.contains(j) by {
                let x = choose|x: int| 0 <= x < more.len() && more[x] == j;
                assert(all[x + 1] == j);
            }
            assert forall|j: int| #[trigger] all.contains(j) implies j == top || more.contains(
                j,
            ) by {
                let x = choose|x: int| 0 <= x < all.len() && all[x] == j;
                if x > 0 {
                    assert(more[x - 1] == j);
                }
            }
            assert(all.no_duplicates()) by {
                assert forall|x: int, y: int| 0 <= x < y < all.len() implies all[x] != all[y] by {
                    assert(more[y - 1] == all[y]);
                    assert(more.contains(all[y]));
                    if x > 0 {
                        assert(more[x - 1] == all[x]);
                    }
                }
            }
            assert forall|j: int| #[trigger]
                stack.contains(j) && 0 <= j < seen.len() implies seen[j] || all.contains(j) by {
                if j != top {
                    let x = choose|x: int| 0 <= x < stack.len() && stack[x] == j;
                    assert(next[x] == j);
                    assert(next.contains(j));
                }
            }
            assert forall|x: int, j: int|
                #![trigger all.contains(x), led_to(m, x).contains(j)]
                all.contains(x) && led_to(m, x).contains(j) && 0 <= j
                    < seen.len() implies seen[j] || all.contains(j) by {
                if x == top {
                    let led = led_to(m, top);
                    let y = choose|y: int| 0 <= y < led.len() && led[y] == j;
                    assert(next[rest.len() as int + y] == j);
                    assert(next.contains(j));
                } else {
                    assert(more.contains(x));
                }
            }
            assert forall|j: int| #[trigger] all.contains(j) implies stack.contains(j)
                || exists|x: int| #[trigger]
                all.contains(x) && led_to(m, x).contains(j) by {
                if j == top {
                    assert(stack[stack.len() - 1] == top);
                } else {
                    assert(more.contains(j));
                    if next.contains(j) {
                        let x = choose|x: int| 0 <= x < next.len() && next[x] == j;
                        if x < rest.len() {
                            assert(stack[x] == j);
                        } else {
                            assert(led_to(m, top)[x - rest.len()] == j);
                            assert(all.contains(top) && led_to(m, top).contains(j));
                        }
                    } else {
                        let x = choose|x: int| #[trigger]
                            more.contains(x) && led_to(m, x).contains(j);
                        assert(all.contains(x) && led_to(m, x).contains(j));
                    }
                }
            }
        }
    }
}

/// The packages whose scripts apply to a package are those that its edges lead to,
/// and those that theirs do, each once, and no others.
pub proof fn scripts_apply_to_dependents(m: RustModel, i: int, j: int)
    ensures
        script_order(m, i).no_duplicates(),
        0 <= j < m.packages@.len() ==> (script_order(m, i).contains(j) <==> {
            ||| leads_on(m, i, j)
            ||| exists|x: int| #[trigger] script_order(m, i).contains(x) && leads_on(m, x, j)
        }),
        script_order(m, i).contains(j) ==> 0 <= j < m.packages@.len(),
{
    let seen = Seq::new(m.packages@.len(), |j: int| false);
    let all = script_order(m, i);
    lemma_depth_first(m, led_to(m, i), seen);
    lemma_led_to(m, i, j);
    if 0 <= j < m.packages@.len() {
        if all.contains(j) && !leads_on(m, i, j) {
            let x = choose|x: int| #[trigger] all.contains(x) && led_to(m, x).contains(j);
            lemma_led_to(m, x, j);
        }
        if exists|x: int| #[trigger] all.contains(x) && leads_on(m, x, j) {
            let x = choose|x: int| #[trigger] all.contains(x) && leads_on(m, x, j);
            lemma_led_to(m, x, j);
            assert(led_to(m, x).contains(j));
            assert(!seen[j]);
        }
        if leads_on(m, i, j) {
            assert(led_to(m, i).contains(j));
            assert(!seen[j]);
        }
    }
}

proof fn lemma_scripts_among(m: RustModel, order: Seq<int>, host: bool, id: Seq<char>)
    ensures
        scripts_among(m, order, host).contains(id) <==> exists|j: int| #[trigger]
            order.contains(j) && m.packages@[j].build_script is Some && id == "rust:bs-run:"@
                + label_of(m, j) + side_word(host),
    decreases order.len(),
{
    let all = scripts_among(m, order, host);
    if order.len() > 0 {
        let less = order.drop_last();
        let before = scripts_among(m, less, host);
        lemma_scripts_among(m, less, host, id);
        assert(order.contains(order.last())) by {
            assert(order[order.len() - 1] == order.last());
        }
        assert forall|j: int| #[trigger] order.contains(j) <==> less.contains(j) || j
            == order.last() by {
            if less.contains(j) {
                let x = choose|x: int| 0 <= x < less.len() && less[x] == j;
                assert(order[x] == j);
            }
            if order.contains(j) {
                let x = choose|x: int| 0 <= x < order.len() && order[x] == j;
                if x < less.len() {
                    assert(less[x] == j);
                }
            }
        }
        if all.contains(id) {
            let x = choose|x: int| 0 <= x < all.len() && all[x] == id;
            if x < before.len() {
                assert(before[x] == id);
                assert(before.contains(id));
                let j = choose|j: int| #[trigger]
                    less.contains(j) && m.packages@[j].build_script is Some && id
                        == "rust:bs-run:"@ + label_of(m, j) + side_word(host);
                assert(order.contains(j));
            }
        }
        if before.contains(id) {
            let x = choose|x: int| 0 <= x < before.len() && before[x] == id;
            assert(all[x] == id);
        }
        if exists|j: int| #[trigger]
            order.contains(j) && m.packages@[j].build_script is Some && id == "rust:bs-run:"@
                + label_of(m, j) + side_word(host) {
            let j = choose|j: int| #[trigger]
                order.contains(j) && m.packages@[j].build_script is Some && id == "rust:bs-run:"@
                    + label_of(m, j) + side_word(host);
            if less.contains(j) {
                assert(before.contains(id));
            } else {
                assert(all[before.len() as int] == id);
            }
        }
    }
}

/// A compilation heeds the run of its package's own script and those of the packages
/// whose scripts apply to it, for its own side, and no others.
pub proof fn compilations_heed_the_scripts_that_apply(
    p: Planner<'_>,
    u: Unit,
    t: Target,
    c: CompileUnit,
    id: Seq<char>,
)
    requires
        unit_is(u, p, t),
        u.kind == UnitKind::Compile(c),
    ensures
        texts(c.directive_sources@).contains(id) <==> exists|j: int|
            (j == u.package || script_order(*p.model, u.package as int).contains(j))
                && p.model.packages@[j].build_script is Some && id == "rust:bs-run:"@
                + #[trigger] label_of(*p.model, j) + side_word(c.host),
{
    let m = *p.model;
    let i = u.package as int;
    let a = scripts_among(m, seq![i], c.host);
    let b = scripts_among(m, script_order(m, i), c.host);
    let all = texts(c.directive_sources@);
    assert(all == a + b);
    lemma_scripts_among(m, seq![i], c.host, id);
    lemma_scripts_among(m, script_order(m, i), c.host, id);
    assert(seq![i][0] == i);
    assert(seq![i].contains(i));
    if all.contains(id) {
        let x = choose|x: int| 0 <= x < all.len() && all[x] == id;
        if x < a.len() {
            assert(a[x] == id);
            assert(a.contains(id));
        } else {
            assert(b[x - a.len()] == id);
            assert(b.contains(id));
        }
    }
    if a.contains(id) {
        let x = choose|x: int| 0 <= x < a.len() && a[x] == id;
        assert(all[x] == id);
    }
    if b.contains(id) {
        let x = choose|x: int| 0 <= x < b.len() && b[x] == id;
        assert(all[a.len() as int + x] == id);
    }
}

// ---- Roots and order --------------------------------------------------------------

proof fn lemma_root(p: Planner<'_>, i: int, path: Seq<char>, from: int)
    requires
        0 <= from <= p.roots@.len(),
    ensures
        (forall|k: int|
            from <= k < p.roots@.len() && (#[trigger] p.roots@[k]).package == i
                ==> p.roots@[k].original@ != path) ==> root_from(p, i, path, from) == path,
        (exists|k: int|
            from <= k < p.roots@.len() && (#[trigger] p.roots@[k]).package == i
                && p.roots@[k].original@ == path) ==> exists|k: int|
            from <= k < p.roots@.len() && (#[trigger] p.roots@[k]).package == i
                && p.roots@[k].original@ == path && p.roots@[k].rewritten@ == root_from(
                p,
                i,
                path,
                from,
            ),
    decreases p.roots@.len() - from,
{
    if from < p.roots@.len() && !(p.roots@[from].package == i && p.roots@[from].original@ == path) {
        lemma_root(p, i, path, from + 1);
    }
}

/// A crate root is found where it is mounted; one that is not mounted elsewhere is
/// found where its package declares it.
pub proof fn crate_roots_are_found_where_mounted(p: Planner<'_>, i: int, path: Seq<char>)
    ensures
        ({
            let moved = exists|k: int|
                0 <= k < p.roots@.len() && (#[trigger] p.roots@[k]).package == i
                    && p.roots@[k].original@ == path;
            &&& !moved ==> root_from(p, i, path, 0) == path
            &&& moved ==> exists|k: int|
                0 <= k < p.roots@.len() && (#[trigger] p.roots@[k]).package == i
                    && p.roots@[k].original@ == path && p.roots@[k].rewritten@ == root_from(
                    p,
                    i,
                    path,
                    0,
                )
        }),
{
    lemma_root(p, i, path, 0);
}

/// A compilation waits for the units of all that it links, names or has at hand, and
/// for its script's run; a script's run for its compilation and the runs that it
/// hears; a test's run for its compilation and its binaries. None waits for more.
pub proof fn units_wait_for_what_they_use(u: Unit, id: Seq<char>)
    ensures
        u.kind matches UnitKind::Compile(c) ==> (unit_deps(u).contains(id) <==> {
            ||| exists|k: int|
                0 <= k < c.deps@.len() && (#[trigger] c.deps@[k])@ is Rust && c.deps@[k]@->action
                    == id
            ||| c.transitive@.contains(id)
            ||| exists|k: int| 0 <= k < c.bins@.len() && (#[trigger] c.bins@[k]).1@ == id
            ||| c.build_script is Some && c.build_script->0@ == id
        }),
        u.kind matches UnitKind::ScriptRun(run) ==> (unit_deps(u).contains(id) <==> {
            ||| id == run.compile@
            ||| exists|k: int| 0 <= k < run.links@.len() && (#[trigger] run.links@[k]).1@ == id
        }),
        u.kind matches UnitKind::TestRun(run) ==> (unit_deps(u).contains(id) <==> {
            ||| id == run.compile@
            ||| exists|k: int| 0 <= k < run.bins@.len() && (#[trigger] run.bins@[k]).1@ == id
        }),
{
}

// ---- LTO --------------------------------------------------------------------------

/// Whether flags come in pairs, `-C` and something else.
spec fn pairs(flags: Seq<Seq<char>>) -> bool {
    flags.len() % 2 == 0 && forall|k: int|
        #![trigger flags[k]]
        0 <= k < flags.len() ==> (flags[k] == "-C"@ <==> k % 2 == 0)
}

proof fn lemma_pairs(a: Seq<Seq<char>>, key: Seq<char>, value: Option<Seq<char>>)
    requires
        pairs(a),
        key.len() > 2,
    ensures
        pairs(a + crate::model::codegen_flag_opt(key, value)),
{
    reveal_strlit("-C");
    let b = crate::model::codegen_flag_opt(key, value);
    let all = a + b;
    if let Some(v) = value {
        assert(b[0] == "-C"@);
        assert(b[1].len() > 2);
        assert forall|k: int| #![trigger all[k]] 0 <= k < all.len() implies (all[k] == "-C"@ <==> k
            % 2 == 0) by {
            if k < a.len() {
                assert(all[k] == a[k]);
            } else {
                assert(all[k] == b[k - a.len()]);
            }
        }
    } else {
        assert(all =~= a);
    }
}

#[verifier::rlimit(40)]
proof fn lemma_profile_pairs(p: ProfileView)
    ensures
        pairs(profile_flags(p)),
{
    reveal_strlit("opt-level=");
    reveal_strlit("debuginfo=");
    reveal_strlit("lto=");
    reveal_strlit("panic=");
    reveal_strlit("overflow-checks=");
    reveal_strlit("debug-assertions=");
    reveal_strlit("strip=");
    reveal_strlit("rpath=");
    reveal_strlit("codegen-units=");
    reveal_strlit("split-debuginfo=");
    let none = Seq::<Seq<char>>::empty();
    let debug = if p.debug {
        "2"@
    } else {
        "0"@
    };
    let a1 = crate::model::codegen_flag("opt-level="@, p.opt_level);
    lemma_pairs(none, "opt-level="@, Some(p.opt_level));
    assert(none + a1 =~= a1);
    let a2 = a1 + crate::model::codegen_flag("debuginfo="@, debug);
    lemma_pairs(a1, "debuginfo="@, Some(debug));
    let a3 = a2 + crate::model::codegen_flag("lto="@, crate::model::lto_text(p.lto));
    lemma_pairs(a2, "lto="@, Some(crate::model::lto_text(p.lto)));
    let a4 = a3 + crate::model::codegen_flag("panic="@, crate::model::panic_text(p.panic));
    lemma_pairs(a3, "panic="@, Some(crate::model::panic_text(p.panic)));
    let overflow = crate::model::switch(p.overflow_checks, "on"@, "off"@);
    let a5 = a4 + crate::model::codegen_flag_opt("overflow-checks="@, overflow);
    lemma_pairs(a4, "overflow-checks="@, overflow);
    let checks = crate::model::switch(p.debug_assertions, "on"@, "off"@);
    let a6 = a5 + crate::model::codegen_flag_opt("debug-assertions="@, checks);
    lemma_pairs(a5, "debug-assertions="@, checks);
    let a7 = a6 + crate::model::codegen_flag_opt("strip="@, p.strip);
    lemma_pairs(a6, "strip="@, p.strip);
    let rpath = crate::model::switch(p.rpath, "yes"@, "no"@);
    let a8 = a7 + crate::model::codegen_flag_opt("rpath="@, rpath);
    lemma_pairs(a7, "rpath="@, rpath);
    let units = match p.codegen_units {
        Some(n) => Some(crate::text::decimal(n as nat)),
        None => None,
    };
    let a9 = a8 + crate::model::codegen_flag_opt("codegen-units="@, units);
    lemma_pairs(a8, "codegen-units="@, units);
    lemma_pairs(a9, "split-debuginfo="@, p.split_debuginfo);
}

proof fn lemma_dropped(flags: Seq<Seq<char>>, from: int)
    requires
        pairs(flags),
        0 <= from <= flags.len(),
        from % 2 == 0,
    ensures
        pairs(without_lto(flags, from)),
        forall|k: int|
            #![trigger without_lto(flags, from)[k]]
            0 <= k < without_lto(flags, from).len() && k % 2 == 1 ==> !starts(
                without_lto(flags, from)[k],
                "lto="@,
            ),
    decreases flags.len() - from,
{
    let all = without_lto(flags, from);
    if from < flags.len() {
        assert(flags[from] == "-C"@);
        assert(from + 1 < flags.len());
        assert(flags[from + 1] != "-C"@);
        lemma_dropped(flags, from + 2);
        let rest = without_lto(flags, from + 2);
        if !starts(flags[from + 1], "lto="@) {
            assert(without_lto(flags, from + 1) == seq![flags[from + 1]] + rest);
            assert(all =~= seq![flags[from], flags[from + 1]] + rest);
            assert forall|k: int| #![trigger all[k]] 0 <= k < all.len() implies (all[k] == "-C"@
                <==> k % 2 == 0) && (k % 2 == 1 ==> !starts(all[k], "lto="@)) by {
                if k >= 2 {
                    assert(all[k] == rest[k - 2]);
                }
            }
        }
    }
}

/// A proc macro is compiled without a choice of LTO.
pub proof fn proc_macros_choose_no_lto(
    p: Planner<'_>,
    u: Unit,
    t: Target,
    c: CompileUnit,
    choice: Seq<char>,
)
    requires
        unit_is(u, p, t),
        u.kind == UnitKind::Compile(c),
        c.crate_type@ == "proc-macro"@,
    ensures
        !in_turn(texts(c.profile_flags@), "-C"@, "lto="@ + choice),
{
    lemma_profile_pairs(p.profile@);
    lemma_dropped(profile_flags(p.profile@), 0);
    let all = texts(c.profile_flags@);
    let value = "lto="@ + choice;
    assert(value.take("lto="@.len() as int) =~= "lto="@);
    if in_turn(all, "-C"@, value) {
        let k = choose|k: int|
            0 <= k < all.len() - 1 && #[trigger] all[k] == "-C"@ && all[k + 1] == value;
        assert(k % 2 == 0);
        assert(!starts(all[k + 1], "lto="@));
    }
}

// ---- Sides, types and binaries ----------------------------------------------------

/// Whether the unit of a target belongs to its package's units for the host.
pub open spec fn on_host(t: Target) -> bool {
    match t {
        Target::ScriptCompile(_, host) => host,
        Target::ScriptRun(_, host) => host,
        Target::Lib(_, _, host) => host,
        Target::Macro(_) => true,
        _ => false,
    }
}

/// A crate has the metadata that is known of its name and its type; that for the host
/// is told apart, but for proc macros, which are for the host alone.
pub proof fn metadata_is_told_by_side(p: Planner<'_>, u: Unit, t: Target, c: CompileUnit)
    requires
        unit_is(u, p, t),
        u.kind == UnitKind::Compile(c),
    ensures
        ({
            let name = crate::units::meta_name(*p.model, u.package as int, c.crate_name@);
            let kind = if c.crate_type@ == "proc-macro"@ {
                "proc-macro"@
            } else {
                c.crate_type@ + side_word(on_host(t))
            };
            &&& p.metas@.contains_key(name)
            &&& p.metas@[name]@.contains_key(kind)
            &&& p.metas@[name]@[kind]@ == c.meta@
        }),
{
    assert(crate::plan::request_of(*p.model, t).host == on_host(t));
    assert(crate::units::side_suffix(on_host(t)) == side_word(on_host(t)));
}

/// Dependents link a library as an rlib where it is one, else as a static library,
/// else as a C library, and only where it is none of these as a Rust one.
pub proof fn dependents_prefer_static_crates(types: Seq<CrateType>)
    ensures
        types.len() == 0 ==> linked_type(types) is Rlib,
        types.len() > 0 ==> types.contains(linked_type(types)),
        types.contains(CrateType::Rlib) ==> linked_type(types) is Rlib,
        types.contains(CrateType::Staticlib) ==> linked_type(types) is Rlib || linked_type(
            types,
        ) is Staticlib,
        types.contains(CrateType::Cdylib) ==> !(linked_type(types) is Dylib),
{
    if types.len() == 0 {
        assert(types_of(types)[0] == CrateType::Rlib);
        assert(types_of(types).contains(CrateType::Rlib));
    } else if !types.contains(CrateType::Rlib) && !types.contains(CrateType::Staticlib)
        && !types.contains(CrateType::Cdylib) {
        assert(types.contains(types[0]));
        assert(types[0] == CrateType::Dylib);
    }
}

proof fn lemma_planned_bins(m: RustModel, i: int, n: int)
    requires
        0 <= n <= m.packages@[i].bins@.len(),
    ensures
        forall|b: (Seq<char>, Seq<char>)| #[trigger]
            crate::plan::planned_bins(m, i, n).contains(b) <==> exists|k: int|
                0 <= k < n && all_on(
                    m,
                    i,
                    (#[trigger] m.packages@[i].bins@[k]).required_features@,
                ) && b.0 == m.packages@[i].bins@[k].name@ && b.1 == "rust:bin:"@ + label_of(m, i)
                    + ":"@ + m.packages@[i].bins@[k].name@,
    decreases n,
{
    let all = crate::plan::planned_bins(m, i, n);
    let bins = m.packages@[i].bins@;
    if n > 0 {
        lemma_planned_bins(m, i, n - 1);
        let before = crate::plan::planned_bins(m, i, n - 1);
        lemma_all_on(m, i, bins[n - 1].required_features@);
        assert forall|b: (Seq<char>, Seq<char>)| #[trigger] all.contains(b) <==> exists|k: int|
            0 <= k < n && all_on(m, i, (#[trigger] bins[k]).required_features@) && b.0
                == bins[k].name@ && b.1 == "rust:bin:"@ + label_of(m, i) + ":"@ + bins[k].name@ by {
            if all.contains(b) {
                let x = choose|x: int| 0 <= x < all.len() && all[x] == b;
                if x < before.len() {
                    assert(before[x] == b);
                    assert(before.contains(b));
                } else {
                    assert(all_on(m, i, bins[n - 1].required_features@));
                }
            }
            if before.contains(b) {
                let x = choose|x: int| 0 <= x < before.len() && before[x] == b;
                assert(all[x] == b);
            }
            if exists|k: int|
                0 <= k < n && all_on(m, i, (#[trigger] bins[k]).required_features@) && b.0
                    == bins[k].name@ && b.1 == "rust:bin:"@ + label_of(m, i) + ":"@ + bins[k].name@ {
                let k = choose|k: int|
                    0 <= k < n && all_on(m, i, (#[trigger] bins[k]).required_features@) && b.0
                        == bins[k].name@ && b.1 == "rust:bin:"@ + label_of(m, i) + ":"@
                        + bins[k].name@;
                if k < n - 1 {
                    assert(before.contains(b));
                } else {
                    assert(all[before.len() as int] == b);
                }
            }
        }
    }
}

/// Whether the test of a package is its library's unit test.
pub open spec fn is_unit_test(p: Package, k: int) -> bool {
    !p.tests@[k].bench && (p.lib matches Some(lib) && lib.path@ == p.tests@[k].path@)
}

/// Integration tests and benchmarks find every binary of their package whose required
/// features are on, when they are compiled and when they are run; a unit test finds
/// none, and no other unit does.
pub proof fn tests_find_their_binaries(p: Planner<'_>, u: Unit, i: int, k: int)
    ensures
        unit_is(u, p, Target::TestCompile(i, k)) && is_unit_test(p.model.packages@[i], k)
            ==> u.kind->Compile_0.bins@.len() == 0,
        unit_is(u, p, Target::TestRun(i, k)) && is_unit_test(p.model.packages@[i], k)
            ==> u.kind->TestRun_0.bins@.len() == 0,
        unit_is(u, p, Target::Bin(i, k)) || unit_is(u, p, Target::Example(i, k)) || unit_is(
            u,
            p,
            Target::Macro(i),
        ) ==> u.kind->Compile_0.bins@.len() == 0,
        unit_is(u, p, Target::TestCompile(i, k)) && !is_unit_test(p.model.packages@[i], k)
            ==> finds_binaries(*p.model, i, pairs_view(u.kind->Compile_0.bins@)),
        unit_is(u, p, Target::TestRun(i, k)) && !is_unit_test(p.model.packages@[i], k)
            ==> finds_binaries(*p.model, i, pairs_view(u.kind->TestRun_0.bins@)),
{
    lemma_planned_bins(*p.model, i, p.model.packages@[i].bins@.len() as int);
    if u.kind is Compile {
        assert(pairs_view(u.kind->Compile_0.bins@).len() == u.kind->Compile_0.bins@.len());
    }
    if u.kind is TestRun {
        assert(pairs_view(u.kind->TestRun_0.bins@).len() == u.kind->TestRun_0.bins@.len());
    }
}

/// Whether these are the binaries of a package whose required features are on, each
/// with the unit that compiles it.
pub open spec fn finds_binaries(m: RustModel, i: int, found: Seq<(Seq<char>, Seq<char>)>) -> bool {
    forall|b: (Seq<char>, Seq<char>)| #[trigger]
        found.contains(b) <==> exists|k: int|
            0 <= k < m.packages@[i].bins@.len() && all_on(
                m,
                i,
                (#[trigger] m.packages@[i].bins@[k]).required_features@,
            ) && b.0 == m.packages@[i].bins@[k].name@ && b.1 == "rust:bin:"@ + label_of(m, i)
                + ":"@ + m.packages@[i].bins@[k].name@
}

} // verus!
