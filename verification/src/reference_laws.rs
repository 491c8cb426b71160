//! What names and references of features mean.

use vstd::prelude::*;
use vstd::string::*;
use crate::features::FeatureMap;
use crate::manifest::{patched_names, patches_of, registry_key, CargoManifest};
use crate::model::{sanitized, Dep, Package, PackageIdView, ResolverVersion, RustModel};
use crate::resolution::{
    dep_at, dep_reference, edge_ok, goes_by, host_edges, lemma_first_named, lemma_plain_edges,
    named_edge, offers, plain, plain_edges, provisional, takes_part, Domain, Edge, EdgeKind,
};
use crate::text::{decimal, starts};
use crate::text_laws::texts_split_once;
use crate::version::{version_text, VersionView};

verus! {

// ---- Names ------------------------------------------------------------------------

/// Whether two characters are the same, a hyphen and an underscore included.
pub open spec fn alike(a: char, b: char) -> bool {
    a == b || (a == '-' && b == '_') || (a == '_' && b == '-')
}

/// Whether two names are the same but for hyphens and underscores.
pub open spec fn same_name(a: Seq<char>, b: Seq<char>) -> bool {
    a.len() == b.len() && forall|k: int| 0 <= k < a.len() ==> alike(#[trigger] a[k], b[k])
}

proof fn lemma_same_name(a: Seq<char>, b: Seq<char>)
    ensures
        sanitized(a) == sanitized(b) <==> same_name(a, b),
{
    let x = sanitized(a);
    let y = sanitized(b);
    assert(x.len() == a.len() && y.len() == b.len());
    assert forall|k: int| 0 <= k < a.len() implies #[trigger] x[k] == (if a[k] == '-' {
        '_'
    } else {
        a[k]
    }) by {}
    assert forall|k: int| 0 <= k < b.len() implies #[trigger] y[k] == (if b[k] == '-' {
        '_'
    } else {
        b[k]
    }) by {}
    if x == y {
        assert forall|k: int| 0 <= k < a.len() implies alike(#[trigger] a[k], b[k]) by {
            assert(x[k] == y[k]);
        }
    }
    if same_name(a, b) {
        assert forall|k: int| 0 <= k < x.len() implies #[trigger] x[k] == y[k] by {
            assert(alike(a[k], b[k]));
        }
        assert(x =~= y);
    }
}

/// A dependency goes by its own name and by its package's; hyphens and underscores
/// count as the same in both.
pub proof fn dependencies_go_by_two_names(dep: Dep, name: Seq<char>)
    ensures
        goes_by(dep, name) <==> same_name(dep.extern_name@, name) || same_name(
            dep.package.name@,
            name,
        ),
{
    lemma_same_name(dep.extern_name@, name);
    lemma_same_name(dep.package.name@, name);
}

/// A package offers the features that it declares and one for each optional normal
/// dependency.
pub proof fn packages_offer_features(p: Package, feature: Seq<char>)
    ensures
        offers(p, feature) <==> {
            ||| p.features@.contains_key(feature)
            ||| exists|k: int|
                0 <= k < p.deps@.len() && (#[trigger] p.deps@[k]).optional && (same_name(
                    p.deps@[k].extern_name@,
                    feature,
                ) || same_name(p.deps@[k].package.name@, feature))
        },
{
    assert forall|k: int| 0 <= k < p.deps@.len() implies (goes_by(#[trigger] p.deps@[k], feature)
        <==> same_name(p.deps@[k].extern_name@, feature) || same_name(
        p.deps@[k].package.name@,
        feature,
    )) by {
        dependencies_go_by_two_names(p.deps@[k], feature);
    }
    if exists|k: int|
        0 <= k < p.deps@.len() && (#[trigger] p.deps@[k]).optional && (same_name(
            p.deps@[k].extern_name@,
            feature,
        ) || same_name(p.deps@[k].package.name@, feature)) {
        let k = choose|k: int|
            0 <= k < p.deps@.len() && (#[trigger] p.deps@[k]).optional && (same_name(
                p.deps@[k].extern_name@,
                feature,
            ) || same_name(p.deps@[k].package.name@, feature));
        assert(goes_by(p.deps@[k], feature));
    }
    if offers(p, feature) && !p.features@.contains_key(feature) {
        let k = choose|k: int|
            0 <= k < p.deps@.len() && (#[trigger] p.deps@[k]).optional && goes_by(
                p.deps@[k],
                feature,
            );
        assert(goes_by(p.deps@[k], feature));
    }
}

/// A reference names a dependency before its first slash and a feature behind it; it
/// is weak where a question mark stands before the slash.
pub proof fn references_name_a_feature_of_a_dependency(name: Seq<char>, feature: Seq<char>)
    requires
        !name.contains('/'),
    ensures
        name.len() == 0 || name.last() != '?' ==> dep_reference(name + seq!['/'] + feature) == (
            name,
            false,
            feature,
        ),
        dep_reference(name + seq!['?'] + seq!['/'] + feature) == (name, true, feature),
{
    reveal_strlit("?");
    assert("?"@ =~= seq!['?']);
    texts_split_once(name, '/', name, feature);
    if name.len() > 0 {
        assert(name.skip(name.len() - 1)[0] == name.last());
    }
    let left = name + seq!['?'];
    assert(!left.contains('/')) by {
        if left.contains('/') {
            let k = choose|k: int| 0 <= k < left.len() && left[k] == '/';
            if k < name.len() {
                assert(name[k] == '/');
            }
        }
    }
    texts_split_once(left, '/', left, feature);
    assert(left.skip(left.len() - 1) =~= seq!['?']);
    assert(left.take(left.len() - 1) =~= name);
}

// ---- Edges ------------------------------------------------------------------------

/// Normal edges count wherever their package does; build edges for the host under
/// the third resolver, and with the others before it; dev edges only where they are
/// asked for, or under the first, and never for the host.
pub proof fn edges_take_part_by_resolver(resolver: ResolverVersion, dev: bool, kind: EdgeKind)
    ensures
        takes_part(resolver, dev, EdgeKind::Normal, Domain::Target),
        takes_part(resolver, dev, kind, Domain::Host) ==> resolver is V3 && !(kind is Dev),
        resolver is V3 && !(kind is Dev) ==> takes_part(resolver, dev, kind, Domain::Host),
        takes_part(resolver, dev, EdgeKind::Build, Domain::Target) <==> !(resolver is V3),
        takes_part(resolver, true, EdgeKind::Dev, Domain::Target),
        takes_part(resolver, false, EdgeKind::Dev, Domain::Target) <==> resolver is V1,
{
}

/// Whether an edge of a list goes by a name.
pub open spec fn has_name(deps: Seq<Dep>, name: Seq<char>) -> bool {
    exists|k: int| 0 <= k < deps.len() && goes_by(#[trigger] deps[k], name)
}

/// An edge is looked for by its name among normal edges, then build edges, then dev
/// edges where they are asked for. What it leads to belongs to the host where it is a
/// build edge under the third resolver, and else to the feature's own domain.
pub proof fn edges_are_found_by_name(m: RustModel, dev: bool, i: int, name: Seq<char>, d: Domain)
    requires
        0 <= i < m.packages@.len(),
    ensures
        ({
            let p = m.packages@[i];
            match named_edge(m, dev, i, name, d) {
                None => !has_name(p.deps@, name) && !has_name(p.build_deps@, name) && (dev
                    ==> !has_name(p.dev_deps@, name)),
                Some((e, ed)) => {
                    &&& edge_ok(m.packages@, e)
                    &&& e.0 == i
                    &&& goes_by(dep_at(m.packages@, e), name)
                    &&& e.1 is Normal <==> has_name(p.deps@, name)
                    &&& e.1 is Dev ==> dev && !has_name(p.build_deps@, name)
                    &&& e.1 is Build && m.resolver is V3 ==> ed is Host
                    &&& !(e.1 is Build && m.resolver is V3) ==> ed == d
                },
            }
        }),
{
    let p = m.packages@[i];
    lemma_first_named(p.deps@, name, 0);
    lemma_first_named(p.build_deps@, name, 0);
    lemma_first_named(p.dev_deps@, name, 0);
}

/// An edge counts without any feature where it is not optional and leads to a crate.
/// One whose version is not known yet comes from a registry that has no name.
pub proof fn edges_are_plain_or_optional(m: RustModel, e: Edge)
    ensures
        plain(m, e) ==> !dep_at(m.packages@, e).optional,
        !dep_at(m.packages@, e).optional && (forall|k: int|
            0 <= k < m.cc_imports@.len() ==> (#[trigger] m.cc_imports@[k]).name@ != dep_at(
                m.packages@,
                e,
            ).package.name@) ==> plain(m, e),
        plain(m, e) ==> forall|k: int|
            0 <= k < m.cc_imports@.len() ==> (#[trigger] m.cc_imports@[k]).name@ != dep_at(
                m.packages@,
                e,
            ).package.name@,
        forall|dep: Dep| #[trigger]
            provisional(dep) <==> (dep.package@.source matches crate::model::SourceView::Registry(
                name,
            ) && name.len() == 0),
{
    let none = Seq::<char>::empty();
    assert forall|dep: Dep| #[trigger]
        provisional(dep) <==> (dep.package@.source matches crate::model::SourceView::Registry(name)
            && name.len() == 0) by {
        if let crate::model::SourceView::Registry(name) = dep.package@.source {
            if name.len() == 0 {
                assert(name =~= none);
            }
        }
    }
}

proof fn lemma_plain_all(m: RustModel, i: int, n: int, k: int)
    requires
        0 <= k < n,
        plain(m, (i, EdgeKind::Build, k)),
    ensures
        plain_edges(m, i, EdgeKind::Build, Domain::Host, n).contains(
            ((i, EdgeKind::Build, k), Domain::Host),
        ),
    decreases n,
{
    let all = plain_edges(m, i, EdgeKind::Build, Domain::Host, n);
    let before = plain_edges(m, i, EdgeKind::Build, Domain::Host, n - 1);
    let e = ((i, EdgeKind::Build, k), Domain::Host);
    if k < n - 1 {
        lemma_plain_all(m, i, n - 1, k);
        let x = choose|x: int| 0 <= x < before.len() && before[x] == e;
        assert(all[x] == e);
    } else {
        assert(all[before.len() as int] == e);
    }
}

/// The host needs what build scripts link: the plain build edges of the packages that
/// have one, and of no others.
pub proof fn build_scripts_need_their_build_edges(m: RustModel, n: int, i: int, k: int)
    requires
        0 <= n <= m.packages@.len(),
    ensures
        0 <= i < n && m.packages@[i].build_script is Some && 0 <= k
            < m.packages@[i].build_deps@.len() && plain(m, (i, EdgeKind::Build, k)) ==> host_edges(
            m,
            n,
        ).contains(((i, EdgeKind::Build, k), Domain::Host)),
        forall|x: int|
            #![trigger host_edges(m, n)[x]]
            0 <= x < host_edges(m, n).len() ==> {
                let e = host_edges(m, n)[x].0;
                &&& host_edges(m, n)[x].1 is Host
                &&& e.1 is Build
                &&& 0 <= e.0 < n
                &&& m.packages@[e.0].build_script is Some
                &&& 0 <= e.2 < m.packages@[e.0].build_deps@.len()
                &&& plain(m, e)
            },
    decreases n,
{
    if n > 0 {
        build_scripts_need_their_build_edges(m, n - 1, i, k);
        let before = host_edges(m, n - 1);
        let all = host_edges(m, n);
        let len = m.packages@[n - 1].build_deps@.len() as int;
        lemma_plain_edges(m, n - 1, EdgeKind::Build, Domain::Host, len);
        let more = plain_edges(m, n - 1, EdgeKind::Build, Domain::Host, len);
        let e = ((i, EdgeKind::Build, k), Domain::Host);
        if 0 <= i < n && m.packages@[i].build_script is Some && 0 <= k
            < m.packages@[i].build_deps@.len() && plain(m, (i, EdgeKind::Build, k)) {
            if i < n - 1 {
                let x = choose|x: int| 0 <= x < before.len() && before[x] == e;
                assert(all[x] == e);
            } else {
                lemma_plain_all(m, i, len, k);
                let x = choose|x: int| 0 <= x < more.len() && more[x] == e;
                assert(all[before.len() as int + x] == e);
            }
        }
        assert forall|x: int| #![trigger all[x]] 0 <= x < all.len() implies {
            let e = all[x].0;
            &&& all[x].1 is Host
            &&& e.1 is Build
            &&& 0 <= e.0 < n
            &&& m.packages@[e.0].build_script is Some
            &&& 0 <= e.2 < m.packages@[e.0].build_deps@.len()
            &&& plain(m, e)
        } by {
            if x < before.len() {
                assert(all[x] == before[x]);
            } else {
                assert(all[x] == more[x - before.len()]);
            }
        }
    }
}

/// The features of a package for the host are those resolved for the host, where
/// there are any, and else those for the target. An edge is on where it is in either.
pub proof fn features_are_told_by_side(map: FeatureMap, id: PackageIdView, name: Seq<char>)
    ensures
        map.packages@.contains_key(id) ==> map.features_of(id, false) == map.packages@[id],
        !map.packages@.contains_key(id) ==> map.features_of(id, false).len() == 0,
        !map.host_domain || !map.build_features@.contains_key(id) ==> map.features_of(id, true)
            == map.features_of(id, false),
        map.host_domain && map.build_features@.contains_key(id) ==> map.features_of(id, true)
            == map.build_features@[id],
        map.active_optional_deps@.contains_key(id) && map.active_optional_deps@[id].contains(name)
            ==> map.edge_on(id, name),
        map.active_build_optional_deps@.contains_key(id)
            && map.active_build_optional_deps@[id].contains(name) ==> map.edge_on(id, name),
        !map.active_optional_deps@.contains_key(id) && !map.active_build_optional_deps@.contains_key(
            id,
        ) ==> !map.edge_on(id, name),
        map.edge_on(id, name) ==> (map.active_optional_deps@.contains_key(id)
            && map.active_optional_deps@[id].contains(name)) || (
        map.active_build_optional_deps@.contains_key(id)
            && map.active_build_optional_deps@[id].contains(name)),
{
}

// ---- Patches and versions ---------------------------------------------------------

proof fn lemma_registry_key(keys: Seq<Seq<char>>, from: int)
    requires
        0 <= from,
    ensures
        match registry_key(keys, from) {
            Some(k) => from <= k < keys.len() && starts(keys[k], "registry+"@) && forall|j: int|
                from <= j < k ==> !starts(#[trigger] keys[j], "registry+"@),
            None => forall|j: int| from <= j < keys.len() ==> !starts(
                #[trigger] keys[j],
                "registry+"@,
            ),
        },
    decreases keys.len() - from,
{
    if from < keys.len() && !starts(keys[from], "registry+"@) {
        lemma_registry_key(keys, from + 1);
    }
}

/// The patches of a workspace are those of `crates-io`, else those of the first source
/// that is a registry; without either there are none.
pub proof fn patches_are_those_of_the_registry(manifest: &CargoManifest)
    ensures
        manifest.patch@.contains_key("crates-io"@) ==> patches_of(manifest) == Some(
            &manifest.patch@["crates-io"@],
        ),
        !manifest.patch@.contains_key("crates-io"@) ==> match patches_of(manifest) {
            Some(table) => exists|k: int|
                0 <= k < manifest.patch.keys().len() && starts(
                    #[trigger] manifest.patch.keys()[k],
                    "registry+"@,
                ) && *table == manifest.patch.values()[k] && forall|j: int|
                    0 <= j < k ==> !starts(#[trigger] manifest.patch.keys()[j], "registry+"@),
            None => forall|k: int|
                0 <= k < manifest.patch.keys().len() ==> !starts(
                    #[trigger] manifest.patch.keys()[k],
                    "registry+"@,
                ),
        },
        patches_of(manifest) matches Some(table) ==> patched_names(manifest) == table.keys(),
        patches_of(manifest) is None ==> patched_names(manifest).len() == 0,
{
    lemma_registry_key(manifest.patch.keys(), 0);
}

/// A version is written as its three numbers with dots between them; what comes
/// before a release stands behind a hyphen, what is known of its build behind a plus.
pub proof fn versions_are_written_in_order(v: VersionView)
    ensures
        v.pre.len() == 0 && v.build.len() == 0 ==> version_text(v) == decimal(v.major as nat)
            + "."@ + decimal(v.minor as nat) + "."@ + decimal(v.patch as nat),
        v.pre.len() > 0 && v.build.len() == 0 ==> version_text(v) == version_text(
            VersionView { pre: Seq::empty(), ..v },
        ) + "-"@ + v.pre,
        v.build.len() > 0 ==> version_text(v) == version_text(
            VersionView { build: Seq::empty(), ..v },
        ) + "+"@ + v.build,
{
}

} // verus!
