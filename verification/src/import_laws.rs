//! What every import keeps.

use vstd::prelude::*;
use crate::deps::OriginView;
use crate::disk::{Disk, StopView};
use crate::import::{
    bare_package, declared, declared_all, declared_optional, decls_of, deps_of, forced_below,
    forced_by, general_table, identity_of, imported, imported_deps, imported_in, imported_members,
    imported_package, inherited_package, is_visiting, merged_tables, optional_anywhere_of,
    optional_in, place_of, provisional_id, resolved_decls, table_decls, target_table, DeclView,
    DepKind, EnvView, ForcedView, ImportView, ResolvedView,
};
use crate::manifest::{
    resolved_field, CargoImportError, CargoManifest, CargoPackage, CargoWorkspace, DepValue,
};
use crate::model::{DepView, PackageIdView, PackageView};
use crate::strmap::{ascending, StrMap};
use crate::version::{parsed_version, semver_parsed, VersionView};

verus! {

/// The name of the package in a directory whose manifest is known.
pub open spec fn name_in(env: EnvView<'_>, dir: Seq<char>) -> Seq<char> {
    match env.disk.manifests@[dir] {
        Ok(manifest) => match manifest.package {
            Some(package) => package.name@,
            None => Seq::empty(),
        },
        Err(_) => Seq::empty(),
    }
}

/// Whether an imported package has a name.
pub open spec fn has_name(packages: Seq<(Seq<char>, PackageView)>, name: Seq<char>) -> bool {
    exists|i: int| 0 <= i < packages.len() && (#[trigger] packages[i]).1.id.name == name
}

/// Whether a package that is being imported has a name.
spec fn visits_name(env: EnvView<'_>, visiting: Seq<(Seq<char>, bool)>, name: Seq<char>) -> bool {
    exists|k: int| 0 <= k < visiting.len() && name_in(env, (#[trigger] visiting[k]).0) == name
}

spec fn known_name(env: EnvView<'_>, st: ImportView, name: Seq<char>) -> bool {
    has_name(st.packages, name) || visits_name(env, st.visiting, name)
}

/// Whether an identity waits for the lockfile.
pub open spec fn is_provisional(id: PackageIdView) -> bool {
    id == provisional_id(id.name)
}

spec fn edges_known(env: EnvView<'_>, st: ImportView, deps: Seq<DepView>) -> bool {
    forall|k: int|
        0 <= k < deps.len() ==> is_provisional((#[trigger] deps[k]).package) || known_name(
            env,
            st,
            deps[k].package.name,
        )
}

/// Whether an entry is filed under its directory and its identity has its name.
pub open spec fn well_filed(entry: (Seq<char>, PackageView)) -> bool {
    entry.1.dir == entry.0 && entry.1.name == entry.1.id.name
}

spec fn holds(env: EnvView<'_>, st: ImportView) -> bool {
    &&& forall|i: int|
        0 <= i < st.packages.len() ==> {
            &&& well_filed(#[trigger] st.packages[i])
            &&& edges_known(env, st, st.packages[i].1.deps)
            &&& edges_known(env, st, st.packages[i].1.build_deps)
            &&& edges_known(env, st, st.packages[i].1.dev_deps)
        }
    &&& forall|i: int, j: int|
        0 <= i < j < st.packages.len() ==> (#[trigger] st.packages[i]).0 != (
        #[trigger] st.packages[j]).0
    &&& forall|i: int|
        0 <= i < st.packages.len() ==> !is_visiting(st.visiting, (#[trigger] st.packages[i]).0)
}

/// Whether one state knows every name that another does.
spec fn knows_more(env: EnvView<'_>, a: ImportView, b: ImportView) -> bool {
    forall|name: Seq<char>| #[trigger] known_name(env, a, name) ==> known_name(env, b, name)
}

proof fn lemma_edges_grow(env: EnvView<'_>, a: ImportView, b: ImportView, deps: Seq<DepView>)
    requires
        edges_known(env, a, deps),
        knows_more(env, a, b),
    ensures
        edges_known(env, b, deps),
{
    assert forall|k: int| 0 <= k < deps.len() implies is_provisional((#[trigger] deps[k]).package)
        || known_name(env, b, deps[k].package.name) by {
        if !is_provisional(deps[k].package) {
            assert(known_name(env, a, deps[k].package.name));
        }
    }
}

pub(crate) proof fn lemma_imported_in(packages: Seq<(Seq<char>, PackageView)>, dir: Seq<char>)
    ensures
        match imported_in(packages, dir) {
            Some(id) => exists|i: int|
                0 <= i < packages.len() && (#[trigger] packages[i]).0 == dir && packages[i].1.id
                    == id,
            None => forall|i: int| 0 <= i < packages.len() ==> (#[trigger] packages[i]).0 != dir,
        },
    decreases packages.len(),
{
    if packages.len() > 0 {
        if packages.last().0 == dir {
            assert(packages[packages.len() - 1].0 == dir);
        } else {
            let before = packages.drop_last();
            lemma_imported_in(before, dir);
            if imported_in(before, dir) is Some {
                let i = choose|i: int|
                    0 <= i < before.len() && (#[trigger] before[i]).0 == dir && before[i].1.id
                        == imported_in(before, dir)->0;
                assert(packages[i] == before[i]);
            } else {
                assert forall|i: int| 0 <= i < packages.len() implies (#[trigger] packages[i]).0
                    != dir by {
                    if i < before.len() {
                        assert(packages[i] == before[i]);
                    }
                }
            }
        }
    }
}

pub(crate) proof fn lemma_place(packages: Seq<(Seq<char>, PackageView)>, dir: Seq<char>, from: int)
    requires
        0 <= from <= packages.len(),
    ensures
        from <= place_of(packages, dir, from) <= packages.len(),
    decreases packages.len() - from,
{
    if from < packages.len() && place_of(packages, dir, from) != from {
        lemma_place(packages, dir, from + 1);
    }
}

pub(crate) proof fn lemma_identity_name(
    name: Seq<char>,
    version: Seq<char>,
    parsed: Result<VersionView, Seq<char>>,
    forced: Option<ForcedView>,
    member: bool,
    dir: Seq<char>,
    canonical: Seq<char>,
    root: Seq<char>,
)
    ensures
        match identity_of(name, version, parsed, forced, member, dir, canonical, root) {
            Ok(id) => id.name == name,
            Err(_) => true,
        },
{
}

/// What an import gives: a state that keeps what holds, visits the same packages
/// and knows no fewer names, and an identity whose name is known, that of an
/// imported package unless the package is being visited.
spec fn keeps(
    env: EnvView<'_>,
    st: ImportView,
    r: Result<(ImportView, PackageIdView), StopView>,
) -> bool {
    match r {
        Err(_) => true,
        Ok((after, id)) => {
            &&& holds(env, after)
            &&& after.visiting == st.visiting
            &&& knows_more(env, st, after)
            &&& known_name(env, after, id.name)
            &&& ids_grow(st, after)
            &&& st.visiting.len() == 0 ==> has_id(after.packages, id)
        },
    }
}

/// Whether an imported package has an identity.
pub open spec fn has_id(packages: Seq<(Seq<char>, PackageView)>, id: PackageIdView) -> bool {
    exists|i: int| 0 <= i < packages.len() && (#[trigger] packages[i]).1.id == id
}

spec fn ids_grow(a: ImportView, b: ImportView) -> bool {
    forall|id: PackageIdView| #[trigger] has_id(a.packages, id) ==> has_id(b.packages, id)
}

proof fn lemma_imported(
    env: EnvView<'_>,
    st: ImportView,
    dir: Seq<char>,
    is_member: bool,
    via_dev: bool,
    forced: Option<ForcedView>,
    ws: Option<&CargoWorkspace>,
    n: nat,
)
    requires
        holds(env, st),
    ensures
        keeps(env, st, imported(env, st, dir, is_member, via_dev, forced, ws, n)),
    decreases n, 1int, 0int, 0int,
{
    if env.disk.canonical@.contains_key(dir) {
        if let Ok(c) = env.disk.canonical@[dir] {
            let canonical = c@;
            let member = is_member || env.members.contains(canonical);
            lemma_imported_in(st.packages, canonical);
            if let Some(id) = imported_in(st.packages, canonical) {
                let i = choose|i: int|
                    0 <= i < st.packages.len() && (#[trigger] st.packages[i]).0 == canonical
                        && st.packages[i].1.id == id;
                assert(has_name(st.packages, id.name));
                assert(has_id(st.packages, id));
            } else if env.disk.manifests@.contains_key(canonical) {
                if let Ok(manifest) = env.disk.manifests@[canonical] {
                    let own = match manifest.workspace {
                        Some(w) => Some(&w),
                        None => ws,
                    };
                    if let Some(package) = manifest.package {
                        lemma_imported_package(
                            env,
                            st,
                            dir,
                            canonical,
                            member,
                            via_dev,
                            forced,
                            manifest,
                            package,
                            own,
                            n,
                        );
                    }
                }
            }
        }
    }
}

proof fn lemma_imported_package(
    env: EnvView<'_>,
    st: ImportView,
    dir: Seq<char>,
    canonical: Seq<char>,
    member: bool,
    via_dev: bool,
    forced: Option<ForcedView>,
    manifest: CargoManifest,
    package: CargoPackage,
    ws: Option<&CargoWorkspace>,
    n: nat,
)
    requires
        holds(env, st),
        env.disk.manifests@.contains_key(canonical),
        env.disk.manifests@[canonical] == Ok::<CargoManifest, CargoImportError>(
            manifest,
        ),
        manifest.package == Some(package),
        forall|i: int| 0 <= i < st.packages.len() ==> (#[trigger] st.packages[i]).0 != canonical,
    ensures
        keeps(
            env,
            st,
            imported_package(
                env,
                st,
                dir,
                canonical,
                member,
                via_dev,
                forced,
                manifest,
                package,
                ws,
                n,
            ),
        ),
    decreases n, 0int, 1int, 0int,
{
    let name = package.name@;
    let fields = inherited_package(ws);
    let version = resolved_field(
        package.version,
        fields,
        name,
        "version"@,
        canonical,
        "0.0.0"@,
    );
    let edition = resolved_field(
        package.edition,
        fields,
        name,
        "edition"@,
        canonical,
        "2015"@,
    );
    assert(name_in(env, canonical) == name);
    if version is Ok && edition is Ok {
        let parsed = parsed_version(semver_parsed(version->Ok_0));
        let identity = identity_of(
            name,
            version->Ok_0,
            parsed,
            forced,
            member,
            dir,
            canonical,
            env.root,
        );
        lemma_identity_name(
            name,
            version->Ok_0,
            parsed,
            forced,
            member,
            dir,
            canonical,
            env.root,
        );
        if identity is Ok {
            let id = identity->Ok_0;
            if is_visiting(st.visiting, canonical) {
                let k = choose|k: int|
                    0 <= k < st.visiting.len() && (#[trigger] st.visiting[k]).0 == canonical;
                assert(visits_name(env, st.visiting, name));
            } else {
                let bare = bare_package(
                    env,
                    manifest,
                    package,
                    inherited_package(ws),
                    id,
                    canonical,
                    version->Ok_0,
                    edition->Ok_0,
                );
                let decls = decls_of(manifest, member);
                let resolved = resolved_decls(
                    env,
                    id,
                    canonical,
                    ws,
                    decls,
                    decls.len() as int,
                    st.used,
                );
                if bare is Ok && resolved is Ok {
                    let deps = resolved->Ok_0.0;
                    let within = ImportView {
                        visiting: st.visiting.push((canonical, via_dev)),
                        used: resolved->Ok_0.1,
                        ..st
                    };
                    lemma_enter(env, st, within, canonical, via_dev);
                    lemma_imported_deps(env, within, deps, deps.len() as int, forced, ws, n);
                    let r = imported_deps(env, within, deps, deps.len() as int, forced, ws, n);
                    if r is Ok {
                        lemma_leave(
                            env,
                            st,
                            within,
                            canonical,
                            via_dev,
                            r->Ok_0.0,
                            r->Ok_0.1,
                            deps,
                            bare->Ok_0,
                        );
                    }
                }
            }
        }
    }
}

proof fn lemma_enter(
    env: EnvView<'_>,
    st: ImportView,
    within: ImportView,
    canonical: Seq<char>,
    via_dev: bool,
)
    requires
        holds(env, st),
        within.packages == st.packages,
        within.visiting == st.visiting.push((canonical, via_dev)),
        forall|i: int| 0 <= i < st.packages.len() ==> (#[trigger] st.packages[i]).0 != canonical,
    ensures
        holds(env, within),
        knows_more(env, st, within),
{
    assert(knows_more(env, st, within)) by {
        assert forall|name: Seq<char>| #[trigger] known_name(env, st, name) implies known_name(
            env,
            within,
            name,
        ) by {
            if visits_name(env, st.visiting, name) {
                let k = choose|k: int|
                    0 <= k < st.visiting.len() && name_in(env, (#[trigger] st.visiting[k]).0)
                        == name;
                assert(within.visiting[k] == st.visiting[k]);
                assert(visits_name(env, within.visiting, name));
            }
        }
    }
    assert forall|i: int| 0 <= i < within.packages.len() implies {
        &&& well_filed(#[trigger] within.packages[i])
        &&& edges_known(env, within, within.packages[i].1.deps)
        &&& edges_known(env, within, within.packages[i].1.build_deps)
        &&& edges_known(env, within, within.packages[i].1.dev_deps)
    } by {
        lemma_edges_grow(env, st, within, st.packages[i].1.deps);
        lemma_edges_grow(env, st, within, st.packages[i].1.build_deps);
        lemma_edges_grow(env, st, within, st.packages[i].1.dev_deps);
    }
    assert forall|i: int| 0 <= i < within.packages.len() implies !is_visiting(
        within.visiting,
        (#[trigger] within.packages[i]).0,
    ) by {
        let d = st.packages[i].0;
        assert(!is_visiting(st.visiting, d));
        if is_visiting(within.visiting, d) {
            let k = choose|k: int|
                0 <= k < within.visiting.len() && (#[trigger] within.visiting[k]).0 == d;
            if k < st.visiting.len() {
                assert(st.visiting[k] == within.visiting[k]);
            }
        }
    }
}

/// Whether each identity waits for the lockfile or has a known name.
spec fn ids_known(env: EnvView<'_>, st: ImportView, ids: Seq<PackageIdView>) -> bool {
    forall|k: int|
        0 <= k < ids.len() ==> is_provisional(#[trigger] ids[k]) || known_name(
            env,
            st,
            ids[k].name,
        )
}

proof fn lemma_deps_known(
    env: EnvView<'_>,
    st: ImportView,
    resolved: Seq<ResolvedView>,
    ids: Seq<PackageIdView>,
    kind: DepKind,
    n: int,
)
    requires
        ids_known(env, st, ids),
        0 <= n <= ids.len(),
    ensures
        edges_known(env, st, deps_of(resolved, ids, kind, n)),
    decreases n,
{
    if n > 0 {
        lemma_deps_known(env, st, resolved, ids, kind, n - 1);
        let before = deps_of(resolved, ids, kind, n - 1);
        let after = deps_of(resolved, ids, kind, n);
        assert forall|k: int| 0 <= k < after.len() implies is_provisional(
            (#[trigger] after[k]).package,
        ) || known_name(env, st, after[k].package.name) by {
            if k < before.len() {
                assert(after[k] == before[k]);
            } else {
                assert(after[k].package == ids[n - 1]);
            }
        }
    }
}

proof fn lemma_leave(
    env: EnvView<'_>,
    st: ImportView,
    within: ImportView,
    canonical: Seq<char>,
    via_dev: bool,
    after: ImportView,
    ids: Seq<PackageIdView>,
    deps: Seq<ResolvedView>,
    bare: PackageView,
)
    requires
        within.packages == st.packages,
        within.visiting == st.visiting.push((canonical, via_dev)),
        knows_more(env, st, within),
        holds(env, after),
        after.visiting == within.visiting,
        knows_more(env, within, after),
        ids_grow(within, after),
        ids_known(env, after, ids),
        ids.len() == deps.len(),
        !is_visiting(st.visiting, canonical),
        bare.dir == canonical,
        bare.name == bare.id.name,
        bare.id.name == name_in(env, canonical),
    ensures
        ({
            let k = deps.len() as int;
            let done = PackageView {
                deps: deps_of(deps, ids, DepKind::Normal, k),
                build_deps: deps_of(deps, ids, DepKind::Build, k),
                dev_deps: deps_of(deps, ids, DepKind::Dev, k),
                ..bare
            };
            let end = ImportView {
                packages: after.packages.insert(
                    place_of(after.packages, canonical, 0),
                    (canonical, done),
                ),
                visiting: st.visiting,
                used: after.used,
            };
            &&& holds(env, end)
            &&& knows_more(env, st, end)
            &&& known_name(env, end, bare.id.name)
            &&& ids_grow(st, end)
            &&& has_id(end.packages, bare.id)
        }),
{
    let k = deps.len() as int;
    let done = PackageView {
        deps: deps_of(deps, ids, DepKind::Normal, k),
        build_deps: deps_of(deps, ids, DepKind::Build, k),
        dev_deps: deps_of(deps, ids, DepKind::Dev, k),
        ..bare
    };
    let at = place_of(after.packages, canonical, 0);
    lemma_place(after.packages, canonical, 0);
    let end = ImportView {
        packages: after.packages.insert(at, (canonical, done)),
        visiting: st.visiting,
        used: after.used,
    };
    let old_at = |i: int| if i < at {
        i
    } else {
        i - 1
    };
    assert(end.packages[at] == (canonical, done));
    assert(has_id(end.packages, bare.id));
    assert(has_name(end.packages, bare.id.name));
    assert forall|name: Seq<char>| #[trigger] known_name(env, after, name) implies known_name(
        env,
        end,
        name,
    ) by {
        if has_name(after.packages, name) {
            let i = choose|i: int|
                0 <= i < after.packages.len() && (#[trigger] after.packages[i]).1.id.name == name;
            let j = if i < at {
                i
            } else {
                i + 1
            };
            assert(end.packages[j] == after.packages[i]);
        } else {
            let v = choose|v: int|
                0 <= v < after.visiting.len() && name_in(env, (#[trigger] after.visiting[v]).0)
                    == name;
            if v < st.visiting.len() {
                assert(st.visiting[v] == after.visiting[v]);
                assert(visits_name(env, st.visiting, name));
            } else {
                assert(after.visiting[v].0 == canonical);
            }
        }
    }
    assert(knows_more(env, after, end));
    assert(knows_more(env, st, end)) by {
        assert forall|name: Seq<char>| #[trigger] known_name(env, st, name) implies known_name(
            env,
            end,
            name,
        ) by {
            assert(known_name(env, within, name));
            assert(known_name(env, after, name));
        }
    }
    assert(ids_grow(st, end)) by {
        assert forall|id: PackageIdView| #[trigger] has_id(st.packages, id) implies has_id(
            end.packages,
            id,
        ) by {
            assert(has_id(within.packages, id));
            let i = choose|i: int|
                0 <= i < after.packages.len() && (#[trigger] after.packages[i]).1.id == id;
            let j = if i < at {
                i
            } else {
                i + 1
            };
            assert(end.packages[j] == after.packages[i]);
        }
    }
    lemma_deps_known(env, after, deps, ids, DepKind::Normal, k);
    lemma_deps_known(env, after, deps, ids, DepKind::Build, k);
    lemma_deps_known(env, after, deps, ids, DepKind::Dev, k);
    assert forall|i: int| 0 <= i < end.packages.len() implies {
        &&& well_filed(#[trigger] end.packages[i])
        &&& edges_known(env, end, end.packages[i].1.deps)
        &&& edges_known(env, end, end.packages[i].1.build_deps)
        &&& edges_known(env, end, end.packages[i].1.dev_deps)
    } by {
        if i != at {
            let o = old_at(i);
            assert(end.packages[i] == after.packages[o]);
        }
        let p = end.packages[i].1;
        lemma_edges_grow(env, after, end, p.deps);
        lemma_edges_grow(env, after, end, p.build_deps);
        lemma_edges_grow(env, after, end, p.dev_deps);
    }
    assert forall|i: int| 0 <= i < after.packages.len() implies (#[trigger] after.packages[i]).0
        != canonical && !is_visiting(st.visiting, after.packages[i].0) by {
        let d = after.packages[i].0;
        assert(!is_visiting(after.visiting, d));
        assert(after.visiting[st.visiting.len() as int].0 == canonical);
        if is_visiting(st.visiting, d) {
            let v = choose|v: int|
                0 <= v < st.visiting.len() && (#[trigger] st.visiting[v]).0 == d;
            assert(after.visiting[v] == st.visiting[v]);
        }
    }
    assert forall|i: int, j: int| 0 <= i < j < end.packages.len() implies (
    #[trigger] end.packages[i]).0 != (#[trigger] end.packages[j]).0 by {
        if i == at {
            assert(end.packages[j] == after.packages[old_at(j)]);
        } else if j == at {
            assert(end.packages[i] == after.packages[old_at(i)]);
        } else {
            assert(end.packages[i] == after.packages[old_at(i)]);
            assert(end.packages[j] == after.packages[old_at(j)]);
            assert(old_at(i) < old_at(j));
        }
    }
    assert forall|i: int| 0 <= i < end.packages.len() implies !is_visiting(
        end.visiting,
        (#[trigger] end.packages[i]).0,
    ) by {
        if i != at {
            assert(end.packages[i] == after.packages[old_at(i)]);
        }
    }
}

proof fn lemma_imported_deps(
    env: EnvView<'_>,
    st: ImportView,
    deps: Seq<ResolvedView>,
    k: int,
    forced: Option<ForcedView>,
    ws: Option<&CargoWorkspace>,
    n: nat,
)
    requires
        holds(env, st),
        0 <= k <= deps.len(),
    ensures
        match imported_deps(env, st, deps, k, forced, ws, n) {
            Err(_) => true,
            Ok((after, ids)) => {
                &&& holds(env, after)
                &&& after.visiting == st.visiting
                &&& knows_more(env, st, after)
                &&& ids_grow(st, after)
                &&& ids_known(env, after, ids)
                &&& ids.len() == k
            },
        },
    decreases n, 0int, 0int, k,
{
    if k > 0 {
        lemma_imported_deps(env, st, deps, k - 1, forced, ws, n);
        let r = imported_deps(env, st, deps, k - 1, forced, ws, n);
        if r is Ok {
            let before = r->Ok_0.0;
            let ids = r->Ok_0.1;
            let dep = deps[k - 1];
            let via = dep.kind == DepKind::Dev || dep.plan.optional;
            match (dep.plan.origin, dep.locked) {
                (OriginView::Path(path), _) => {
                    if n > 0 {
                        lemma_imported(
                            env,
                            before,
                            path,
                            false,
                            via,
                            forced_below(forced),
                            ws,
                            (n - 1) as nat,
                        );
                        let m = imported(
                            env,
                            before,
                            path,
                            false,
                            via,
                            forced_below(forced),
                            ws,
                            (n - 1) as nat,
                        );
                        if m is Ok {
                            lemma_ids_push(env, st, before, m->Ok_0.0, ids, m->Ok_0.1);
                        }
                    }
                },
                (OriginView::Edge(_), Some(locked)) => {
                    if n > 0 {
                        lemma_imported(
                            env,
                            before,
                            locked.source_dir,
                            false,
                            via,
                            Some(forced_by(locked)),
                            ws,
                            (n - 1) as nat,
                        );
                        let m = imported(
                            env,
                            before,
                            locked.source_dir,
                            false,
                            via,
                            Some(forced_by(locked)),
                            ws,
                            (n - 1) as nat,
                        );
                        if m is Ok {
                            lemma_ids_push(env, st, before, m->Ok_0.0, ids, m->Ok_0.1);
                        }
                    }
                },
                (OriginView::Edge(_), None) => {
                    lemma_ids_push(
                        env,
                        st,
                        before,
                        before,
                        ids,
                        provisional_id(dep.plan.package),
                    );
                },
            }
        }
    }
}

proof fn lemma_ids_push(
    env: EnvView<'_>,
    st: ImportView,
    before: ImportView,
    after: ImportView,
    ids: Seq<PackageIdView>,
    id: PackageIdView,
)
    requires
        knows_more(env, st, before),
        knows_more(env, before, after),
        ids_grow(st, before),
        ids_grow(before, after),
        ids_known(env, before, ids),
        is_provisional(id) || known_name(env, after, id.name),
    ensures
        knows_more(env, st, after),
        ids_grow(st, after),
        ids_known(env, after, ids.push(id)),
{
    assert forall|name: Seq<char>| #[trigger] known_name(env, st, name) implies known_name(
        env,
        after,
        name,
    ) by {
        assert(known_name(env, before, name));
    }
    assert forall|x: PackageIdView| #[trigger] has_id(st.packages, x) implies has_id(
        after.packages,
        x,
    ) by {
        assert(has_id(before.packages, x));
    }
    let all = ids.push(id);
    assert forall|k: int| 0 <= k < all.len() implies is_provisional(#[trigger] all[k])
        || known_name(env, after, all[k].name) by {
        if k < ids.len() {
            assert(all[k] == ids[k]);
            if !is_provisional(ids[k]) {
                assert(known_name(env, before, ids[k].name));
            }
        }
    }
}

proof fn lemma_imported_members(
    env: EnvView<'_>,
    ws: Option<&CargoWorkspace>,
    members: Seq<Seq<char>>,
    n: int,
)
    requires
        0 <= n <= members.len(),
    ensures
        match imported_members(env, ws, members, n) {
            Err(_) => true,
            Ok((st, ids)) => {
                &&& holds(env, st)
                &&& st.visiting.len() == 0
                &&& ids.len() == n
                &&& forall|k: int| 0 <= k < n ==> has_id(st.packages, #[trigger] ids[k])
            },
        },
    decreases n,
{
    if n > 0 {
        lemma_imported_members(env, ws, members, n - 1);
        let r = imported_members(env, ws, members, n - 1);
        if r is Ok {
            let st = r->Ok_0.0;
            let ids = r->Ok_0.1;
            let depth = env.disk.manifests.keys().len();
            lemma_imported(env, st, members[n - 1], true, false, None, ws, depth);
            let m = imported(env, st, members[n - 1], true, false, None, ws, depth);
            if m is Ok {
                let after = m->Ok_0.0;
                let all = ids.push(m->Ok_0.1);
                assert forall|k: int| 0 <= k < n implies has_id(after.packages, #[trigger] all[k]) by {
                    if k < n - 1 {
                        assert(all[k] == ids[k]);
                        assert(has_id(st.packages, ids[k]));
                    }
                }
            }
        }
    }
}

/// A package is imported once: no two imported packages are of one directory, and
/// each is filed under its own.
pub proof fn packages_are_imported_once(
    env: EnvView<'_>,
    ws: Option<&CargoWorkspace>,
    members: Seq<Seq<char>>,
)
    requires
        imported_members(env, ws, members, members.len() as int) is Ok,
    ensures
        ({
            let packages = imported_members(env, ws, members, members.len() as int)->Ok_0.0.packages;
            &&& forall|i: int| 0 <= i < packages.len() ==> well_filed(#[trigger] packages[i])
            &&& forall|i: int, j: int|
                0 <= i < j < packages.len() ==> (#[trigger] packages[i]).1.dir != (
                #[trigger] packages[j]).1.dir
        }),
{
    lemma_imported_members(env, ws, members, members.len() as int);
    let packages = imported_members(env, ws, members, members.len() as int)->Ok_0.0.packages;
    assert forall|i: int, j: int| 0 <= i < j < packages.len() implies (
    #[trigger] packages[i]).1.dir != (#[trigger] packages[j]).1.dir by {
        assert(well_filed(packages[i]) && well_filed(packages[j]));
    }
}

/// Every member of a workspace is among the imported packages.
pub proof fn members_are_imported(
    env: EnvView<'_>,
    ws: Option<&CargoWorkspace>,
    members: Seq<Seq<char>>,
    k: int,
)
    requires
        imported_members(env, ws, members, members.len() as int) is Ok,
        0 <= k < members.len(),
    ensures
        ({
            let (st, ids) = imported_members(env, ws, members, members.len() as int)->Ok_0;
            has_id(st.packages, ids[k])
        }),
{
    lemma_imported_members(env, ws, members, members.len() as int);
}

/// Whether each edge waits for the lockfile or names an imported package.
pub open spec fn edges_lead(packages: Seq<(Seq<char>, PackageView)>, deps: Seq<DepView>) -> bool {
    forall|k: int|
        0 <= k < deps.len() ==> is_provisional((#[trigger] deps[k]).package) || has_name(
            packages,
            deps[k].package.name,
        )
}

proof fn lemma_edges_lead(env: EnvView<'_>, st: ImportView, deps: Seq<DepView>)
    requires
        edges_known(env, st, deps),
        st.visiting.len() == 0,
    ensures
        edges_lead(st.packages, deps),
{
    assert forall|k: int| 0 <= k < deps.len() implies is_provisional((#[trigger] deps[k]).package)
        || has_name(st.packages, deps[k].package.name) by {
        if !is_provisional(deps[k].package) {
            assert(known_name(env, st, deps[k].package.name));
        }
    }
}

/// Whatever a package depends on is imported with it: each edge names an imported
/// package, unless it waits for the lockfile.
pub proof fn dependencies_are_imported(
    env: EnvView<'_>,
    ws: Option<&CargoWorkspace>,
    members: Seq<Seq<char>>,
    i: int,
)
    requires
        imported_members(env, ws, members, members.len() as int) is Ok,
        0 <= i < imported_members(env, ws, members, members.len() as int)->Ok_0.0.packages.len(),
    ensures
        ({
            let packages = imported_members(env, ws, members, members.len() as int)->Ok_0.0.packages;
            &&& edges_lead(packages, packages[i].1.deps)
            &&& edges_lead(packages, packages[i].1.build_deps)
            &&& edges_lead(packages, packages[i].1.dev_deps)
        }),
{
    lemma_imported_members(env, ws, members, members.len() as int);
    let st = imported_members(env, ws, members, members.len() as int)->Ok_0.0;
    let p = st.packages[i];
    assert(well_filed(p));
    lemma_edges_lead(env, st, p.1.deps);
    lemma_edges_lead(env, st, p.1.build_deps);
    lemma_edges_lead(env, st, p.1.dev_deps);
}

// ---- Dependency tables ------------------------------------------------------------

/// The number of edges in the first `n` target tables, of one kind.
pub open spec fn target_edges(manifest: CargoManifest, kind: DepKind, n: int) -> nat
    decreases n,
{
    if n <= 0 {
        0
    } else {
        target_edges(manifest, kind, n - 1) + target_table(
            manifest.target.values()[n - 1],
            kind,
        ).keys().len()
    }
}

proof fn lemma_declared_len(manifest: CargoManifest, kind: DepKind, n: int)
    requires
        0 <= n,
    ensures
        declared(manifest, kind, n).len() == general_table(manifest, kind).keys().len()
            + target_edges(manifest, kind, n),
    decreases n,
{
    if n > 0 {
        lemma_declared_len(manifest, kind, n - 1);
    }
}

/// Every edge is kept, also where several tables have one of the same name: there
/// are as many as all tables have together.
pub proof fn every_declared_edge_is_kept(manifest: CargoManifest, kind: DepKind)
    ensures
        declared_all(manifest, kind).len() == general_table(manifest, kind).keys().len()
            + target_edges(manifest, kind, manifest.target.keys().len() as int),
{
    lemma_declared_len(manifest, kind, manifest.target.keys().len() as int);
}

/// Merged tables do not depend on the host: whatever is known of it, the edges and
/// the optional names are the same.
pub proof fn merged_tables_do_not_depend_on_the_host(a: Disk, b: Disk, manifest: CargoManifest)
    requires
        merged_tables(a, manifest) is Ok,
        merged_tables(b, manifest) is Ok,
    ensures
        merged_tables(a, manifest) == merged_tables(b, manifest),
{
}

/// Whether the tables of a manifest have their keys in order, as maps have.
pub open spec fn tables_in_order(manifest: CargoManifest) -> bool {
    &&& ascending(manifest.dependencies.keys())
    &&& ascending(manifest.build_dependencies.keys())
    &&& forall|k: int|
        0 <= k < manifest.target.values().len() ==> ascending(
            (#[trigger] manifest.target.values()[k]).dependencies.keys(),
        ) && ascending(manifest.target.values()[k].build_dependencies.keys())
}

/// Whether a declaration of these declares a name optional.
pub open spec fn declares_optional(decls: Seq<DeclView>, name: Seq<char>) -> bool {
    exists|k: int|
        0 <= k < decls.len() && (#[trigger] decls[k]).name == name && declared_optional(
            decls[k].value,
        )
}

proof fn lemma_declares_concat(a: Seq<DeclView>, b: Seq<DeclView>, name: Seq<char>)
    ensures
        declares_optional(a + b, name) <==> declares_optional(a, name) || declares_optional(
            b,
            name,
        ),
{
    let all = a + b;
    if declares_optional(a, name) {
        let k = choose|k: int|
            0 <= k < a.len() && (#[trigger] a[k]).name == name && declared_optional(a[k].value);
        assert(all[k] == a[k]);
    }
    if declares_optional(b, name) {
        let k = choose|k: int|
            0 <= k < b.len() && (#[trigger] b[k]).name == name && declared_optional(b[k].value);
        assert(all[a.len() + k] == b[k]);
    }
    if declares_optional(all, name) {
        let k = choose|k: int|
            0 <= k < all.len() && (#[trigger] all[k]).name == name && declared_optional(
                all[k].value,
            );
        if k < a.len() {
            assert(a[k] == all[k]);
        } else {
            assert(b[k - a.len()] == all[k]);
        }
    }
}

proof fn lemma_table_optional(
    kind: DepKind,
    table: StrMap<DepValue>,
    target: Option<Seq<char>>,
    name: Seq<char>,
)
    requires
        ascending(table.keys()),
    ensures
        declares_optional(table_decls(kind, table, target), name) <==> optional_in(table, name),
{
    let decls = table_decls(kind, table, target);
    table.lemma_keys();
    if optional_in(table, name) {
        let k = choose|k: int| 0 <= k < table.keys().len() && table.keys()[k] == name;
        assert(table@.contains_key(table.keys()[k]));
        assert(decls[k].name == name);
    }
    if declares_optional(decls, name) {
        let k = choose|k: int|
            0 <= k < decls.len() && (#[trigger] decls[k]).name == name && declared_optional(
                decls[k].value,
            );
        assert(table@.contains_key(table.keys()[k]));
    }
}

proof fn lemma_declared_optional(
    manifest: CargoManifest,
    kind: DepKind,
    n: int,
    name: Seq<char>,
)
    requires
        tables_in_order(manifest),
        kind != DepKind::Dev,
        0 <= n <= manifest.target.values().len(),
    ensures
        declares_optional(declared(manifest, kind, n), name) <==> optional_in(
            general_table(manifest, kind),
            name,
        ) || exists|k: int|
            0 <= k < n && optional_in(
                target_table(#[trigger] manifest.target.values()[k], kind),
                name,
            ),
    decreases n,
{
    if n == 0 {
        lemma_table_optional(kind, general_table(manifest, kind), None, name);
    } else {
        let table = target_table(manifest.target.values()[n - 1], kind);
        let target = Some(manifest.target.keys()[n - 1]);
        lemma_declared_optional(manifest, kind, n - 1, name);
        lemma_table_optional(kind, table, target, name);
        lemma_declares_concat(
            declared(manifest, kind, n - 1),
            table_decls(kind, table, target),
            name,
        );
        if exists|k: int|
            0 <= k < n && optional_in(
                target_table(#[trigger] manifest.target.values()[k], kind),
                name,
            ) {
            let k = choose|k: int|
                0 <= k < n && optional_in(
                    target_table(#[trigger] manifest.target.values()[k], kind),
                    name,
                );
            if k < n - 1 {
                assert(0 <= k < n - 1 && optional_in(
                    target_table(manifest.target.values()[k], kind),
                    name,
                ));
            }
        }
        if exists|k: int|
            0 <= k < n - 1 && optional_in(
                target_table(#[trigger] manifest.target.values()[k], kind),
                name,
            ) {
            let k = choose|k: int|
                0 <= k < n - 1 && optional_in(
                    target_table(#[trigger] manifest.target.values()[k], kind),
                    name,
                );
            assert(0 <= k < n && optional_in(
                target_table(manifest.target.values()[k], kind),
                name,
            ));
        }
    }
}

/// A name is optional anywhere where some edge of that name, normal or build, is
/// optional, whichever target it is for.
pub proof fn optional_names_are_those_of_optional_edges(manifest: CargoManifest, name: Seq<char>)
    requires
        tables_in_order(manifest),
    ensures
        optional_anywhere_of(manifest).contains(name) <==> declares_optional(
            declared_all(manifest, DepKind::Normal),
            name,
        ) || declares_optional(declared_all(manifest, DepKind::Build), name),
{
    manifest.target.lemma_keys();
    let n = manifest.target.values().len() as int;
    lemma_declared_optional(manifest, DepKind::Normal, n, name);
    lemma_declared_optional(manifest, DepKind::Build, n, name);
    let tables = manifest.target.values();
    if exists|k: int|
        0 <= k < n && optional_in(target_table(#[trigger] tables[k], DepKind::Normal), name) {
        let k = choose|k: int|
            0 <= k < n && optional_in(target_table(#[trigger] tables[k], DepKind::Normal), name);
        assert(optional_in(tables[k].dependencies, name));
    }
    if exists|k: int|
        0 <= k < n && optional_in(target_table(#[trigger] tables[k], DepKind::Build), name) {
        let k = choose|k: int|
            0 <= k < n && optional_in(target_table(#[trigger] tables[k], DepKind::Build), name);
        assert(optional_in(tables[k].build_dependencies, name));
    }
    if exists|k: int|
        0 <= k < n && (optional_in((#[trigger] tables[k]).dependencies, name) || optional_in(
            tables[k].build_dependencies,
            name,
        )) {
        let k = choose|k: int|
            0 <= k < n && (optional_in((#[trigger] tables[k]).dependencies, name) || optional_in(
                tables[k].build_dependencies,
                name,
            ));
        assert(optional_in(target_table(tables[k], DepKind::Normal), name) || optional_in(
            target_table(tables[k], DepKind::Build),
            name,
        ));
    }
}

} // verus!
