//! Where the edges of imported packages lead.

use vstd::prelude::*;
use vstd::string::*;
use crate::deps::OriginView;
use crate::disk::StopView;
use crate::import::{
    bare_package, decls_of, deps_of, forced_below, forced_by, identity_of, imported,
    imported_deps, imported_in, imported_members, imported_package, inherited_package,
    is_visiting, place_of, provisional_id, resolved_decls, DepKind, EnvView, ForcedView,
    ImportView, ResolvedView,
};
use crate::import_laws::{
    has_id, is_provisional, lemma_identity_name, lemma_imported_in, lemma_place, name_in,
};
use crate::manifest::{
    resolved_field, CargoImportError, CargoManifest, CargoPackage, CargoWorkspace,
};
use crate::model::{DepView, PackageIdView, PackageView};
use crate::version::{parsed_version, semver_parsed};

verus! {

/// Every edge of a package.
pub open spec fn all_edges(p: PackageView) -> Seq<DepView> {
    p.deps + p.build_deps + p.dev_deps
}

/// Whether a package of one name has an edge to another name.
pub open spec fn names_edge(
    packages: Seq<(Seq<char>, PackageView)>,
    a: Seq<char>,
    b: Seq<char>,
) -> bool {
    exists|i: int, k: int|
        #![trigger all_edges(packages[i].1)[k]]
        0 <= i < packages.len() && 0 <= k < all_edges(packages[i].1).len()
            && packages[i].1.id.name == a && all_edges(packages[i].1)[k].package.name == b
}

/// The edges between the names of imported packages.
pub open spec fn name_edges(packages: Seq<(Seq<char>, PackageView)>) -> Set<
    (Seq<char>, Seq<char>),
> {
    Set::new(|e: (Seq<char>, Seq<char>)| names_edge(packages, e.0, e.1))
}

/// Whether each name of a path has an edge to the next.
pub open spec fn is_path(g: Set<(Seq<char>, Seq<char>)>, path: Seq<Seq<char>>) -> bool {
    &&& path.len() > 0
    &&& forall|k: int| 0 <= k < path.len() - 1 ==> g.contains((#[trigger] path[k], path[k + 1]))
}

/// Whether a path leads from one name to another.
pub open spec fn path_between(g: Set<(Seq<char>, Seq<char>)>, a: Seq<char>, b: Seq<char>) -> bool {
    exists|path: Seq<Seq<char>>| #[trigger] is_path(g, path) && path[0] == a && path.last() == b
}

/// Whether an edge from a package waits for the lockfile, leads to an imported
/// package, or closes a cycle.
pub open spec fn edge_leads(
    g: Set<(Seq<char>, Seq<char>)>,
    packages: Seq<(Seq<char>, PackageView)>,
    from: Seq<char>,
    id: PackageIdView,
) -> bool {
    is_provisional(id) || has_id(packages, id) || path_between(g, id.name, from)
}

spec fn closed_under(
    g: Set<(Seq<char>, Seq<char>)>,
    packages: Seq<(Seq<char>, PackageView)>,
) -> bool {
    forall|i: int, k: int|
        #![trigger all_edges(packages[i].1)[k]]
        0 <= i < packages.len() && 0 <= k < all_edges(packages[i].1).len() ==> edge_leads(
            g,
            packages,
            packages[i].1.id.name,
            all_edges(packages[i].1)[k].package,
        )
}

/// Whether every package of one list is in another.
spec fn grows(a: Seq<(Seq<char>, PackageView)>, b: Seq<(Seq<char>, PackageView)>) -> bool {
    forall|e: (Seq<char>, PackageView)| #[trigger] a.contains(e) ==> b.contains(e)
}

proof fn lemma_path_more(
    g: Set<(Seq<char>, Seq<char>)>,
    h: Set<(Seq<char>, Seq<char>)>,
    a: Seq<char>,
    b: Seq<char>,
)
    requires
        g.subset_of(h),
        path_between(g, a, b),
    ensures
        path_between(h, a, b),
{
    let path = choose|path: Seq<Seq<char>>| #[trigger]
        is_path(g, path) && path[0] == a && path.last() == b;
    assert(is_path(h, path));
}

proof fn lemma_path_push(
    g: Set<(Seq<char>, Seq<char>)>,
    a: Seq<char>,
    b: Seq<char>,
    c: Seq<char>,
)
    requires
        path_between(g, a, b),
        g.contains((b, c)),
    ensures
        path_between(g, a, c),
{
    let path = choose|path: Seq<Seq<char>>| #[trigger]
        is_path(g, path) && path[0] == a && path.last() == b;
    let more = path.push(c);
    assert forall|k: int| 0 <= k < more.len() - 1 implies g.contains(
        (#[trigger] more[k], more[k + 1]),
    ) by {
        if k < path.len() - 1 {
            assert(more[k] == path[k] && more[k + 1] == path[k + 1]);
        } else {
            assert(more[k] == b);
        }
    }
    assert(is_path(g, more));
    assert(more[0] == a && more.last() == c);
}

proof fn lemma_has_id_grows(
    a: Seq<(Seq<char>, PackageView)>,
    b: Seq<(Seq<char>, PackageView)>,
    id: PackageIdView,
)
    requires
        grows(a, b),
        has_id(a, id),
    ensures
        has_id(b, id),
{
    let i = choose|i: int| 0 <= i < a.len() && (#[trigger] a[i]).1.id == id;
    assert(a.contains(a[i]));
    let j = choose|j: int| 0 <= j < b.len() && b[j] == a[i];
    assert(b[j].1.id == id);
}

proof fn lemma_edges_grow(a: Seq<(Seq<char>, PackageView)>, b: Seq<(Seq<char>, PackageView)>)
    requires
        grows(a, b),
    ensures
        name_edges(a).subset_of(name_edges(b)),
{
    assert forall|e: (Seq<char>, Seq<char>)| name_edges(a).contains(e) implies name_edges(
        b,
    ).contains(e) by {
        let (i, k) = choose|i: int, k: int|
            #![trigger all_edges(a[i].1)[k]]
            0 <= i < a.len() && 0 <= k < all_edges(a[i].1).len() && a[i].1.id.name == e.0
                && all_edges(a[i].1)[k].package.name == e.1;
        assert(a.contains(a[i]));
        let j = choose|j: int| 0 <= j < b.len() && b[j] == a[i];
        assert(all_edges(b[j].1)[k].package.name == e.1);
    }
}

proof fn lemma_closed_more(
    g: Set<(Seq<char>, Seq<char>)>,
    h: Set<(Seq<char>, Seq<char>)>,
    packages: Seq<(Seq<char>, PackageView)>,
)
    requires
        closed_under(g, packages),
        g.subset_of(h),
    ensures
        closed_under(h, packages),
{
    assert forall|i: int, k: int|
        #![trigger all_edges(packages[i].1)[k]]
        0 <= i < packages.len() && 0 <= k < all_edges(packages[i].1).len() implies edge_leads(
        h,
        packages,
        packages[i].1.id.name,
        all_edges(packages[i].1)[k].package,
    ) by {
        let id = all_edges(packages[i].1)[k].package;
        if path_between(g, id.name, packages[i].1.id.name) {
            lemma_path_more(g, h, id.name, packages[i].1.id.name);
        }
    }
}

/// Whether a package that is being imported has a name.
spec fn visits(env: EnvView<'_>, visiting: Seq<(Seq<char>, bool)>, name: Seq<char>) -> bool {
    exists|j: int| 0 <= j < visiting.len() && name_in(env, (#[trigger] visiting[j]).0) == name
}

/// The edge that leads to a package from the one that is being imported.
spec fn link(env: EnvView<'_>, visiting: Seq<(Seq<char>, bool)>, name: Seq<char>) -> Set<
    (Seq<char>, Seq<char>),
> {
    Set::new(
        |e: (Seq<char>, Seq<char>)|
            visiting.len() > 0 && e.0 == name_in(env, visiting.last().0) && e.1 == name,
    )
}

/// The edges that a package being imported has so far.
spec fn links(from: Seq<char>, ids: Seq<PackageIdView>) -> Set<(Seq<char>, Seq<char>)> {
    Set::new(
        |e: (Seq<char>, Seq<char>)|
            e.0 == from && exists|k: int| 0 <= k < ids.len() && (#[trigger] ids[k]).name == e.1,
    )
}

/// Whether paths lead from each package being imported to the innermost.
spec fn leads_down(
    env: EnvView<'_>,
    g: Set<(Seq<char>, Seq<char>)>,
    visiting: Seq<(Seq<char>, bool)>,
) -> bool {
    forall|j: int|
        0 <= j < visiting.len() ==> path_between(
            g,
            name_in(env, (#[trigger] visiting[j]).0),
            name_in(env, visiting.last().0),
        )
}

proof fn lemma_leads_down_more(
    env: EnvView<'_>,
    g: Set<(Seq<char>, Seq<char>)>,
    h: Set<(Seq<char>, Seq<char>)>,
    visiting: Seq<(Seq<char>, bool)>,
)
    requires
        leads_down(env, g, visiting),
        g.subset_of(h),
    ensures
        leads_down(env, h, visiting),
{
    assert forall|j: int| 0 <= j < visiting.len() implies path_between(
        h,
        name_in(env, (#[trigger] visiting[j]).0),
        name_in(env, visiting.last().0),
    ) by {
        lemma_path_more(
            g,
            h,
            name_in(env, visiting[j].0),
            name_in(env, visiting.last().0),
        );
    }
}

proof fn lemma_leads_down_enter(
    env: EnvView<'_>,
    g: Set<(Seq<char>, Seq<char>)>,
    visiting: Seq<(Seq<char>, bool)>,
    dir: Seq<char>,
    via: bool,
)
    requires
        leads_down(env, g, visiting),
    ensures
        leads_down(
            env,
            g.union(link(env, visiting, name_in(env, dir))),
            visiting.push((dir, via)),
        ),
{
    let h = g.union(link(env, visiting, name_in(env, dir)));
    let more = visiting.push((dir, via));
    let here = name_in(env, dir);
    assert forall|j: int| 0 <= j < more.len() implies path_between(
        h,
        name_in(env, (#[trigger] more[j]).0),
        name_in(env, more.last().0),
    ) by {
        if j < visiting.len() {
            assert(more[j] == visiting[j]);
            let last = name_in(env, visiting.last().0);
            lemma_path_more(g, h, name_in(env, visiting[j].0), last);
            assert(h.contains((last, here)));
            lemma_path_push(h, name_in(env, visiting[j].0), last, here);
        } else {
            assert(is_path(h, seq![here]));
            assert(seq![here][0] == here && seq![here].last() == here);
        }
    }
}

/// Whether each identity waits for the lockfile, or is that of an imported package
/// or goes by the name of one that is being imported.
spec fn ids_lead(
    env: EnvView<'_>,
    packages: Seq<(Seq<char>, PackageView)>,
    visiting: Seq<(Seq<char>, bool)>,
    ids: Seq<PackageIdView>,
) -> bool {
    forall|k: int|
        0 <= k < ids.len() ==> is_provisional(#[trigger] ids[k]) || has_id(packages, ids[k])
            || visits(env, visiting, ids[k].name)
}

/// What an import gives, with these edges to come.
spec fn leads_on(
    env: EnvView<'_>,
    st: ImportView,
    pending: Set<(Seq<char>, Seq<char>)>,
    r: Result<(ImportView, PackageIdView), StopView>,
) -> bool {
    match r {
        Err(_) => true,
        Ok((after, id)) => {
            &&& grows(st.packages, after.packages)
            &&& after.visiting == st.visiting
            &&& closed_under(
                name_edges(after.packages).union(pending.union(link(env, st.visiting, id.name))),
                after.packages,
            )
            &&& has_id(after.packages, id) || visits(env, st.visiting, id.name)
        },
    }
}

proof fn lemma_imported_leads(
    env: EnvView<'_>,
    st: ImportView,
    dir: Seq<char>,
    is_member: bool,
    via_dev: bool,
    forced: Option<ForcedView>,
    ws: Option<&CargoWorkspace>,
    n: nat,
    pending: Set<(Seq<char>, Seq<char>)>,
)
    requires
        closed_under(name_edges(st.packages).union(pending), st.packages),
        leads_down(env, pending, st.visiting),
    ensures
        leads_on(env, st, pending, imported(env, st, dir, is_member, via_dev, forced, ws, n)),
    decreases n, 1int, 0int, 0int,
{
    if env.disk.canonical@.contains_key(dir) {
        if let Ok(c) = env.disk.canonical@[dir] {
            let canonical = c@;
            let member = is_member || env.members.contains(canonical);
            lemma_imported_in(st.packages, canonical);
            if let Some(id) = imported_in(st.packages, canonical) {
                let i = choose|i: int|
                    0 <= i < st.packages.len() && (#[trigger] st.packages[i]).0 == canonical
                        && st.packages[i].1.id == id;
                assert(has_id(st.packages, id));
                lemma_closed_more(
                    name_edges(st.packages).union(pending),
                    name_edges(st.packages).union(
                        pending.union(link(env, st.visiting, id.name)),
                    ),
                    st.packages,
                );
            } else if env.disk.manifests@.contains_key(canonical) {
                if let Ok(manifest) = env.disk.manifests@[canonical] {
                    let own = match manifest.workspace {
                        Some(w) => Some(&w),
                        None => ws,
                    };
                    if let Some(package) = manifest.package {
                        lemma_package_leads(
                            env,
                            st,
                            dir,
                            canonical,
                            member,
                            via_dev,
                            forced,
                            manifest,
                            package,
                            own,
                            n,
                            pending,
                        );
                    }
                }
            }
        }
    }
}

proof fn lemma_package_leads(
    env: EnvView<'_>,
    st: ImportView,
    dir: Seq<char>,
    canonical: Seq<char>,
    member: bool,
    via_dev: bool,
    forced: Option<ForcedView>,
    manifest: CargoManifest,
    package: CargoPackage,
    ws: Option<&CargoWorkspace>,
    n: nat,
    pending: Set<(Seq<char>, Seq<char>)>,
)
    requires
        closed_under(name_edges(st.packages).union(pending), st.packages),
        leads_down(env, pending, st.visiting),
        env.disk.manifests@.contains_key(canonical),
        env.disk.manifests@[canonical] == Ok::<CargoManifest, CargoImportError>(manifest),
        manifest.package == Some(package),
    ensures
        leads_on(
            env,
            st,
            pending,
            imported_package(
                env,
                st,
                dir,
                canonical,
                member,
                via_dev,
                forced,
                manifest,
                package,
                ws,
                n,
            ),
        ),
    decreases n, 0int, 1int, 0int,
{
    let name = package.name@;
    let fields = inherited_package(ws);
    let version = resolved_field(
        package.version,
        fields,
        name,
        "version"@,
        canonical,
        "0.0.0"@,
    );
    let edition = resolved_field(
        package.edition,
        fields,
        name,
        "edition"@,
        canonical,
        "2015"@,
    );
    assert(name_in(env, canonical) == name);
    if version is Ok && edition is Ok {
        let parsed = parsed_version(semver_parsed(version->Ok_0));
        let identity = identity_of(
            name,
            version->Ok_0,
            parsed,
            forced,
            member,
            dir,
            canonical,
            env.root,
        );
        lemma_identity_name(
            name,
            version->Ok_0,
            parsed,
            forced,
            member,
            dir,
            canonical,
            env.root,
        );
        if identity is Ok {
            let id = identity->Ok_0;
            let next = pending.union(link(env, st.visiting, name));
            lemma_closed_more(
                name_edges(st.packages).union(pending),
                name_edges(st.packages).union(next),
                st.packages,
            );
            if is_visiting(st.visiting, canonical) {
                let k = choose|k: int|
                    0 <= k < st.visiting.len() && (#[trigger] st.visiting[k]).0 == canonical;
                assert(visits(env, st.visiting, name));
            } else {
                let bare = bare_package(
                    env,
                    manifest,
                    package,
                    fields,
                    id,
                    canonical,
                    version->Ok_0,
                    edition->Ok_0,
                );
                let decls = decls_of(manifest, member);
                let resolved = resolved_decls(
                    env,
                    id,
                    canonical,
                    ws,
                    decls,
                    decls.len() as int,
                    st.used,
                );
                if bare is Ok && resolved is Ok {
                    let deps = resolved->Ok_0.0;
                    let within = ImportView {
                        visiting: st.visiting.push((canonical, via_dev)),
                        used: resolved->Ok_0.1,
                        ..st
                    };
                    lemma_leads_down_enter(env, pending, st.visiting, canonical, via_dev);
                    lemma_deps_lead(env, within, deps, deps.len() as int, forced, ws, n, next);
                    let r = imported_deps(env, within, deps, deps.len() as int, forced, ws, n);
                    if r is Ok {
                        lemma_package_done(
                            env,
                            within.visiting,
                            canonical,
                            next,
                            r->Ok_0.0.packages,
                            r->Ok_0.1,
                            deps,
                            bare->Ok_0,
                        );
                    }
                }
            }
        }
    }
}

proof fn lemma_deps_of(
    deps: Seq<ResolvedView>,
    ids: Seq<PackageIdView>,
    kind: DepKind,
    n: int,
)
    requires
        0 <= n <= ids.len(),
        ids.len() == deps.len(),
    ensures
        forall|x: int|
            0 <= x < deps_of(deps, ids, kind, n).len() ==> ids.contains(
                (#[trigger] deps_of(deps, ids, kind, n)[x]).package,
            ),
        forall|k: int|
            0 <= k < n && deps[k].kind == kind ==> exists|x: int|
                0 <= x < deps_of(deps, ids, kind, n).len() && (#[trigger] deps_of(
                    deps,
                    ids,
                    kind,
                    n,
                )[x]).package == #[trigger] ids[k],
    decreases n,
{
    if n > 0 {
        lemma_deps_of(deps, ids, kind, n - 1);
        let before = deps_of(deps, ids, kind, n - 1);
        let after = deps_of(deps, ids, kind, n);
        assert forall|x: int| 0 <= x < after.len() implies ids.contains(
            (#[trigger] after[x]).package,
        ) by {
            if x < before.len() {
                assert(after[x] == before[x]);
            } else {
                assert(after[x].package == ids[n - 1]);
            }
        }
        assert forall|k: int| 0 <= k < n && deps[k].kind == kind implies exists|x: int|
            0 <= x < after.len() && (#[trigger] after[x]).package == #[trigger] ids[k] by {
            if k < n - 1 {
                let x = choose|x: int|
                    0 <= x < before.len() && (#[trigger] before[x]).package == ids[k];
                assert(after[x] == before[x]);
            } else {
                assert(after[before.len() as int].package == ids[k]);
            }
        }
    }
}

proof fn lemma_package_done(
    env: EnvView<'_>,
    visiting: Seq<(Seq<char>, bool)>,
    canonical: Seq<char>,
    pending: Set<(Seq<char>, Seq<char>)>,
    packages: Seq<(Seq<char>, PackageView)>,
    ids: Seq<PackageIdView>,
    deps: Seq<ResolvedView>,
    bare: PackageView,
)
    requires
        visiting.len() > 0,
        visiting.last().0 == canonical,
        bare.id.name == name_in(env, canonical),
        leads_down(env, pending, visiting),
        closed_under(name_edges(packages).union(pending.union(links(bare.id.name, ids))), packages),
        ids_lead(env, packages, visiting, ids),
        ids.len() == deps.len(),
    ensures
        ({
            let k = deps.len() as int;
            let done = PackageView {
                deps: deps_of(deps, ids, DepKind::Normal, k),
                build_deps: deps_of(deps, ids, DepKind::Build, k),
                dev_deps: deps_of(deps, ids, DepKind::Dev, k),
                ..bare
            };
            let end = packages.insert(place_of(packages, canonical, 0), (canonical, done));
            &&& grows(packages, end)
            &&& closed_under(name_edges(end).union(pending), end)
            &&& has_id(end, bare.id)
        }),
{
    let k = deps.len() as int;
    let done = PackageView {
        deps: deps_of(deps, ids, DepKind::Normal, k),
        build_deps: deps_of(deps, ids, DepKind::Build, k),
        dev_deps: deps_of(deps, ids, DepKind::Dev, k),
        ..bare
    };
    let at = place_of(packages, canonical, 0);
    lemma_place(packages, canonical, 0);
    let end = packages.insert(at, (canonical, done));
    let name = bare.id.name;
    assert(end[at] == (canonical, done));
    assert(has_id(end, bare.id));
    assert(grows(packages, end)) by {
        assert forall|e: (Seq<char>, PackageView)| #[trigger] packages.contains(e) implies
            end.contains(e) by {
            let i = choose|i: int| 0 <= i < packages.len() && packages[i] == e;
            let j = if i < at {
                i
            } else {
                i + 1
            };
            assert(end[j] == e);
        }
    }
    lemma_edges_grow(packages, end);
    lemma_deps_of(deps, ids, DepKind::Normal, k);
    lemma_deps_of(deps, ids, DepKind::Build, k);
    lemma_deps_of(deps, ids, DepKind::Dev, k);
    let old = name_edges(packages).union(pending.union(links(name, ids)));
    let new = name_edges(end).union(pending);
    assert forall|e: (Seq<char>, Seq<char>)| links(name, ids).contains(e) implies name_edges(
        end,
    ).contains(e) by {
        let x = choose|x: int| 0 <= x < ids.len() && (#[trigger] ids[x]).name == e.1;
        let (start, list) = match deps[x].kind {
            DepKind::Normal => (0int, done.deps),
            DepKind::Build => (done.deps.len() as int, done.build_deps),
            DepKind::Dev => ((done.deps.len() + done.build_deps.len()) as int, done.dev_deps),
        };
        let y = choose|y: int| 0 <= y < list.len() && (#[trigger] list[y]).package == ids[x];
        assert(all_edges(done)[start + y] == list[y]);
        assert(all_edges(end[at].1)[start + y].package.name == e.1);
    }
    assert(old.subset_of(new));
    assert forall|i: int, x: int|
        #![trigger all_edges(end[i].1)[x]]
        0 <= i < end.len() && 0 <= x < all_edges(end[i].1).len() implies edge_leads(
        new,
        end,
        end[i].1.id.name,
        all_edges(end[i].1)[x].package,
    ) by {
        let id = all_edges(end[i].1)[x].package;
        if i == at {
            assert(ids.contains(id)) by {
                let (a, b) = (done.deps.len(), done.build_deps.len());
                if x < a {
                    assert(all_edges(done)[x] == done.deps[x]);
                } else if x < a + b {
                    assert(all_edges(done)[x] == done.build_deps[x - a]);
                } else {
                    assert(all_edges(done)[x] == done.dev_deps[x - a - b]);
                }
            }
            let y = choose|y: int| 0 <= y < ids.len() && ids[y] == id;
            assert(is_provisional(ids[y]) || has_id(packages, ids[y]) || visits(
                env,
                visiting,
                ids[y].name,
            ));
            if has_id(packages, id) {
                lemma_has_id_grows(packages, end, id);
            } else if !is_provisional(id) {
                let j = choose|j: int|
                    0 <= j < visiting.len() && name_in(env, (#[trigger] visiting[j]).0) == id.name;
                lemma_path_more(pending, new, id.name, name);
            }
        } else {
            let o = if i < at {
                i
            } else {
                i - 1
            };
            assert(end[i] == packages[o]);
            assert(all_edges(packages[o].1)[x].package == id);
            if has_id(packages, id) {
                lemma_has_id_grows(packages, end, id);
            } else if !is_provisional(id) {
                lemma_path_more(old, new, id.name, packages[o].1.id.name);
            }
        }
    }
}

proof fn lemma_deps_lead(
    env: EnvView<'_>,
    st: ImportView,
    deps: Seq<ResolvedView>,
    k: int,
    forced: Option<ForcedView>,
    ws: Option<&CargoWorkspace>,
    n: nat,
    pending: Set<(Seq<char>, Seq<char>)>,
)
    requires
        closed_under(name_edges(st.packages).union(pending), st.packages),
        leads_down(env, pending, st.visiting),
        st.visiting.len() > 0,
        0 <= k <= deps.len(),
    ensures
        match imported_deps(env, st, deps, k, forced, ws, n) {
            Err(_) => true,
            Ok((after, ids)) => {
                &&& grows(st.packages, after.packages)
                &&& after.visiting == st.visiting
                &&& closed_under(
                    name_edges(after.packages).union(
                        pending.union(links(name_in(env, st.visiting.last().0), ids)),
                    ),
                    after.packages,
                )
                &&& ids_lead(env, after.packages, st.visiting, ids)
                &&& ids.len() == k
            },
        },
    decreases n, 0int, 0int, k,
{
    let from = name_in(env, st.visiting.last().0);
    if k <= 0 {
        lemma_closed_more(
            name_edges(st.packages).union(pending),
            name_edges(st.packages).union(pending.union(links(from, Seq::empty()))),
            st.packages,
        );
    } else {
        lemma_deps_lead(env, st, deps, k - 1, forced, ws, n, pending);
        let r = imported_deps(env, st, deps, k - 1, forced, ws, n);
        if r is Ok {
            let before = r->Ok_0.0;
            let ids = r->Ok_0.1;
            let dep = deps[k - 1];
            let via = dep.kind == DepKind::Dev || dep.plan.optional;
            let so_far = pending.union(links(from, ids));
            lemma_leads_down_more(env, pending, so_far, st.visiting);
            let next: Option<(Seq<char>, Option<ForcedView>)> = match (
                dep.plan.origin,
                dep.locked,
            ) {
                (OriginView::Path(path), _) => Some((path, forced_below(forced))),
                (OriginView::Edge(_), Some(locked)) => Some(
                    (locked.source_dir, Some(forced_by(locked))),
                ),
                (OriginView::Edge(_), None) => None,
            };
            match next {
                Some((dir, with)) => {
                    if n > 0 {
                        let less = (n - 1) as nat;
                        lemma_imported_leads(
                            env,
                            before,
                            dir,
                            false,
                            via,
                            with,
                            ws,
                            less,
                            so_far,
                        );
                        let m = imported(env, before, dir, false, via, with, ws, less);
                        if m is Ok {
                            lemma_link_more(
                                env,
                                st.visiting,
                                pending,
                                before.packages,
                                m->Ok_0.0.packages,
                                ids,
                                m->Ok_0.1,
                            );
                        }
                    }
                },
                None => {
                    let id = provisional_id(dep.plan.package);
                    lemma_closed_more(
                        name_edges(before.packages).union(so_far),
                        name_edges(before.packages).union(
                            so_far.union(link(env, st.visiting, id.name)),
                        ),
                        before.packages,
                    );
                    lemma_link_more(
                        env,
                        st.visiting,
                        pending,
                        before.packages,
                        before.packages,
                        ids,
                        id,
                    );
                },
            }
        }
    }
}

proof fn lemma_link_more(
    env: EnvView<'_>,
    visiting: Seq<(Seq<char>, bool)>,
    pending: Set<(Seq<char>, Seq<char>)>,
    before: Seq<(Seq<char>, PackageView)>,
    after: Seq<(Seq<char>, PackageView)>,
    ids: Seq<PackageIdView>,
    id: PackageIdView,
)
    requires
        visiting.len() > 0,
        grows(before, after),
        ids_lead(env, before, visiting, ids),
        is_provisional(id) || has_id(after, id) || visits(env, visiting, id.name),
        closed_under(
            name_edges(after).union(
                pending.union(links(name_in(env, visiting.last().0), ids)).union(
                    link(env, visiting, id.name),
                ),
            ),
            after,
        ),
    ensures
        ids_lead(env, after, visiting, ids.push(id)),
        closed_under(
            name_edges(after).union(
                pending.union(links(name_in(env, visiting.last().0), ids.push(id))),
            ),
            after,
        ),
{
    let from = name_in(env, visiting.last().0);
    let all = ids.push(id);
    assert forall|k: int| 0 <= k < all.len() implies is_provisional(#[trigger] all[k]) || has_id(
        after,
        all[k],
    ) || visits(env, visiting, all[k].name) by {
        if k < ids.len() {
            assert(all[k] == ids[k]);
            if has_id(before, ids[k]) {
                lemma_has_id_grows(before, after, ids[k]);
            }
        }
    }
    let old = name_edges(after).union(
        pending.union(links(from, ids)).union(link(env, visiting, id.name)),
    );
    let new = name_edges(after).union(pending.union(links(from, all)));
    assert forall|e: (Seq<char>, Seq<char>)| old.contains(e) implies new.contains(e) by {
        if links(from, ids).contains(e) {
            let k = choose|k: int| 0 <= k < ids.len() && (#[trigger] ids[k]).name == e.1;
            assert(all[k] == ids[k]);
        }
        if link(env, visiting, id.name).contains(e) {
            assert(all[ids.len() as int].name == e.1);
        }
    }
    lemma_closed_more(old, new, after);
}

proof fn lemma_members_lead(
    env: EnvView<'_>,
    ws: Option<&CargoWorkspace>,
    members: Seq<Seq<char>>,
    n: int,
)
    requires
        0 <= n <= members.len(),
    ensures
        match imported_members(env, ws, members, n) {
            Err(_) => true,
            Ok((st, _)) => st.visiting.len() == 0 && closed_under(
                name_edges(st.packages),
                st.packages,
            ),
        },
    decreases n,
{
    if n > 0 {
        lemma_members_lead(env, ws, members, n - 1);
        let r = imported_members(env, ws, members, n - 1);
        if r is Ok {
            let st = r->Ok_0.0;
            let depth = env.disk.manifests.keys().len();
            let none = Set::<(Seq<char>, Seq<char>)>::empty();
            assert(name_edges(st.packages).union(none) =~= name_edges(st.packages));
            lemma_imported_leads(env, st, members[n - 1], true, false, None, ws, depth, none);
            let m = imported(env, st, members[n - 1], true, false, None, ws, depth);
            if m is Ok {
                let after = m->Ok_0.0;
                let id = m->Ok_0.1;
                assert(name_edges(after.packages).union(
                    none.union(link(env, st.visiting, id.name)),
                ) =~= name_edges(after.packages));
            }
        }
    }
}

/// Whatever a package depends on is imported with it: each edge leads to an
/// imported package by its identity, unless it waits for the lockfile or closes a
/// cycle, a path of edges that leads back from the name it goes to.
pub proof fn edges_lead_to_imported_packages(
    env: EnvView<'_>,
    ws: Option<&CargoWorkspace>,
    members: Seq<Seq<char>>,
    i: int,
    k: int,
)
    requires
        imported_members(env, ws, members, members.len() as int) is Ok,
        ({
            let packages = imported_members(env, ws, members, members.len() as int)->Ok_0.0.packages;
            0 <= i < packages.len() && 0 <= k < all_edges(packages[i].1).len()
        }),
    ensures
        ({
            let packages = imported_members(env, ws, members, members.len() as int)->Ok_0.0.packages;
            edge_leads(
                name_edges(packages),
                packages,
                packages[i].1.id.name,
                all_edges(packages[i].1)[k].package,
            )
        }),
{
    lemma_members_lead(env, ws, members, members.len() as int);
}

} // verus!
