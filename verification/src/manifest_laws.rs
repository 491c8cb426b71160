//! What a manifest says of its package.

use vstd::prelude::*;
use vstd::string::*;
use crate::deps::{planned, LockedView, OriginView};
use crate::import::{
    bare_package, decls_of, declared_all, forced_below, forced_by, identity_of, imported,
    imported_deps, imported_package, inherited_deps, inherited_package, is_visiting, place_of,
    resolved_decls, DeclView, DepKind, EnvView, ForcedView, ImportView, ResolvedView,
};
use crate::manifest::{
    about_env, edition_of, resolved_field, About, CargoManifest, CargoPackage, CargoWorkspace,
    CargoWorkspacePackage, Field,
};
use crate::model::{canonical_git_url, edition_text, PackageIdView, PackageView, SourceView};
use crate::text::{join_spec, texts};
use crate::version::VersionView;

verus! {

// ---- Fields -----------------------------------------------------------------------

/// The version and the edition of a package are its own where it gives them, those
/// of the workspace where it inherits them, and else the default. What cannot be
/// inherited is refused.
pub proof fn fields_are_own_or_inherited(
    field: Option<Field>,
    package: Option<CargoWorkspacePackage>,
    name: Seq<char>,
    dir: Seq<char>,
    default: Seq<char>,
)
    ensures
        ({
            let version = resolved_field(field, package, name, "version"@, dir, default);
            let edition = resolved_field(field, package, name, "edition"@, dir, default);
            match field {
                None => version is Ok && version->Ok_0 == default && edition is Ok && edition->Ok_0
                    == default,
                Some(Field::Value(value)) => version is Ok && version->Ok_0 == value@
                    && edition is Ok && edition->Ok_0 == value@,
                Some(Field::Inherit { workspace }) => {
                    &&& version is Ok <==> workspace && package is Some && package->0.version
                        is Some
                    &&& version is Ok ==> version->Ok_0 == package->0.version->0@
                    &&& edition is Ok <==> workspace && package is Some && package->0.edition
                        is Some
                    &&& edition is Ok ==> edition->Ok_0 == package->0.edition->0@
                },
            }
        }),
{
    reveal_strlit("version");
    reveal_strlit("edition");
    assert("version"@[0] == 'v' && "edition"@[0] == 'e');
}

/// Whether a text is what a manifest says under a key: its values with colons
/// between them, or those of the workspace where it inherits them.
pub open spec fn says(
    about: Map<Seq<char>, About>,
    package: Option<CargoWorkspacePackage>,
    key: Seq<char>,
    value: Seq<char>,
) -> bool {
    let inherits = about.contains_key(key) && about[key] is Inherit;
    &&& about.contains_key(key) && !inherits ==> (about[key] matches About::Values(values) && value
        == join_spec(texts(values@), ":"@))
    &&& inherits && package is Some && package->0.about@.contains_key(key) ==> value == join_spec(
        texts(package->0.about@[key]@),
        ":"@,
    )
    &&& inherits && (package is None || !package->0.about@.contains_key(key)) ==> value.len() == 0
    &&& !about.contains_key(key) ==> value.len() == 0
}

/// A package is told what its manifest says of it, each key in its own variable.
pub proof fn packages_are_told_of_themselves(
    about: Map<Seq<char>, About>,
    package: Option<CargoWorkspacePackage>,
)
    ensures
        ({
            let env = about_env(about, package);
            &&& env.contains_key("CARGO_PKG_AUTHORS"@) && says(
                about,
                package,
                "authors"@,
                env["CARGO_PKG_AUTHORS"@],
            )
            &&& env.contains_key("CARGO_PKG_DESCRIPTION"@) && says(
                about,
                package,
                "description"@,
                env["CARGO_PKG_DESCRIPTION"@],
            )
            &&& env.contains_key("CARGO_PKG_HOMEPAGE"@) && says(
                about,
                package,
                "homepage"@,
                env["CARGO_PKG_HOMEPAGE"@],
            )
            &&& env.contains_key("CARGO_PKG_REPOSITORY"@) && says(
                about,
                package,
                "repository"@,
                env["CARGO_PKG_REPOSITORY"@],
            )
            &&& env.contains_key("CARGO_PKG_LICENSE"@) && says(
                about,
                package,
                "license"@,
                env["CARGO_PKG_LICENSE"@],
            )
            &&& env.contains_key("CARGO_PKG_LICENSE_FILE"@) && says(
                about,
                package,
                "license-file"@,
                env["CARGO_PKG_LICENSE_FILE"@],
            )
            &&& env.contains_key("CARGO_PKG_README"@) && says(
                about,
                package,
                "readme"@,
                env["CARGO_PKG_README"@],
            )
            &&& env.contains_key("CARGO_PKG_RUST_VERSION"@) && says(
                about,
                package,
                "rust-version"@,
                env["CARGO_PKG_RUST_VERSION"@],
            )
            &&& forall|k: Seq<char>| #[trigger]
                env.contains_key(k) ==> "CARGO_PKG_"@.is_prefix_of(k)
        }),
{
    reveal_strlit("CARGO_PKG_");
    reveal_strlit("CARGO_PKG_AUTHORS");
    reveal_strlit("CARGO_PKG_DESCRIPTION");
    reveal_strlit("CARGO_PKG_HOMEPAGE");
    reveal_strlit("CARGO_PKG_REPOSITORY");
    reveal_strlit("CARGO_PKG_LICENSE");
    reveal_strlit("CARGO_PKG_LICENSE_FILE");
    reveal_strlit("CARGO_PKG_README");
    reveal_strlit("CARGO_PKG_RUST_VERSION");
    assert("CARGO_PKG_AUTHORS"@[10] == 'A');
    assert("CARGO_PKG_DESCRIPTION"@[10] == 'D');
    assert("CARGO_PKG_HOMEPAGE"@[10] == 'H');
    assert("CARGO_PKG_REPOSITORY"@[10] == 'R' && "CARGO_PKG_REPOSITORY"@.len() == 20);
    assert("CARGO_PKG_LICENSE"@[10] == 'L' && "CARGO_PKG_LICENSE"@.len() == 17);
    assert("CARGO_PKG_LICENSE_FILE"@[10] == 'L' && "CARGO_PKG_LICENSE_FILE"@.len() == 22);
    assert("CARGO_PKG_README"@[10] == 'R' && "CARGO_PKG_README"@.len() == 16);
    assert("CARGO_PKG_RUST_VERSION"@[10] == 'R' && "CARGO_PKG_RUST_VERSION"@.len() == 22);
    assert("CARGO_PKG_AUTHORS"@.subrange(0, 10) =~= "CARGO_PKG_"@);
    assert("CARGO_PKG_DESCRIPTION"@.subrange(0, 10) =~= "CARGO_PKG_"@);
    assert("CARGO_PKG_HOMEPAGE"@.subrange(0, 10) =~= "CARGO_PKG_"@);
    assert("CARGO_PKG_REPOSITORY"@.subrange(0, 10) =~= "CARGO_PKG_"@);
    assert("CARGO_PKG_LICENSE"@.subrange(0, 10) =~= "CARGO_PKG_"@);
    assert("CARGO_PKG_LICENSE_FILE"@.subrange(0, 10) =~= "CARGO_PKG_"@);
    assert("CARGO_PKG_README"@.subrange(0, 10) =~= "CARGO_PKG_"@);
    assert("CARGO_PKG_RUST_VERSION"@.subrange(0, 10) =~= "CARGO_PKG_"@);
}

/// An edition is written as its year, and no other text is an edition.
pub proof fn editions_are_years(text: Seq<char>)
    ensures
        edition_of(text) is Ok <==> text == "2015"@ || text == "2018"@ || text == "2021"@ || text
            == "2024"@,
        edition_of("2015"@) is Ok && edition_of("2015"@)->Ok_0 is E2015,
        edition_of("2018"@) is Ok && edition_of("2018"@)->Ok_0 is E2018,
        edition_of("2021"@) is Ok && edition_of("2021"@)->Ok_0 is E2021,
        edition_of("2024"@) is Ok && edition_of("2024"@)->Ok_0 is E2024,
        edition_of(text) matches Ok(e) ==> edition_text(e) == text,
        edition_of(text) matches Err(fault) ==> fault is Unsupported,
{
    reveal_strlit("2015");
    reveal_strlit("2018");
    reveal_strlit("2021");
    reveal_strlit("2024");
    assert("2015"@[3] == '5' && "2018"@[3] == '8' && "2021"@[3] == '1' && "2024"@[3] == '4');
}

// ---- Packages ---------------------------------------------------------------------

/// A package is what its manifest says: its name, place, version, edition, `links`
/// value and features.
pub proof fn packages_are_what_manifests_say(
    env: EnvView<'_>,
    manifest: CargoManifest,
    package: CargoPackage,
    fields: Option<CargoWorkspacePackage>,
    id: PackageIdView,
    dir: Seq<char>,
    version: Seq<char>,
    edition: Seq<char>,
    feature: Seq<char>,
)
    requires
        bare_package(env, manifest, package, fields, id, dir, version, edition) is Ok,
    ensures
        ({
            let p = bare_package(env, manifest, package, fields, id, dir, version, edition)->Ok_0;
            &&& p.id == id
            &&& p.name == package.name@
            &&& p.dir == dir
            &&& p.version == version
            &&& edition_text(p.edition) == edition
            &&& p.links is Some <==> package.links is Some
            &&& package.links matches Some(links) ==> p.links == Some(links@)
            &&& p.features.contains_key(feature) <==> manifest.features@.contains_key(feature)
            &&& p.features.contains_key(feature) ==> p.features[feature] == texts(
                manifest.features@[feature]@,
            )
            &&& p.has_default_feature <==> manifest.features@.contains_key("default"@)
            &&& p.rustflags.len() == 0
            &&& p.env == about_env(package.about@, fields)
        }),
{
    editions_are_years(edition);
}

/// The dev-dependencies of a package count only where it is a member; the other
/// edges always do.
pub proof fn only_members_have_dev_edges(manifest: CargoManifest, is_member: bool, d: DeclView)
    ensures
        decls_of(manifest, is_member).contains(d) <==> {
            ||| declared_all(manifest, DepKind::Normal).contains(d)
            ||| declared_all(manifest, DepKind::Build).contains(d)
            ||| is_member && declared_all(manifest, DepKind::Dev).contains(d)
        },
{
    let a = declared_all(manifest, DepKind::Normal);
    let b = declared_all(manifest, DepKind::Build);
    let c = declared_all(manifest, DepKind::Dev);
    let all = decls_of(manifest, is_member);
    if a.contains(d) {
        let k = choose|k: int| 0 <= k < a.len() && a[k] == d;
        assert(all[k] == d);
    }
    if b.contains(d) {
        let k = choose|k: int| 0 <= k < b.len() && b[k] == d;
        assert(all[a.len() as int + k] == d);
    }
    if is_member && c.contains(d) {
        let k = choose|k: int| 0 <= k < c.len() && c[k] == d;
        assert(all[a.len() as int + b.len() as int + k] == d);
    }
    if all.contains(d) {
        let k = choose|k: int| 0 <= k < all.len() && all[k] == d;
        if k < a.len() {
            assert(a[k] == d);
        } else if k < a.len() + b.len() {
            assert(b[k - a.len()] == d);
        } else {
            assert(c[k - a.len() - b.len()] == d);
        }
    }
}

proof fn lemma_declared_entry(manifest: CargoManifest, kind: DepKind, n: int, d: DeclView)
    requires
        0 <= n <= manifest.target.keys().len(),
    ensures
        crate::import::declared(manifest, kind, n).contains(d) <==> {
            ||| d.target is None && is_entry(crate::import::general_table(manifest, kind), kind, d)
            ||| exists|t: int|
                0 <= t < n && d.target == Some(#[trigger] manifest.target.keys()[t]) && is_entry(
                    crate::import::target_table(manifest.target.values()[t], kind),
                    kind,
                    d,
                )
        },
    decreases n,
{
    let all = crate::import::declared(manifest, kind, n);
    if n == 0 {
        let table = crate::import::general_table(manifest, kind);
        lemma_entry(table, kind, None, d);
    } else {
        lemma_declared_entry(manifest, kind, n - 1, d);
        let before = crate::import::declared(manifest, kind, n - 1);
        let table = crate::import::target_table(manifest.target.values()[n - 1], kind);
        let more = crate::import::table_decls(kind, table, Some(manifest.target.keys()[n - 1]));
        lemma_entry(table, kind, Some(manifest.target.keys()[n - 1]), d);
        if all.contains(d) {
            let k = choose|k: int| 0 <= k < all.len() && all[k] == d;
            if k < before.len() {
                assert(before[k] == d);
                assert(before.contains(d));
            } else {
                assert(more[k - before.len()] == d);
                assert(more.contains(d));
            }
        }
        if before.contains(d) {
            let k = choose|k: int| 0 <= k < before.len() && before[k] == d;
            assert(all[k] == d);
        }
        if more.contains(d) {
            let k = choose|k: int| 0 <= k < more.len() && more[k] == d;
            assert(all[before.len() as int + k] == d);
        }
    }
}

/// Whether a declaration is an entry of a table.
pub open spec fn is_entry(
    table: crate::strmap::StrMap<crate::manifest::DepValue>,
    kind: DepKind,
    d: DeclView,
) -> bool {
    &&& d.kind == kind
    &&& exists|k: int|
        0 <= k < table.keys().len() && #[trigger] table.keys()[k] == d.name && table.values()[k]
            == d.value
}

proof fn lemma_entry(
    table: crate::strmap::StrMap<crate::manifest::DepValue>,
    kind: DepKind,
    target: Option<Seq<char>>,
    d: DeclView,
)
    ensures
        crate::import::table_decls(kind, table, target).contains(d) <==> d.target == target
            && is_entry(table, kind, d),
{
    let all = crate::import::table_decls(kind, table, target);
    if all.contains(d) {
        let k = choose|k: int| 0 <= k < all.len() && all[k] == d;
        assert(table.keys()[k] == d.name);
    }
    if d.target == target && is_entry(table, kind, d) {
        let k = choose|k: int|
            0 <= k < table.keys().len() && #[trigger] table.keys()[k] == d.name
                && table.values()[k] == d.value;
        assert(all[k] == d);
    }
}

/// The edges of a kind are the entries of the manifest's own table of that kind,
/// and those of each target's, under the target's key.
pub proof fn edges_are_declared_in_tables(manifest: CargoManifest, d: DeclView)
    ensures
        declared_all(manifest, DepKind::Normal).contains(d) <==> {
            ||| d.target is None && is_entry(manifest.dependencies, DepKind::Normal, d)
            ||| exists|t: int|
                0 <= t < manifest.target.keys().len() && d.target == Some(
                    #[trigger] manifest.target.keys()[t],
                ) && is_entry(manifest.target.values()[t].dependencies, DepKind::Normal, d)
        },
        declared_all(manifest, DepKind::Build).contains(d) <==> {
            ||| d.target is None && is_entry(manifest.build_dependencies, DepKind::Build, d)
            ||| exists|t: int|
                0 <= t < manifest.target.keys().len() && d.target == Some(
                    #[trigger] manifest.target.keys()[t],
                ) && is_entry(manifest.target.values()[t].build_dependencies, DepKind::Build, d)
        },
        declared_all(manifest, DepKind::Dev).contains(d) <==> {
            ||| d.target is None && is_entry(manifest.dev_dependencies, DepKind::Dev, d)
            ||| exists|t: int|
                0 <= t < manifest.target.keys().len() && d.target == Some(
                    #[trigger] manifest.target.keys()[t],
                ) && is_entry(manifest.target.values()[t].dev_dependencies, DepKind::Dev, d)
        },
{
    let n = manifest.target.keys().len() as int;
    lemma_declared_entry(manifest, DepKind::Normal, n, d);
    lemma_declared_entry(manifest, DepKind::Build, n, d);
    lemma_declared_entry(manifest, DepKind::Dev, n, d);
}

// ---- Identities -------------------------------------------------------------------

/// A package that the lockfile names must have the locked name and version, and is
/// then the locked one. Any other has the name and the version that its manifest
/// gives; its source is that of its checkout, else its place in the workspace.
pub proof fn identities_are_locked_or_local(
    name: Seq<char>,
    version: Seq<char>,
    parsed: Result<VersionView, Seq<char>>,
    forced: Option<ForcedView>,
    is_member: bool,
    dir: Seq<char>,
    canonical: Seq<char>,
    root: Seq<char>,
)
    ensures
        ({
            let r = identity_of(name, version, parsed, forced, is_member, dir, canonical, root);
            &&& forced matches Some(ForcedView::Exact(locked)) ==> {
                &&& r is Ok <==> locked.name == name && parsed is Ok && parsed->Ok_0
                    == locked.version
                &&& r is Ok ==> r->Ok_0 == locked
            }
            &&& !(forced matches Some(ForcedView::Exact(_))) ==> {
                &&& r is Ok <==> parsed is Ok
                &&& r is Ok ==> r->Ok_0.name == name && r->Ok_0.version == parsed->Ok_0
            }
            &&& forced matches Some(ForcedView::Source(source)) ==> (r is Ok ==> r->Ok_0.source
                == source)
            &&& forced is None && r is Ok ==> {
                &&& is_member <==> r->Ok_0.source is Workspace
                &&& !is_member <==> r->Ok_0.source is Path
                &&& r->Ok_0.source matches SourceView::Workspace(at) ==> at
                    == crate::paths::rel_path(dir, root)
                &&& r->Ok_0.source matches SourceView::Path(at) ==> at == crate::paths::rel_path(
                    dir,
                    root,
                )
            }
            &&& r matches Err(fault) ==> fault is Unsupported
        }),
{
}

/// A locked package forces its identity; one of a checkout forces its source alone,
/// and that on every package below it.
pub proof fn checkouts_force_their_source(locked: LockedView, forced: Option<ForcedView>)
    ensures
        locked.propagate_source ==> (forced_by(locked) matches ForcedView::Source(source)
            && source == locked.id.source),
        !locked.propagate_source ==> (forced_by(locked) matches ForcedView::Exact(id) && id
            == locked.id),
        forced matches Some(ForcedView::Source(source)) ==> forced_below(forced) == forced,
        !(forced matches Some(ForcedView::Source(_))) ==> forced_below(forced) is None,
{
}

/// Whether a resolved edge is a declared one: planned as the workspace has it, with
/// an answer from the lockfile where it needs one.
pub open spec fn is_resolved(
    env: EnvView<'_>,
    parent: PackageIdView,
    member: Seq<char>,
    ws: Option<&CargoWorkspace>,
    d: DeclView,
    r: ResolvedView,
) -> bool {
    &&& r.kind == d.kind
    &&& planned(
        d.name,
        d.value,
        d.target,
        parent,
        member,
        env.root,
        inherited_deps(ws),
        env.patches,
    ) matches Ok(plan) && plan == r.plan
    &&& r.plan.origin is Path ==> r.locked is None
    &&& r.plan.origin is Edge && r.locked is None ==> env.collecting
}

/// Each declared edge is resolved in its turn. Those that need the lockfile take its
/// answers one by one, none twice; where there is none for one, it is dropped, or
/// kept while edges are collected.
pub proof fn answers_are_taken_in_turn(
    env: EnvView<'_>,
    parent: PackageIdView,
    member: Seq<char>,
    ws: Option<&CargoWorkspace>,
    decls: Seq<DeclView>,
    n: int,
    used: int,
)
    requires
        0 <= n <= decls.len(),
        0 <= used <= env.answers.len(),
        resolved_decls(env, parent, member, ws, decls, n, used) is Ok,
    ensures
        ({
            let (rs, at) = resolved_decls(env, parent, member, ws, decls, n, used)->Ok_0;
            &&& used <= at <= env.answers.len()
            &&& at - used <= n
            &&& rs.len() <= n
            &&& env.collecting ==> rs.len() == n
            &&& forall|k: int|
                #![trigger rs[k]]
                0 <= k < rs.len() ==> exists|d: int|
                    k <= d < n && is_resolved(env, parent, member, ws, #[trigger] decls[d], rs[k])
            &&& forall|k: int|
                #![trigger rs[k]]
                0 <= k < rs.len() && rs[k].locked is Some ==> exists|a: int|
                    used <= a < at && (#[trigger] env.answers[a]) is Ok
                        && env.answers[a]->Ok_0 is Some && rs[k].locked == Some(
                        env.answers[a]->Ok_0->0@,
                    )
            &&& forall|a: int|
                used <= a < at ==> (#[trigger] env.answers[a]) is Ok && (env.answers[a]->Ok_0
                    is Some ==> exists|k: int|
                    0 <= k < rs.len() && (#[trigger] rs[k]).locked == Some(
                        env.answers[a]->Ok_0->0@,
                    ))
        }),
    decreases n,
{
    if n > 0 {
        answers_are_taken_in_turn(env, parent, member, ws, decls, n - 1, used);
        let (before, was) = resolved_decls(env, parent, member, ws, decls, n - 1, used)->Ok_0;
        let (rs, at) = resolved_decls(env, parent, member, ws, decls, n, used)->Ok_0;
        assert forall|k: int| #![trigger rs[k]] 0 <= k < rs.len() implies exists|d: int|
            k <= d < n && is_resolved(env, parent, member, ws, #[trigger] decls[d], rs[k]) by {
            if k < before.len() {
                assert(rs[k] == before[k]);
                let d = choose|d: int|
                    k <= d < n - 1 && is_resolved(
                        env,
                        parent,
                        member,
                        ws,
                        #[trigger] decls[d],
                        before[k],
                    );
                assert(is_resolved(env, parent, member, ws, decls[d], rs[k]));
            } else {
                assert(is_resolved(env, parent, member, ws, decls[n - 1], rs[k]));
            }
        }
        assert forall|k: int|
            #![trigger rs[k]]
            0 <= k < rs.len() && rs[k].locked is Some implies exists|a: int|
            used <= a < at && (#[trigger] env.answers[a]) is Ok && env.answers[a]->Ok_0 is Some
                && rs[k].locked == Some(env.answers[a]->Ok_0->0@) by {
            if k < before.len() {
                assert(rs[k] == before[k]);
                let a = choose|a: int|
                    used <= a < was && (#[trigger] env.answers[a]) is Ok
                        && env.answers[a]->Ok_0 is Some && before[k].locked == Some(
                        env.answers[a]->Ok_0->0@,
                    );
                assert(used <= a < at && env.answers[a] is Ok);
            } else {
                assert(env.answers[was] is Ok);
            }
        }
        assert forall|a: int| used <= a < at implies (#[trigger] env.answers[a]) is Ok && (
        env.answers[a]->Ok_0 is Some ==> exists|k: int|
            0 <= k < rs.len() && (#[trigger] rs[k]).locked == Some(
                env.answers[a]->Ok_0->0@,
            )) by {
            if a < was {
                if env.answers[a]->Ok_0 is Some {
                    let k = choose|k: int|
                        0 <= k < before.len() && (#[trigger] before[k]).locked == Some(
                            env.answers[a]->Ok_0->0@,
                        );
                    assert(rs[k] == before[k]);
                }
            } else if env.answers[a]->Ok_0 is Some {
                assert(rs[before.len() as int].locked == Some(env.answers[a]->Ok_0->0@));
            }
        }
    }
}

/// An HTTPS address of a repository loses its `.git`, and only that.
pub proof fn https_addresses_lose_their_ending(way: Seq<char>)
    requires
        "https://"@.is_prefix_of(way),
    ensures
        canonical_git_url(way + ".git"@) == way,
{
    reveal_strlit("https://");
    reveal_strlit(".git");
    let url = way + ".git"@;
    assert(url.take(8) =~= way.subrange(0, 8));
    assert(url.skip(url.len() - 4) =~= ".git"@);
    assert(url.take(url.len() - 4) =~= way);
}

// ---- Imports ----------------------------------------------------------------------

/// A package that is imported is filed under its directory, with the identity that is
/// handed back. Where its manifest gives no version it is 0.0.0, where it gives no
/// edition it is of 2015.
pub proof fn imported_packages_are_filed(
    env: EnvView<'_>,
    st: ImportView,
    dir: Seq<char>,
    canonical: Seq<char>,
    member: bool,
    via_dev: bool,
    forced: Option<ForcedView>,
    manifest: CargoManifest,
    package: CargoPackage,
    ws: Option<&CargoWorkspace>,
    n: nat,
)
    requires
        imported_package(
            env,
            st,
            dir,
            canonical,
            member,
            via_dev,
            forced,
            manifest,
            package,
            ws,
            n,
        ) is Ok,
        !is_visiting(st.visiting, canonical),
    ensures
        ({
            let (after, id) = imported_package(
                env,
                st,
                dir,
                canonical,
                member,
                via_dev,
                forced,
                manifest,
                package,
                ws,
                n,
            )->Ok_0;
            &&& after.visiting == st.visiting
            &&& exists|k: int|
                0 <= k < after.packages.len() && (#[trigger] after.packages[k]).0 == canonical && ({
                    let p = after.packages[k].1;
                    &&& p.id == id
                    &&& p.dir == canonical
                    &&& p.name == package.name@
                    &&& package.version is None ==> p.version == "0.0.0"@
                    &&& package.edition is None ==> p.edition is E2015
                    &&& package.version matches Some(Field::Value(v)) ==> p.version == v@
                    &&& package.edition matches Some(Field::Value(e)) ==> edition_text(p.edition)
                        == e@
                    &&& package.links matches Some(links) ==> p.links == Some(links@)
                    &&& p.has_default_feature <==> manifest.features@.contains_key("default"@)
                })
        }),
{
    let (after, id) = imported_package(
        env,
        st,
        dir,
        canonical,
        member,
        via_dev,
        forced,
        manifest,
        package,
        ws,
        n,
    )->Ok_0;
    let fields = inherited_package(ws);
    let version = resolved_field(
        package.version,
        fields,
        package.name@,
        "version"@,
        canonical,
        "0.0.0"@,
    )->Ok_0;
    let edition = resolved_field(
        package.edition,
        fields,
        package.name@,
        "edition"@,
        canonical,
        "2015"@,
    )->Ok_0;
    editions_are_years(edition);
    let bare = bare_package(env, manifest, package, fields, id, canonical, version, edition)->Ok_0;
    let decls = decls_of(manifest, member);
    let (deps, used) = resolved_decls(
        env,
        id,
        canonical,
        ws,
        decls,
        decls.len() as int,
        st.used,
    )->Ok_0;
    let within = ImportView { visiting: st.visiting.push((canonical, via_dev)), used, ..st };
    let inner = imported_deps(env, within, deps, deps.len() as int, forced, ws, n)->Ok_0.0;
    let at = place_of(inner.packages, canonical, 0);
    lemma_place(inner.packages, canonical, 0);
    inner.packages.insert_ensures(at, after.packages[at]);
    assert(after.packages[at].0 == canonical);
    assert(after.packages[at].1.id == id);
}

proof fn lemma_place(packages: Seq<(Seq<char>, PackageView)>, dir: Seq<char>, from: int)
    requires
        0 <= from <= packages.len(),
    ensures
        from <= place_of(packages, dir, from) <= packages.len(),
    decreases packages.len() - from,
{
    if from < packages.len() && !crate::paths::path_lt(dir, packages[from].0) {
        lemma_place(packages, dir, from + 1);
    }
}

/// A package that is being imported already closes a cycle: it is taken as it is where
/// a dev or an optional edge lies on the cycle, and refused where none does.
pub proof fn cycles_need_a_dev_or_optional_edge(
    env: EnvView<'_>,
    st: ImportView,
    dir: Seq<char>,
    canonical: Seq<char>,
    member: bool,
    via_dev: bool,
    forced: Option<ForcedView>,
    manifest: CargoManifest,
    package: CargoPackage,
    ws: Option<&CargoWorkspace>,
    n: nat,
    j: int,
)
    requires
        0 <= j < st.visiting.len(),
        st.visiting[j].0 == canonical,
    ensures
        ({
            let r = imported_package(
                env,
                st,
                dir,
                canonical,
                member,
                via_dev,
                forced,
                manifest,
                package,
                ws,
                n,
            );
            &&& r is Ok ==> r->Ok_0.0 == st && (via_dev || exists|i: int, k: int|
                0 <= i < k < st.visiting.len() && (#[trigger] st.visiting[i]).0 == canonical && (
                #[trigger] st.visiting[k]).1)
            &&& !via_dev && (forall|k: int|
                0 <= k < st.visiting.len() ==> !(#[trigger] st.visiting[k]).1) ==> r is Err
        }),
{
    assert(is_visiting(st.visiting, canonical));
}

/// Whether an identity is that of the package in a directory, as something imports it.
pub open spec fn found_at(
    env: EnvView<'_>,
    dir: Seq<char>,
    via_dev: bool,
    forced: Option<ForcedView>,
    ws: Option<&CargoWorkspace>,
    n: nat,
    id: PackageIdView,
) -> bool {
    exists|st: ImportView|
        {
            let r = #[trigger] imported(env, st, dir, false, via_dev, forced, ws, n);
            r is Ok && r->Ok_0.1 == id
        }
}

/// Whether an identity is that of a dependency: of the package in its directory, or in
/// the directory that the lockfile leads to; or a stand-in where nothing is locked.
pub open spec fn is_identity(
    env: EnvView<'_>,
    dep: ResolvedView,
    forced: Option<ForcedView>,
    ws: Option<&CargoWorkspace>,
    n: nat,
    id: PackageIdView,
) -> bool {
    let via = dep.kind is Dev || dep.plan.optional;
    match dep.plan.origin {
        OriginView::Path(path) => n > 0 && id.name == dep.plan.package && found_at(
            env,
            path,
            via,
            forced_below(forced),
            ws,
            (n - 1) as nat,
            id,
        ),
        OriginView::Edge(_) => match dep.locked {
            Some(locked) => n > 0 && found_at(
                env,
                locked.source_dir,
                via,
                Some(forced_by(locked)),
                ws,
                (n - 1) as nat,
                id,
            ),
            None => id.name == dep.plan.package && id.source == SourceView::Registry(Seq::empty())
                && id.version.major == 0 && id.version.minor == 0 && id.version.patch == 0,
        },
    }
}

/// Each dependency of a package is imported from where its plan or the lockfile says,
/// and its identity is that of the package there.
pub proof fn dependencies_are_imported_as_planned(
    env: EnvView<'_>,
    st: ImportView,
    deps: Seq<ResolvedView>,
    k: int,
    forced: Option<ForcedView>,
    ws: Option<&CargoWorkspace>,
    n: nat,
    x: int,
)
    requires
        0 <= x < k <= deps.len(),
        imported_deps(env, st, deps, k, forced, ws, n) is Ok,
    ensures
        imported_deps(env, st, deps, k, forced, ws, n)->Ok_0.1.len() == k,
        is_identity(
            env,
            deps[x],
            forced,
            ws,
            n,
            imported_deps(env, st, deps, k, forced, ws, n)->Ok_0.1[x],
        ),
    decreases k,
{
    let (before, ids) = imported_deps(env, st, deps, k - 1, forced, ws, n)->Ok_0;
    lemma_ids_len(env, st, deps, k, forced, ws, n);
    lemma_ids_len(env, st, deps, k - 1, forced, ws, n);
    let all = imported_deps(env, st, deps, k, forced, ws, n)->Ok_0.1;
    if x < k - 1 {
        dependencies_are_imported_as_planned(env, st, deps, k - 1, forced, ws, n, x);
        assert(all[x] == ids[x]);
    } else {
        let dep = deps[x];
        let via = dep.kind is Dev || dep.plan.optional;
        assert((dep.kind == DepKind::Dev) == (dep.kind is Dev));
        match (dep.plan.origin, dep.locked) {
            (OriginView::Path(path), _) => {
                let r = imported(
                    env,
                    before,
                    path,
                    false,
                    via,
                    forced_below(forced),
                    ws,
                    (n - 1) as nat,
                );
                assert(r is Ok && r->Ok_0.1 == all[x]);
                assert(found_at(env, path, via, forced_below(forced), ws, (n - 1) as nat, all[x]));
            },
            (OriginView::Edge(_), Some(locked)) => {
                let r = imported(
                    env,
                    before,
                    locked.source_dir,
                    false,
                    via,
                    Some(forced_by(locked)),
                    ws,
                    (n - 1) as nat,
                );
                assert(r is Ok && r->Ok_0.1 == all[x]);
                assert(found_at(
                    env,
                    locked.source_dir,
                    via,
                    Some(forced_by(locked)),
                    ws,
                    (n - 1) as nat,
                    all[x],
                ));
            },
            (OriginView::Edge(_), None) => {
                assert(all[x] == crate::import::provisional_id(dep.plan.package));
            },
        }
    }
}

proof fn lemma_ids_len(
    env: EnvView<'_>,
    st: ImportView,
    deps: Seq<ResolvedView>,
    k: int,
    forced: Option<ForcedView>,
    ws: Option<&CargoWorkspace>,
    n: nat,
)
    requires
        0 <= k,
        imported_deps(env, st, deps, k, forced, ws, n) is Ok,
    ensures
        imported_deps(env, st, deps, k, forced, ws, n)->Ok_0.1.len() == k,
    decreases k,
{
    if k > 0 {
        lemma_ids_len(env, st, deps, k - 1, forced, ws, n);
    }
}

} // verus!
