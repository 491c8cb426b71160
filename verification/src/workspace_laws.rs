//! What a workspace is made of.

use vstd::prelude::*;
use vstd::string::*;
use crate::disk::{DirEntry, Disk};
use crate::import::is_cfg;
use crate::manifest::CargoManifest;
use crate::model::{selected_resolver, Edition, Lto, PackageIdView, PackageView, PanicStrategy};
use crate::paths::joined;
use crate::profiles::ProfileTable;
use crate::strmap::{lt, StrMap};
use crate::text::texts;
use crate::text_laws::trimmed_starts;
use crate::workspace::{
    all_overrides, all_profiles, canonical_or_self, canonicals, config_env_of, default_dirs, expanded,
    expanded_members, flags_upto, glob_members, glob_of, id_lt, id_place, ids_in, links_fault,
    member_dirs, members_of, root_resolver, sorted_ids, unsupported_config, CargoConfig, EnvValue,
    RustflagsValue,
};

verus! {

// ---- Paths ------------------------------------------------------------------------

/// A path is joined to a base with one slash between them. An absolute path stays
/// as it is, and so does one with nothing before it.
pub proof fn paths_are_joined(base: Seq<char>, path: Seq<char>)
    ensures
        path.len() > 0 && path[0] == '/' ==> joined(base, path) == path,
        base.len() == 0 ==> joined(base, path) == path,
        (path.len() == 0 || path[0] != '/') && base.len() > 0 ==> {
            &&& base.last() == '/' ==> joined(base, path) == base + path
            &&& base.last() != '/' ==> joined(base, path) == base + seq!['/'] + path
        },
{
    reveal_strlit("/");
    assert("/"@ =~= seq!['/']);
    if path.len() > 0 {
        assert(path.take(1) =~= seq![path[0]]);
        assert(path.take(1)[0] == path[0]);
        assert(seq!['/'][0] == '/');
    }
}

// ---- Members ----------------------------------------------------------------------

/// Whether a path names the same place as another: their canonical forms are the
/// same, or they are, where they have none.
pub open spec fn is_place(disk: Disk, path: Seq<char>, place: Seq<char>) -> bool {
    &&& disk.canonical@.contains_key(path)
    &&& disk.canonical@[path] matches Ok(c) ==> place == c@
    &&& disk.canonical@[path] is Err ==> place == path
}

/// Whether a directory holds a package that no excluded path names.
pub open spec fn is_package(
    disk: Disk,
    root: Seq<char>,
    exclude: Seq<Seq<char>>,
    dir: Seq<char>,
) -> bool {
    &&& disk.files@.contains_key(joined(dir, "Cargo.toml"@))
    &&& disk.files@[joined(dir, "Cargo.toml"@)]
    &&& forall|x: int, place: Seq<char>|
        0 <= x < exclude.len() && is_place(disk, joined(root, #[trigger] exclude[x]), place)
            ==> !(#[trigger] is_place(disk, dir, place))
}

/// Whether a listed member stands for a directory: its own, or where it ends in a
/// star, a directory whose name begins as the last part before the star does.
pub open spec fn stands_for(
    disk: Disk,
    root: Seq<char>,
    member: Seq<char>,
    dir: Seq<char>,
) -> bool {
    if member.len() > 0 && member.last() == '*' {
        exists|parent: Seq<char>, prefix: Seq<char>, e: int|
            #[trigger] globs(root, member, parent, prefix) && #[trigger] is_found(
                disk,
                parent,
                prefix,
                e,
                dir,
            )
    } else {
        dir == joined(root, member)
    }
}

/// Whether a member that ends in a star looks in a directory for names that begin
/// with a prefix.
pub open spec fn globs(
    root: Seq<char>,
    member: Seq<char>,
    parent: Seq<char>,
    prefix: Seq<char>,
) -> bool {
    &&& !prefix.contains('/')
    &&& {
        ||| member == prefix + seq!['*'] && parent == root
        ||| exists|way: Seq<char>|
            member == #[trigger] (way + seq!['/']) + prefix + seq!['*'] && parent == joined(
                root,
                way,
            )
    }
}

/// Whether an entry of a directory is a directory whose name begins with a prefix.
pub open spec fn is_found(
    disk: Disk,
    parent: Seq<char>,
    prefix: Seq<char>,
    e: int,
    dir: Seq<char>,
) -> bool {
    &&& disk.listings@.contains_key(parent)
    &&& disk.listings@[parent] matches Ok(entries) && 0 <= e < entries@.len()
        && entries@[e].is_dir && prefix.is_prefix_of(entries@[e].name@) && dir == joined(
        parent,
        entries@[e].name@,
    )
}

proof fn lemma_glob(root: Seq<char>, member: Seq<char>)
    requires
        member.len() > 0,
        member.last() == '*',
    ensures
        globs(root, member, glob_of(root, member).0, glob_of(root, member).1),
{
    reveal_strlit("/*");
    assert("/*"@ =~= seq!['/', '*']);
    let (dir, prefix) = glob_of(root, member);
    let n = member.len();
    let less = member.drop_last();
    assert(member =~= less + seq!['*']);
    if crate::text::ends(member, "/*"@) {
        let way = member.take(n - 2);
        assert(member.skip(n - 2)[0] == '/');
        assert(prefix =~= Seq::<char>::empty());
        assert(member =~= (way + seq!['/']) + prefix + seq!['*']);
    } else {
        less.index_of_last_ensures('/');
        match less.index_of_last('/') {
            Some(i) => {
                let way = less.take(i);
                assert(less[i] == '/');
                assert(prefix == less.skip(i + 1));
                if prefix.contains('/') {
                    let k = choose|k: int| 0 <= k < prefix.len() && prefix[k] == '/';
                    assert(less[i + 1 + k] == '/');
                }
                assert(less =~= (way + seq!['/']) + prefix);
                assert(member =~= (way + seq!['/']) + prefix + seq!['*']);
            },
            None => {
                assert(member =~= prefix + seq!['*']);
            },
        }
    }
}

proof fn lemma_glob_unique(
    root: Seq<char>,
    member: Seq<char>,
    p: Seq<char>,
    a: Seq<char>,
    q: Seq<char>,
    b: Seq<char>,
)
    requires
        globs(root, member, p, a),
        globs(root, member, q, b),
    ensures
        p == q,
        a == b,
{
    let less = member.drop_last();
    if member == a + seq!['*'] && p == root {
        assert(less =~= a);
        if member == b + seq!['*'] && q == root {
            assert(less =~= b);
        } else {
            let way = choose|way: Seq<char>|
                member == #[trigger] (way + seq!['/']) + b + seq!['*'] && q == joined(root, way);
            assert(a[way.len() as int] == member[way.len() as int]);
            assert(member[way.len() as int] == '/');
        }
    } else {
        let way = choose|way: Seq<char>|
            member == #[trigger] (way + seq!['/']) + a + seq!['*'] && p == joined(root, way);
        assert(member[way.len() as int] == '/');
        if member == b + seq!['*'] && q == root {
            assert(b[way.len() as int] == member[way.len() as int]);
        } else {
            let other = choose|way: Seq<char>|
                member == #[trigger] (way + seq!['/']) + b + seq!['*'] && q == joined(root, way);
            assert(member[other.len() as int] == '/');
            if way.len() < other.len() {
                assert(a[other.len() - way.len() - 1] == member[other.len() as int]);
            }
            if other.len() < way.len() {
                assert(b[way.len() - other.len() - 1] == member[way.len() as int]);
            }
            assert(way =~= member.take(way.len() as int));
            assert(other =~= member.take(way.len() as int));
            assert(a =~= less.skip(way.len() as int + 1));
            assert(b =~= less.skip(way.len() as int + 1));
        }
    }
}

proof fn lemma_excluded(disk: Disk, root: Seq<char>, exclude: Seq<Seq<char>>, n: int)
    requires
        0 <= n <= exclude.len(),
        canonicals(disk, root, exclude, n) is Ok,
    ensures
        canonicals(disk, root, exclude, n)->Ok_0.len() == n,
        forall|x: int|
            #![trigger exclude[x]]
            0 <= x < n ==> is_place(
                disk,
                joined(root, exclude[x]),
                canonicals(disk, root, exclude, n)->Ok_0[x],
            ),
    decreases n,
{
    if n > 0 {
        lemma_excluded(disk, root, exclude, n - 1);
    }
}

proof fn lemma_package(disk: Disk, root: Seq<char>, exclude: Seq<Seq<char>>, dir: Seq<char>)
    requires
        canonicals(disk, root, exclude, exclude.len() as int) is Ok,
        disk.files@.contains_key(joined(dir, "Cargo.toml"@)),
        disk.files@[joined(dir, "Cargo.toml"@)],
        disk.canonical@.contains_key(dir),
    ensures
        crate::workspace::is_member_dir(
            disk,
            dir,
            canonicals(disk, root, exclude, exclude.len() as int)->Ok_0,
        ) == Ok::<bool, crate::disk::StopView>(is_package(disk, root, exclude, dir)),
{
    let n = exclude.len() as int;
    let excluded = canonicals(disk, root, exclude, n)->Ok_0;
    lemma_excluded(disk, root, exclude, n);
    let place = canonical_or_self(disk, dir)->Ok_0;
    assert(is_place(disk, dir, place));
    if excluded.contains(place) {
        let x = choose|x: int| 0 <= x < excluded.len() && excluded[x] == place;
        assert(is_place(disk, joined(root, exclude[x]), place));
        assert(!is_package(disk, root, exclude, dir));
    } else {
        assert forall|x: int, at: Seq<char>|
            0 <= x < exclude.len() && is_place(
                disk,
                joined(root, #[trigger] exclude[x]),
                at,
            ) implies !(#[trigger] is_place(disk, dir, at)) by {
            assert(is_place(disk, joined(root, exclude[x]), excluded[x]));
            assert(at == excluded[x]);
            assert(excluded.contains(at));
        }
    }
}

proof fn lemma_glob_members(
    disk: Disk,
    root: Seq<char>,
    exclude: Seq<Seq<char>>,
    dir: Seq<char>,
    prefix: Seq<char>,
    entries: Seq<DirEntry>,
    n: int,
)
    requires
        0 <= n <= entries.len(),
        canonicals(disk, root, exclude, exclude.len() as int) is Ok,
        glob_members(
            disk,
            dir,
            prefix,
            canonicals(disk, root, exclude, exclude.len() as int)->Ok_0,
            entries,
            n,
        ) is Ok,
    ensures
        ({
            let found = glob_members(
                disk,
                dir,
                prefix,
                canonicals(disk, root, exclude, exclude.len() as int)->Ok_0,
                entries,
                n,
            )->Ok_0;
            &&& forall|k: int|
                #![trigger found[k]]
                0 <= k < found.len() ==> is_package(disk, root, exclude, found[k]) && exists|e: int|
                    0 <= e < n && (#[trigger] entries[e]).is_dir && prefix.is_prefix_of(
                        entries[e].name@,
                    ) && found[k] == joined(dir, entries[e].name@)
            &&& forall|e: int|
                0 <= e < n && (#[trigger] entries[e]).is_dir && prefix.is_prefix_of(
                    entries[e].name@,
                ) && is_package(disk, root, exclude, joined(dir, entries[e].name@))
                    ==> found.contains(joined(dir, entries[e].name@))
        }),
    decreases n,
{
    if n > 0 {
        lemma_glob_members(disk, root, exclude, dir, prefix, entries, n - 1);
        let excluded = canonicals(disk, root, exclude, exclude.len() as int)->Ok_0;
        let before = glob_members(disk, dir, prefix, excluded, entries, n - 1)->Ok_0;
        let found = glob_members(disk, dir, prefix, excluded, entries, n)->Ok_0;
        let name = entries[n - 1].name@;
        let path = joined(dir, name);
        assert(crate::text::starts(name, prefix) <==> prefix.is_prefix_of(name)) by {
            if prefix.len() <= name.len() {
                assert(name.subrange(0, prefix.len() as int) == name.take(prefix.len() as int));
            }
        }
        let counts = entries[n - 1].is_dir && prefix.is_prefix_of(name);
        if counts && disk.files@[joined(path, "Cargo.toml"@)] {
            lemma_package(disk, root, exclude, path);
        }
        assert forall|k: int| #![trigger found[k]] 0 <= k < found.len() implies is_package(
            disk,
            root,
            exclude,
            found[k],
        ) && exists|e: int|
            0 <= e < n && (#[trigger] entries[e]).is_dir && prefix.is_prefix_of(entries[e].name@)
                && found[k] == joined(dir, entries[e].name@) by {
            if k < before.len() {
                assert(found[k] == before[k]);
                let e = choose|e: int|
                    0 <= e < n - 1 && (#[trigger] entries[e]).is_dir && prefix.is_prefix_of(
                        entries[e].name@,
                    ) && before[k] == joined(dir, entries[e].name@);
                assert(0 <= e < n && entries[e].is_dir);
            } else {
                assert(entries[n - 1].is_dir);
            }
        }
        assert forall|e: int|
            0 <= e < n && (#[trigger] entries[e]).is_dir && prefix.is_prefix_of(entries[e].name@)
                && is_package(
                disk,
                root,
                exclude,
                joined(dir, entries[e].name@),
            ) implies found.contains(joined(dir, entries[e].name@)) by {
            if e < n - 1 {
                let x = choose|x: int|
                    0 <= x < before.len() && before[x] == joined(dir, entries[e].name@);
                assert(found[x] == before[x]);
            } else {
                assert(found[before.len() as int] == path);
            }
        }
    }
}

proof fn lemma_members_of(
    disk: Disk,
    root: Seq<char>,
    member: Seq<char>,
    exclude: Seq<Seq<char>>,
)
    requires
        canonicals(disk, root, exclude, exclude.len() as int) is Ok,
        members_of(
            disk,
            root,
            member,
            canonicals(disk, root, exclude, exclude.len() as int)->Ok_0,
        ) is Ok,
    ensures
        ({
            let found = members_of(
                disk,
                root,
                member,
                canonicals(disk, root, exclude, exclude.len() as int)->Ok_0,
            )->Ok_0;
            &&& forall|k: int|
                #![trigger found[k]]
                0 <= k < found.len() ==> is_package(disk, root, exclude, found[k]) && stands_for(
                    disk,
                    root,
                    member,
                    found[k],
                )
            &&& forall|d: Seq<char>| #[trigger]
                stands_for(disk, root, member, d) && is_package(disk, root, exclude, d)
                    ==> found.contains(d)
            &&& member.len() > 0 && member.last() == '*' ==> found.len() > 0
        }),
{
    let excluded = canonicals(disk, root, exclude, exclude.len() as int)->Ok_0;
    let found = members_of(disk, root, member, excluded)->Ok_0;
    if member.len() > 0 && member.last() == '*' {
        let (dir, prefix) = glob_of(root, member);
        lemma_glob(root, member);
        let entries = disk.listings@[dir]->Ok_0@;
        lemma_glob_members(disk, root, exclude, dir, prefix, entries, entries.len() as int);
        assert forall|k: int| #![trigger found[k]] 0 <= k < found.len() implies is_package(
            disk,
            root,
            exclude,
            found[k],
        ) && stands_for(disk, root, member, found[k]) by {
            let e = choose|e: int|
                0 <= e < entries.len() && (#[trigger] entries[e]).is_dir && prefix.is_prefix_of(
                    entries[e].name@,
                ) && found[k] == joined(dir, entries[e].name@);
            assert(is_found(disk, dir, prefix, e, found[k]));
        }
        assert forall|d: Seq<char>| #[trigger]
            stands_for(disk, root, member, d) && is_package(
                disk,
                root,
                exclude,
                d,
            ) implies found.contains(d) by {
            let (p, q, e) = choose|p: Seq<char>, q: Seq<char>, e: int|
                #[trigger] globs(root, member, p, q) && #[trigger] is_found(disk, p, q, e, d);
            lemma_glob_unique(root, member, dir, prefix, p, q);
            assert(entries[e].is_dir);
        }
    } else {
        let path = joined(root, member);
        if disk.files@[joined(path, "Cargo.toml"@)] {
            lemma_package(disk, root, exclude, path);
        }
        if found.len() > 0 {
            assert(found[0] == path);
        }
    }
}

proof fn lemma_expanded(
    disk: Disk,
    root: Seq<char>,
    root_package: bool,
    members: Seq<Seq<char>>,
    exclude: Seq<Seq<char>>,
    n: int,
)
    requires
        0 <= n <= members.len(),
        canonicals(disk, root, exclude, exclude.len() as int) is Ok,
        expanded(
            disk,
            root,
            root_package,
            members,
            canonicals(disk, root, exclude, exclude.len() as int)->Ok_0,
            n,
        ) is Ok,
    ensures
        ({
            let dirs = expanded(
                disk,
                root,
                root_package,
                members,
                canonicals(disk, root, exclude, exclude.len() as int)->Ok_0,
                n,
            )->Ok_0;
            &&& root_package ==> dirs.len() > 0 && dirs[0] == root
            &&& forall|k: int|
                #![trigger dirs[k]]
                (if root_package {
                    1int
                } else {
                    0
                }) <= k < dirs.len() ==> is_package(disk, root, exclude, dirs[k]) && exists|m: int|
                    0 <= m < n && stands_for(disk, root, #[trigger] members[m], dirs[k])
            &&& forall|m: int, d: Seq<char>|
                0 <= m < n && #[trigger] stands_for(disk, root, members[m], d) && is_package(
                    disk,
                    root,
                    exclude,
                    d,
                ) ==> dirs.contains(d)
        }),
    decreases n,
{
    if n > 0 {
        lemma_expanded(disk, root, root_package, members, exclude, n - 1);
        let excluded = canonicals(disk, root, exclude, exclude.len() as int)->Ok_0;
        let before = expanded(disk, root, root_package, members, excluded, n - 1)->Ok_0;
        let dirs = expanded(disk, root, root_package, members, excluded, n)->Ok_0;
        let more = members_of(disk, root, members[n - 1], excluded)->Ok_0;
        lemma_members_of(disk, root, members[n - 1], exclude);
        let first: int = if root_package {
            1
        } else {
            0
        };
        assert forall|k: int| #![trigger dirs[k]] first <= k < dirs.len() implies is_package(
            disk,
            root,
            exclude,
            dirs[k],
        ) && exists|m: int| 0 <= m < n && stands_for(
            disk,
            root,
            #[trigger] members[m],
            dirs[k],
        ) by {
            if k < before.len() {
                assert(dirs[k] == before[k]);
                let m = choose|m: int|
                    0 <= m < n - 1 && stands_for(disk, root, #[trigger] members[m], before[k]);
                assert(stands_for(disk, root, members[m], dirs[k]));
            } else {
                assert(dirs[k] == more[k - before.len()]);
                assert(stands_for(disk, root, members[n - 1], dirs[k]));
            }
        }
        assert forall|m: int, d: Seq<char>|
            0 <= m < n && #[trigger] stands_for(disk, root, members[m], d) && is_package(
                disk,
                root,
                exclude,
                d,
            ) implies dirs.contains(d) by {
            if m < n - 1 {
                let x = choose|x: int| 0 <= x < before.len() && before[x] == d;
                assert(dirs[x] == d);
            } else {
                let x = choose|x: int| 0 <= x < more.len() && more[x] == d;
                assert(dirs[before.len() as int + x] == d);
            }
        }
    }
}

/// The directories of a members list are those of packages that a listed member
/// stands for and no excluded path names, and all of them. The root comes first
/// where it holds a package.
pub proof fn members_are_the_listed_packages(
    disk: Disk,
    root: Seq<char>,
    members: Seq<Seq<char>>,
    exclude: Seq<Seq<char>>,
    root_package: bool,
)
    requires
        expanded_members(disk, root, members, exclude, root_package) is Ok,
    ensures
        ({
            let dirs = expanded_members(disk, root, members, exclude, root_package)->Ok_0;
            &&& root_package ==> dirs.len() > 0 && dirs[0] == root
            &&& forall|k: int|
                #![trigger dirs[k]]
                0 <= k < dirs.len() ==> {
                    ||| root_package && k == 0
                    ||| is_package(disk, root, exclude, dirs[k]) && exists|m: int|
                        0 <= m < members.len() && stands_for(
                            disk,
                            root,
                            #[trigger] members[m],
                            dirs[k],
                        )
                }
            &&& forall|m: int, d: Seq<char>|
                0 <= m < members.len() && #[trigger] stands_for(disk, root, members[m], d)
                    && is_package(disk, root, exclude, d) ==> dirs.contains(d)
        }),
{
    lemma_expanded(disk, root, root_package, members, exclude, members.len() as int);
}

/// A listed member without a manifest is refused, and so is one with a star that
/// finds no package.
pub proof fn members_must_be_there(
    disk: Disk,
    root: Seq<char>,
    members: Seq<Seq<char>>,
    exclude: Seq<Seq<char>>,
    root_package: bool,
    m: int,
)
    requires
        0 <= m < members.len(),
        forall|d: Seq<char>| #[trigger]
            stands_for(disk, root, members[m], d) ==> disk.files@.contains_key(
                joined(d, "Cargo.toml"@),
            ) && !disk.files@[joined(d, "Cargo.toml"@)],
    ensures
        expanded_members(disk, root, members, exclude, root_package) is Err,
{
    if expanded_members(disk, root, members, exclude, root_package) is Ok {
        let excluded = canonicals(disk, root, exclude, exclude.len() as int)->Ok_0;
        lemma_every_member(disk, root, root_package, members, excluded, members.len() as int, m);
        lemma_members_of(disk, root, members[m], exclude);
        let found = members_of(disk, root, members[m], excluded)->Ok_0;
        if members[m].len() > 0 && members[m].last() == '*' {
            assert(stands_for(disk, root, members[m], found[0]));
        } else {
            assert(stands_for(disk, root, members[m], joined(root, members[m])));
        }
    }
}

proof fn lemma_every_member(
    disk: Disk,
    root: Seq<char>,
    root_package: bool,
    members: Seq<Seq<char>>,
    excluded: Seq<Seq<char>>,
    n: int,
    m: int,
)
    requires
        0 <= m < n <= members.len(),
        expanded(disk, root, root_package, members, excluded, n) is Ok,
    ensures
        members_of(disk, root, members[m], excluded) is Ok,
    decreases n,
{
    if m < n - 1 {
        lemma_every_member(disk, root, root_package, members, excluded, n - 1, m);
    }
}

/// Without a members list the root's package is the only member; without that
/// either there is none to be had. Where no members are built by default, none is
/// listed.
pub proof fn a_lone_package_is_its_workspace(disk: Disk, manifest: CargoManifest, root: Seq<char>)
    ensures
        manifest.workspace is None || manifest.workspace->0.members@.len() == 0 ==> {
            &&& manifest.package is Some ==> member_dirs(disk, manifest, root) is Ok && member_dirs(
                disk,
                manifest,
                root,
            )->Ok_0 == seq![root]
            &&& manifest.package is None ==> member_dirs(disk, manifest, root) is Err
        },
        manifest.workspace matches Some(w) ==> {
            &&& w.members@.len() > 0 ==> member_dirs(disk, manifest, root) == expanded_members(
                disk,
                root,
                texts(w.members@),
                texts(w.exclude@),
                manifest.package is Some,
            )
            &&& w.default_members@.len() > 0 ==> default_dirs(disk, manifest, root)
                == expanded_members(
                disk,
                root,
                texts(w.default_members@),
                texts(w.exclude@),
                manifest.package is Some,
            )
        },
        manifest.workspace is None || manifest.workspace->0.default_members@.len() == 0 ==> {
            &&& default_dirs(disk, manifest, root) is Ok
            &&& default_dirs(disk, manifest, root)->Ok_0.len() == 0
        },
{
}

/// The identities in some directories are those of the packages that lie there.
pub proof fn identities_are_of_packages_there(
    packages: Seq<PackageView>,
    dirs: Seq<Seq<char>>,
    n: int,
)
    requires
        0 <= n <= packages.len(),
    ensures
        forall|id: PackageIdView| #[trigger]
            ids_in(packages, dirs, n).contains(id) <==> exists|k: int|
                0 <= k < n && (#[trigger] packages[k]).id == id && dirs.contains(packages[k].dir),
    decreases n,
{
    if n > 0 {
        identities_are_of_packages_there(packages, dirs, n - 1);
        let before = ids_in(packages, dirs, n - 1);
        let all = ids_in(packages, dirs, n);
        assert forall|id: PackageIdView| #[trigger] all.contains(id) <==> exists|k: int|
            0 <= k < n && (#[trigger] packages[k]).id == id && dirs.contains(packages[k].dir) by {
            if all.contains(id) {
                let x = choose|x: int| 0 <= x < all.len() && all[x] == id;
                if x < before.len() {
                    assert(before[x] == id);
                    assert(before.contains(id));
                } else {
                    assert(packages[n - 1].id == id);
                }
            }
            if exists|k: int|
                0 <= k < n && (#[trigger] packages[k]).id == id && dirs.contains(packages[k].dir) {
                let k = choose|k: int|
                    0 <= k < n && (#[trigger] packages[k]).id == id && dirs.contains(
                        packages[k].dir,
                    );
                if k < n - 1 {
                    assert(before.contains(id));
                    let x = choose|x: int| 0 <= x < before.len() && before[x] == id;
                    assert(all[x] == id);
                } else {
                    assert(all[before.len() as int] == id);
                }
            }
        }
    }
}

proof fn lemma_place(ids: Seq<PackageIdView>, id: PackageIdView, from: int)
    requires
        0 <= from <= ids.len(),
    ensures
        from <= id_place(ids, id, from) <= ids.len(),
        forall|k: int|
            from <= k < id_place(ids, id, from) ==> !id_lt(id, #[trigger] ids[k]),
        id_place(ids, id, from) < ids.len() ==> id_lt(id, ids[id_place(ids, id, from)]),
    decreases ids.len() - from,
{
    if from < ids.len() && !id_lt(id, ids[from]) {
        lemma_place(ids, id, from + 1);
    }
}

/// Identities are listed by the order of their names.
pub proof fn identities_sort_by_name(ids: Seq<PackageIdView>, i: int, j: int)
    requires
        0 <= i <= j < sorted_ids(ids).len(),
    ensures
        !lt(sorted_ids(ids)[j].name, sorted_ids(ids)[i].name),
    decreases ids.len(),
{
    let x = ids.last();
    let before = sorted_ids(ids.drop_last());
    let all = sorted_ids(ids);
    let at = id_place(before, x, 0);
    lemma_place(before, x, 0);
    before.insert_ensures(at, x);
    crate::strmap::lemma_lt_irreflexive(x.name);
    if i != at && j != at {
        let a = if i < at {
            i
        } else {
            i - 1
        };
        let b = if j < at {
            j
        } else {
            j - 1
        };
        identities_sort_by_name(ids.drop_last(), a, b);
    } else if i == at && j > at {
        identities_sort_by_name(ids.drop_last(), at, j - 1);
        let first = before[at].name;
        if lt(before[j - 1].name, x.name) {
            if lt(x.name, first) {
                crate::strmap::lemma_lt_transitive(before[j - 1].name, x.name, first);
            }
        }
    } else if j == at && i < at {
        assert(!id_lt(x, before[i]));
    }
}

// ---- Flags ------------------------------------------------------------------------

/// A target key is a `cfg(...)` expression where that is what it begins with, white
/// space aside.
pub proof fn cfg_keys_are_told_by_their_start(space: Seq<char>, key: Seq<char>)
    requires
        crate::text_laws::blank(space),
        key.len() > 0 ==> !crate::text::is_space(key[0]),
    ensures
        is_cfg(space + key) <==> "cfg("@.is_prefix_of(key),
{
    trimmed_starts(space, key);
    if "cfg("@.len() <= key.len() {
        assert(key.subrange(0, "cfg("@.len() as int) == key.take("cfg("@.len() as int));
    }
}

/// Whether a target table counts for a host: its expression holds there, or it is
/// the host's own.
pub open spec fn counts_for(disk: Disk, key: Seq<char>, host: Seq<char>) -> bool {
    if is_cfg(key) {
        disk.cfgs@[host]@[key] matches Ok(b) && b
    } else {
        key == host
    }
}

/// Whether flags are those of a value.
pub open spec fn are_flags(v: RustflagsValue, flags: Seq<Seq<char>>) -> bool {
    match v {
        RustflagsValue::List(items) => flags == texts(items@),
        RustflagsValue::Single(flag) => flags.len() == 1 && flags[0] == flag@,
    }
}

/// Whether flags are others with those for a linker behind them.
pub open spec fn with_linker(
    linker: Option<String>,
    before: Seq<Seq<char>>,
    flags: Seq<Seq<char>>,
) -> bool {
    match linker {
        Some(l) => flags == before + seq!["-C"@, "linker="@ + l@],
        None => flags == before,
    }
}

proof fn lemma_no_table(
    disk: Disk,
    config: CargoConfig,
    host: Seq<char>,
    encoded: Option<&str>,
    m: int,
    n: int,
)
    requires
        0 <= m <= n,
        flags_upto(disk, config, host, encoded, n) is Ok,
        forall|k: int| m <= k < n ==> !counts_for(disk, #[trigger] config.target.keys()[k], host),
    ensures
        flags_upto(disk, config, host, encoded, m) is Ok,
        flags_upto(disk, config, host, encoded, n) == flags_upto(disk, config, host, encoded, m),
    decreases n - m,
{
    if m < n {
        assert(!counts_for(disk, config.target.keys()[n - 1], host));
        lemma_no_table(disk, config, host, encoded, m, n - 1);
    }
}

/// The flags of a workspace come from the last target table that counts for the
/// host and has some, else from `[build]`, else from the environment. A linker that
/// such a table names comes behind them.
pub proof fn flags_come_from_one_place(
    disk: Disk,
    config: CargoConfig,
    host: Seq<char>,
    encoded: Option<&str>,
    k: int,
)
    requires
        flags_upto(disk, config, host, encoded, config.target.keys().len() as int) is Ok,
        -1 <= k < config.target.keys().len(),
        k >= 0 ==> counts_for(disk, config.target.keys()[k], host),
        forall|j: int|
            k < j < config.target.keys().len() ==> !counts_for(
                disk,
                #[trigger] config.target.keys()[j],
                host,
            ),
    ensures
        ({
            let flags = flags_upto(
                disk,
                config,
                host,
                encoded,
                config.target.keys().len() as int,
            )->Ok_0;
            let build = config.build is Some && config.build->0.rustflags is Some;
            &&& k < 0 && build ==> are_flags(config.build->0.rustflags->0, flags)
            &&& k < 0 && !build ==> match encoded {
                Some(text) => flags == crate::text::split_spec(text@, ' '),
                None => flags.len() == 0,
            }
            &&& k >= 0 ==> {
                let table = config.target.values()[k];
                let before = flags_upto(disk, config, host, encoded, k)->Ok_0;
                &&& table.rustflags matches Some(v) ==> exists|own: Seq<Seq<char>>|
                    are_flags(v, own) && #[trigger] with_linker(table.linker, own, flags)
                &&& table.rustflags is None ==> with_linker(table.linker, before, flags)
            }
        }),
{
    let n = config.target.keys().len() as int;
    let flags = flags_upto(disk, config, host, encoded, n)->Ok_0;
    lemma_no_table(disk, config, host, encoded, k + 1, n);
    if k >= 0 {
        let table = config.target.values()[k];
        let before = flags_upto(disk, config, host, encoded, k)->Ok_0;
        let own = match table.rustflags {
            Some(v) => crate::workspace::flags_of(v),
            None => before,
        };
        if let Some(l) = table.linker {
            assert(flags =~= own + seq!["-C"@, "linker="@ + l@]);
        }
        assert(with_linker(table.linker, own, flags));
    }
}

/// Each entry of `[env]` gives its variable its value, and nothing else does.
pub proof fn configured_variables_are_set(config: CargoConfig, name: Seq<char>)
    ensures
        config.env is None ==> config_env_of(config).len() == 0,
        config.env matches Some(env) ==> {
            &&& config_env_of(config).contains_key(name) <==> env@.contains_key(name)
            &&& env@.contains_key(name) ==> match env@[name] {
                EnvValue::Plain(value) => config_env_of(config)[name] == value@,
                EnvValue::Table { value, .. } => config_env_of(config)[name] == value@,
            }
        },
{
}

/// A configuration is taken where it sets no registry, source, network or default
/// target, and only there.
pub proof fn configurations_without_sources_are_taken(config: CargoConfig)
    ensures
        unsupported_config(config) is None <==> {
            &&& !config.registries
            &&& !config.source
            &&& !config.net
            &&& !config.http
            &&& config.build matches Some(build) ==> build.target is None
        },
{
}

// ---- Resolver, profiles, links ----------------------------------------------------

/// A resolver that is named is taken; else the edition picks it: the second for
/// 2021, the third for 2024, the first before.
pub proof fn editions_pick_their_resolver(text: Seq<char>, edition: Edition)
    ensures
        selected_resolver(Some(text), edition) is Ok <==> text == "1"@ || text == "2"@ || text
            == "3"@,
        selected_resolver(Some("1"@), edition) is Ok && selected_resolver(Some("1"@), edition)->Ok_0
            is V1,
        selected_resolver(Some("2"@), edition) is Ok && selected_resolver(Some("2"@), edition)->Ok_0
            is V2,
        selected_resolver(Some("3"@), edition) is Ok && selected_resolver(Some("3"@), edition)->Ok_0
            is V3,
        selected_resolver(None, edition) is Ok,
        selected_resolver(None, edition)->Ok_0 is V3 <==> edition is E2024,
        selected_resolver(None, edition)->Ok_0 is V2 <==> edition is E2021,
{
    reveal_strlit("1");
    reveal_strlit("2");
    reveal_strlit("3");
    assert("1"@[0] == '1' && "2"@[0] == '2' && "3"@[0] == '3');
}

/// The resolver that a workspace names wins over its root package's. The first is
/// never taken.
pub proof fn workspaces_name_their_resolver(manifest: CargoManifest, root: Seq<char>)
    requires
        root_resolver(manifest, root) is Ok,
    ensures
        ({
            let r = root_resolver(manifest, root)->Ok_0;
            let named = manifest.workspace is Some && manifest.workspace->0.resolver is Some;
            let own = manifest.package is Some && manifest.package->0.resolver is Some;
            &&& r is V2 || r is V3
            &&& named ==> {
                &&& r is V2 <==> manifest.workspace->0.resolver->0@ == "2"@
                &&& r is V3 <==> manifest.workspace->0.resolver->0@ == "3"@
            }
            &&& !named && own ==> {
                &&& r is V2 <==> manifest.package->0.resolver->0@ == "2"@
                &&& r is V3 <==> manifest.package->0.resolver->0@ == "3"@
            }
            &&& !named && !own ==> manifest.package is Some
        }),
{
    reveal_strlit("2015");
    reveal_strlit("2018");
    reveal_strlit("2021");
    reveal_strlit("2024");
    assert("2015"@[3] == '5' && "2018"@[3] == '8' && "2021"@[3] == '1' && "2024"@[3] == '4');
    editions_pick_their_resolver("1"@, Edition::E2021);
    reveal_strlit("1");
    reveal_strlit("2");
    reveal_strlit("3");
    assert("1"@[0] == '1' && "2"@[0] == '2' && "3"@[0] == '3');
}

/// Each workspace has the profiles of its tables and the two built-in ones: `dev`
/// is not optimised and checks itself, `release` is and does not.
pub proof fn profiles_are_there(tables: StrMap<ProfileTable>, name: Seq<char>)
    ensures
        all_profiles(tables).contains_key(name) <==> tables@.contains_key(name) || name == "dev"@
            || name == "release"@,
        !tables@.contains_key("dev"@) ==> {
            let p = all_profiles(tables)["dev"@];
            &&& p.opt_level == "0"@
            &&& p.debug
            &&& p.lto == Lto::Off
            &&& p.panic == PanicStrategy::Unwind
            &&& p.overflow_checks == Some(true)
            &&& p.debug_assertions == Some(true)
            &&& p.codegen_units is None && p.strip is None && p.rpath is None
            &&& p.split_debuginfo is None
        },
        !tables@.contains_key("release"@) ==> {
            let p = all_profiles(tables)["release"@];
            &&& p.opt_level == "3"@
            &&& !p.debug
            &&& p.lto == Lto::Off
            &&& p.panic == PanicStrategy::Unwind
            &&& p.overflow_checks == Some(false)
            &&& p.debug_assertions == Some(false)
            &&& p.codegen_units is None && p.strip is None && p.rpath is None
            &&& p.split_debuginfo is None
        },
{
    reveal_strlit("dev");
    reveal_strlit("release");
    assert("dev"@.len() == 3 && "release"@.len() == 7);
}

/// A profile has settings of its own for just the packages that its table names.
pub proof fn overrides_are_there(tables: StrMap<ProfileTable>, name: Seq<char>, package: Seq<char>)
    ensures
        all_overrides(tables).contains_key(name) <==> tables@.contains_key(name) && (
        tables@[name].package matches Some(named) && named.keys().len() > 0),
        all_overrides(tables).contains_key(name) ==> (all_overrides(tables)[name].contains_key(
            package,
        ) <==> tables@[name].package->0@.contains_key(package)),
{
}

/// Packages are refused for their `links` values only where two have the same.
pub proof fn distinct_links_values_are_taken(packages: Seq<PackageView>, n: int)
    requires
        0 <= n <= packages.len(),
        links_fault(packages, n) is Some,
    ensures
        exists|i: int, j: int|
            0 <= i < j < n && (#[trigger] packages[i]).links is Some && packages[i].links == (
            #[trigger] packages[j]).links,
        links_fault(packages, n)->0 is Unsupported,
    decreases n,
{
    if n > 0 {
        if links_fault(packages, n - 1) is Some {
            distinct_links_values_are_taken(packages, n - 1);
            let (i, j) = choose|i: int, j: int|
                0 <= i < j < n - 1 && (#[trigger] packages[i]).links is Some && packages[i].links
                    == (#[trigger] packages[j]).links;
            assert(0 <= i < j < n && packages[i].links == packages[j].links);
        } else {
            let links = packages[n - 1].links->0;
            lemma_owner(packages, links, n - 1);
            let i = crate::workspace::links_owner(packages, links, n - 1)->0;
            assert(packages[i].links == packages[n - 1].links);
        }
    }
}

proof fn lemma_owner(packages: Seq<PackageView>, links: Seq<char>, n: int)
    requires
        0 <= n <= packages.len(),
    ensures
        crate::workspace::links_owner(packages, links, n) matches Some(k) ==> 0 <= k < n
            && packages[k].links == Some(links),
    decreases n,
{
    if n > 0 {
        lemma_owner(packages, links, n - 1);
    }
}

} // verus!
