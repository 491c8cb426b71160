//! What a dependency declaration comes to.

use vstd::prelude::*;
use crate::deps::{joined_features, list_or_empty, planned, DepPlanView, OriginView};
use crate::import::{dep_of, deps_of, DepKind, ResolvedView};
use crate::manifest::{DepTable, DepValue};
use crate::model::PackageIdView;
use crate::paths::joined;
use crate::strmap::StrMap;
use crate::text::texts;

verus! {

/// Whether a list that may be left out lists a text.
pub open spec fn lists(list: Option<Vec<String>>, text: Seq<char>) -> bool {
    list is Some && exists|k: int| 0 <= k < list->0@.len() && (#[trigger] list->0@[k])@ == text
}

/// Whether texts are exactly those of a list, in order; none where it is left out.
pub open spec fn just_lists(list: Option<Vec<String>>, all: Seq<Seq<char>>) -> bool {
    match list {
        Some(v) => all.len() == v@.len() && forall|k: int|
            0 <= k < v@.len() ==> #[trigger] all[k] == v@[k]@,
        None => all.len() == 0,
    }
}

/// Whether a text that may be left out is this one, or is left out and this is the
/// other.
pub open spec fn named_or(text: Option<String>, other: Seq<char>, this: Seq<char>) -> bool {
    (text matches Some(s) ==> this == s@) && (text is None ==> this == other)
}

proof fn lemma_lists(list: Option<Vec<String>>)
    ensures
        just_lists(list, list_or_empty(list)),
        forall|f: Seq<char>| #[trigger] list_or_empty(list).contains(f) <==> lists(list, f),
{
    if let Some(v) = list {
        assert forall|f: Seq<char>| #[trigger] list_or_empty(list).contains(f) <==> lists(
            list,
            f,
        ) by {
            if lists(list, f) {
                let k = choose|k: int| 0 <= k < v@.len() && (#[trigger] v@[k])@ == f;
                assert(texts(v@)[k] == f);
            }
            if texts(v@).contains(f) {
                let k = choose|k: int| 0 <= k < texts(v@).len() && texts(v@)[k] == f;
                assert(v@[k]@ == f);
            }
        }
    }
}

proof fn lemma_joined_features(inherited: Seq<Seq<char>>, own: Seq<Seq<char>>)
    ensures
        forall|f: Seq<char>| #[trigger]
            joined_features(inherited, own).contains(f) <==> inherited.contains(f)
                || own.contains(f),
        joined_features(inherited, own).len() >= inherited.len(),
        joined_features(inherited, own).take(inherited.len() as int) == inherited,
    decreases own.len(),
{
    let all = joined_features(inherited, own);
    if own.len() == 0 {
        assert(all.take(inherited.len() as int) =~= inherited);
    } else {
        let less = own.drop_last();
        lemma_joined_features(inherited, less);
        let before = joined_features(inherited, less);
        assert(own[own.len() - 1] == own.last());
        assert(all.take(inherited.len() as int) =~= before.take(inherited.len() as int));
        assert forall|f: Seq<char>| #[trigger] all.contains(f) <==> inherited.contains(f)
            || own.contains(f) by {
            if less.contains(f) {
                let k = choose|k: int| 0 <= k < less.len() && less[k] == f;
                assert(own[k] == f);
            }
            if own.contains(f) && f != own.last() {
                let k = choose|k: int| 0 <= k < own.len() && own[k] == f;
                assert(less[k] == f);
            }
            if before.contains(f) {
                let k = choose|k: int| 0 <= k < before.len() && before[k] == f;
                assert(all[k] == f);
            }
            if !before.contains(own.last()) {
                assert(all[before.len() as int] == own.last());
                if all.contains(f) && f != own.last() {
                    let k = choose|k: int| 0 <= k < all.len() && all[k] == f;
                    assert(before[k] == f);
                }
            }
        }
    }
}

// ---- What an edge asks ------------------------------------------------------------

/// An inherited dependency joins what both tables say: its default features are on
/// exactly where neither table turns them off, it is optional exactly where one of
/// them says so, and it asks for the features of both, those of the workspace
/// first.
pub proof fn inherited_edges_join_both_tables(
    name: Seq<char>,
    t: DepTable,
    target: Option<Seq<char>>,
    parent: PackageIdView,
    member: Seq<char>,
    root: Seq<char>,
    ws: StrMap<DepValue>,
    patches: Option<&StrMap<DepValue>>,
    i: DepTable,
)
    requires
        t.workspace == Some(true),
        t.git is None,
        t.path is None,
        ws@.contains_key(name),
        ws@[name] == DepValue::Table(i),
        planned(name, DepValue::Table(t), target, parent, member, root, Some(&ws), patches) is Ok,
    ensures
        ({
            let plan = planned(
                name,
                DepValue::Table(t),
                target,
                parent,
                member,
                root,
                Some(&ws),
                patches,
            )->Ok_0;
            &&& plan.default_features <==> t.default_features != Some(false) && i.default_features
                != Some(false)
            &&& plan.optional <==> t.optional == Some(true) || i.optional == Some(true)
            &&& forall|f: Seq<char>| #[trigger]
                plan.features.contains(f) <==> lists(i.features, f) || lists(t.features, f)
            &&& i.features matches Some(v) ==> v@.len() <= plan.features.len() && forall|k: int|
                0 <= k < v@.len() ==> #[trigger] plan.features[k] == v@[k]@
        }),
{
    let plan = planned(
        name,
        DepValue::Table(t),
        target,
        parent,
        member,
        root,
        Some(&ws),
        patches,
    )->Ok_0;
    lemma_lists(t.features);
    lemma_lists(i.features);
    let (a, b) = (list_or_empty(i.features), list_or_empty(t.features));
    lemma_joined_features(a, b);
    assert(plan.features == joined_features(a, b));
    if let Some(v) = i.features {
        assert forall|k: int| 0 <= k < v@.len() implies #[trigger] plan.features[k] == v@[k]@ by {
            assert(plan.features.take(a.len() as int)[k] == a[k]);
        }
    }
}

/// A dependency that inherits a bare version asks what its own table says.
pub proof fn inherited_versions_add_nothing(
    name: Seq<char>,
    t: DepTable,
    target: Option<Seq<char>>,
    parent: PackageIdView,
    member: Seq<char>,
    root: Seq<char>,
    ws: StrMap<DepValue>,
    patches: Option<&StrMap<DepValue>>,
)
    requires
        t.workspace == Some(true),
        t.git is None,
        t.path is None,
        ws@.contains_key(name),
        ws@[name] is Version,
        planned(name, DepValue::Table(t), target, parent, member, root, Some(&ws), patches) is Ok,
    ensures
        asks(
            t,
            planned(
                name,
                DepValue::Table(t),
                target,
                parent,
                member,
                root,
                Some(&ws),
                patches,
            )->Ok_0,
        ),
{
    lemma_lists(t.features);
}

/// Whether an edge asks what one table says: default features unless it turns them
/// off, to be optional where it says so, and the features that it lists.
pub open spec fn asks(t: DepTable, plan: DepPlanView) -> bool {
    &&& plan.default_features <==> t.default_features != Some(false)
    &&& plan.optional <==> t.optional == Some(true)
    &&& just_lists(t.features, plan.features)
}

/// A dependency that inherits nothing asks what its own table says, whether it
/// comes from a path, from git or from a registry, and whatever a patch says.
pub proof fn own_edges_ask_what_their_table_says(
    name: Seq<char>,
    t: DepTable,
    target: Option<Seq<char>>,
    parent: PackageIdView,
    member: Seq<char>,
    root: Seq<char>,
    inherited: Option<&StrMap<DepValue>>,
    patches: Option<&StrMap<DepValue>>,
)
    requires
        t.workspace != Some(true) || t.git is Some || t.path is Some,
        planned(name, DepValue::Table(t), target, parent, member, root, inherited, patches) is Ok,
    ensures
        asks(
            t,
            planned(
                name,
                DepValue::Table(t),
                target,
                parent,
                member,
                root,
                inherited,
                patches,
            )->Ok_0,
        ),
{
    lemma_lists(t.features);
}

/// A bare version asks for a dependency with its default features and no others,
/// which is not optional, under its own name.
pub proof fn bare_versions_ask_for_defaults(
    name: Seq<char>,
    version: String,
    target: Option<Seq<char>>,
    parent: PackageIdView,
    member: Seq<char>,
    root: Seq<char>,
    inherited: Option<&StrMap<DepValue>>,
    patches: Option<&StrMap<DepValue>>,
)
    requires
        patches matches Some(map) ==> !map@.contains_key(name),
    ensures
        ({
            let r = planned(
                name,
                DepValue::Version(version),
                target,
                parent,
                member,
                root,
                inherited,
                patches,
            );
            &&& r is Ok
            &&& r->Ok_0.default_features
            &&& !r->Ok_0.optional
            &&& r->Ok_0.features.len() == 0
            &&& r->Ok_0.package == name
            &&& r->Ok_0.origin is Edge
            &&& r->Ok_0.origin->Edge_0.req == version@
            &&& r->Ok_0.origin->Edge_0.git is None
        }),
{
}

/// Every edge keeps the target that it is declared for, that of its table before
/// that of its own key, and goes by the declared name with `_` for each `-`.
pub proof fn edges_keep_their_target_and_name(
    name: Seq<char>,
    value: DepValue,
    target: Option<Seq<char>>,
    parent: PackageIdView,
    member: Seq<char>,
    root: Seq<char>,
    inherited: Option<&StrMap<DepValue>>,
    patches: Option<&StrMap<DepValue>>,
)
    requires
        planned(name, value, target, parent, member, root, inherited, patches) is Ok,
    ensures
        ({
            let plan = planned(
                name,
                value,
                target,
                parent,
                member,
                root,
                inherited,
                patches,
            )->Ok_0;
            &&& target is Some ==> plan.target == target
            &&& target is None && value is Version ==> plan.target is None
            &&& target is None ==> (value matches DepValue::Table(t) ==> (t.target matches Some(
                key,
            ) ==> plan.target == Some(key@)) && (t.target is None ==> plan.target is None))
            &&& plan.extern_name.len() == name.len()
            &&& forall|k: int|
                0 <= k < name.len() ==> #[trigger] plan.extern_name[k] == (if name[k] == '-' {
                    '_'
                } else {
                    name[k]
                })
        }),
{
}

// ---- Where an edge leads ----------------------------------------------------------

/// Whether a patch can take the place of a registry dependency: it has a path or
/// comes from git.
pub open spec fn can_patch(patch: DepValue) -> bool {
    patch matches DepValue::Table(t) && (t.path is Some || t.git is Some)
}

/// Whether nothing patches this package, or a patch that can.
pub open spec fn well_patched(patches: Option<&StrMap<DepValue>>, package: Seq<char>) -> bool {
    patches matches Some(map) ==> map@.contains_key(package) ==> can_patch(map@[package])
}

/// Which declarations can be followed. A git dependency has no other source and at
/// most one selector; an inherited one has an entry with a path or a version; any
/// other has a path or a version; and no patch is a registry patch. Every fault is
/// reported as unsupported.
pub proof fn declarations_need_one_source(
    name: Seq<char>,
    value: DepValue,
    target: Option<Seq<char>>,
    parent: PackageIdView,
    member: Seq<char>,
    root: Seq<char>,
    inherited: Option<&StrMap<DepValue>>,
    patches: Option<&StrMap<DepValue>>,
    package: Seq<char>,
)
    ensures
        ({
            let r = planned(name, value, target, parent, member, root, inherited, patches);
            &&& r matches Err(fault) ==> fault is Unsupported
            &&& value is Version ==> (r is Ok <==> well_patched(patches, name))
            &&& value matches DepValue::Table(t) ==> {
                &&& t.git is Some ==> (r is Ok <==> t.path is None && t.version is None
                    && t.workspace != Some(true) && !(t.rev is Some && t.tag is Some) && !(
                t.rev is Some && t.branch is Some) && !(t.tag is Some && t.branch is Some))
                &&& t.git is None && t.path is Some ==> r is Ok
                &&& t.git is None && t.path is None && t.workspace != Some(true) ==> (r is Ok
                    ==> t.version is Some)
                &&& t.git is None && t.path is None && t.workspace != Some(true)
                    && t.version is Some && named_or(t.package, name, package) ==> (r is Ok
                    <==> well_patched(patches, package))
                &&& t.git is None && t.path is None && t.workspace == Some(true) ==> (r is Ok
                    ==> inherited is Some && inherited->0@.contains_key(name))
                &&& t.git is None && t.path is None && t.workspace == Some(true) && inherited is Some
                    && inherited->0@.contains_key(name) ==> match inherited->0@[name] {
                    DepValue::Version(_) => r is Ok <==> well_patched(patches, name),
                    DepValue::Table(i) => {
                        &&& i.path is Some ==> r is Ok
                        &&& i.path is None && i.version is None ==> r is Err
                    },
                }
            }
        }),
{
}

/// A dependency with a path is the package in that directory: an own path is
/// relative to the manifest that has it, an inherited one and that of a patch to
/// the workspace's root.
pub proof fn paths_lead_where_they_are_declared(
    name: Seq<char>,
    t: DepTable,
    target: Option<Seq<char>>,
    parent: PackageIdView,
    member: Seq<char>,
    root: Seq<char>,
    inherited: Option<&StrMap<DepValue>>,
    patches: Option<&StrMap<DepValue>>,
)
    requires
        t.git is None,
    ensures
        ({
            let r = planned(
                name,
                DepValue::Table(t),
                target,
                parent,
                member,
                root,
                inherited,
                patches,
            );
            &&& t.path matches Some(path) ==> r is Ok && r->Ok_0.origin == OriginView::Path(
                joined(member, path@),
            ) && named_or(t.package, name, r->Ok_0.package)
            &&& t.path is None && t.workspace == Some(true) && inherited is Some
                && inherited->0@.contains_key(name) ==> (inherited->0@[name] matches DepValue::Table(
                i,
            ) ==> (i.path matches Some(path) ==> r is Ok && r->Ok_0.origin == OriginView::Path(
                joined(root, path@),
            ) && named_or(i.package, name, r->Ok_0.package)))
        }),
{
}

/// A registry dependency that nothing patches is asked of the lockfile as it is
/// declared: by its requirement, for the package that declares it, and with what
/// the edge itself asks.
pub proof fn registry_edges_are_asked_as_declared(
    name: Seq<char>,
    t: DepTable,
    target: Option<Seq<char>>,
    parent: PackageIdView,
    member: Seq<char>,
    root: Seq<char>,
    inherited: Option<&StrMap<DepValue>>,
)
    requires
        t.git is None,
        t.path is None,
        t.workspace != Some(true),
        t.version is Some,
    ensures
        ({
            let r = planned(
                name,
                DepValue::Table(t),
                target,
                parent,
                member,
                root,
                inherited,
                None,
            );
            &&& r is Ok
            &&& named_or(t.package, name, r->Ok_0.package)
            &&& r->Ok_0.origin is Edge
            &&& r->Ok_0.origin->Edge_0.req == t.version->0@
            &&& r->Ok_0.origin->Edge_0.git is None
            &&& r->Ok_0.origin->Edge_0.parent == parent
            &&& repeats(r->Ok_0)
        }),
{
}

/// Whether what is asked of the lockfile is what the edge asks.
pub open spec fn repeats(plan: DepPlanView) -> bool {
    plan.origin matches OriginView::Edge(e) ==> {
        &&& e.package == plan.package
        &&& e.extern_name == plan.extern_name
        &&& e.optional == plan.optional
        &&& e.default_features == plan.default_features
        &&& e.features == plan.features
    }
}

/// An inherited registry dependency that nothing patches is asked of the lockfile by
/// the workspace's requirement; the own table may rename the package, then the
/// workspace's.
pub proof fn inherited_edges_are_asked_by_the_workspace(
    name: Seq<char>,
    t: DepTable,
    target: Option<Seq<char>>,
    parent: PackageIdView,
    member: Seq<char>,
    root: Seq<char>,
    ws: StrMap<DepValue>,
)
    requires
        t.git is None,
        t.path is None,
        t.workspace == Some(true),
        ws@.contains_key(name),
    ensures
        ({
            let r = planned(
                name,
                DepValue::Table(t),
                target,
                parent,
                member,
                root,
                Some(&ws),
                None,
            );
            match ws@[name] {
                DepValue::Version(version) => {
                    &&& r is Ok
                    &&& r->Ok_0.package == name
                    &&& r->Ok_0.origin is Edge
                    &&& r->Ok_0.origin->Edge_0.req == version@
                    &&& r->Ok_0.origin->Edge_0.git is None
                    &&& r->Ok_0.origin->Edge_0.parent == parent
                    &&& repeats(r->Ok_0)
                },
                DepValue::Table(i) => i.path is None && i.version is Some ==> {
                    &&& r is Ok
                    &&& t.package matches Some(p) ==> r->Ok_0.package == p@
                    &&& t.package is None ==> named_or(i.package, name, r->Ok_0.package)
                    &&& r->Ok_0.origin is Edge
                    &&& r->Ok_0.origin->Edge_0.req == i.version->0@
                    &&& r->Ok_0.origin->Edge_0.git is None
                    &&& r->Ok_0.origin->Edge_0.parent == parent
                    &&& repeats(r->Ok_0)
                },
            }
        }),
{
}

/// A git dependency is asked of the lockfile by its url and its selectors, for any
/// version.
pub proof fn git_edges_are_asked_by_their_selectors(
    name: Seq<char>,
    t: DepTable,
    target: Option<Seq<char>>,
    parent: PackageIdView,
    member: Seq<char>,
    root: Seq<char>,
    inherited: Option<&StrMap<DepValue>>,
    patches: Option<&StrMap<DepValue>>,
)
    requires
        t.git is Some,
        planned(name, DepValue::Table(t), target, parent, member, root, inherited, patches) is Ok,
    ensures
        ({
            let plan = planned(
                name,
                DepValue::Table(t),
                target,
                parent,
                member,
                root,
                inherited,
                patches,
            )->Ok_0;
            &&& named_or(t.package, name, plan.package)
            &&& plan.origin is Edge
            &&& plan.origin->Edge_0.req == "*"@
            &&& plan.origin->Edge_0.parent == parent
            &&& plan.origin->Edge_0.git is Some
            &&& selects(t, plan.origin->Edge_0.git->0)
            &&& repeats(plan)
        }),
{
}

/// Whether a git source has the url and the selectors of a table.
pub open spec fn selects(t: DepTable, g: crate::model::GitView) -> bool {
    &&& t.git matches Some(url) ==> g.url == crate::model::canonical_git_url(url@)
    &&& t.rev matches Some(rev) ==> g.rev == Some(rev@)
    &&& t.rev is None ==> g.rev is None
    &&& t.tag matches Some(tag) ==> g.tag == Some(tag@)
    &&& t.tag is None ==> g.tag is None
    &&& t.branch matches Some(branch) ==> g.branch == Some(branch@)
    &&& t.branch is None ==> g.branch is None
}

/// A patch decides where a registry dependency comes from, and which package it is:
/// the one at its path, from the workspace's root, or the one that its git source
/// has. What the edge asks is the declaration's own (see the laws above).
pub proof fn patches_decide_the_source(
    name: Seq<char>,
    t: DepTable,
    target: Option<Seq<char>>,
    parent: PackageIdView,
    member: Seq<char>,
    root: Seq<char>,
    inherited: Option<&StrMap<DepValue>>,
    patches: StrMap<DepValue>,
    package: Seq<char>,
    by: DepTable,
)
    requires
        t.git is None,
        t.path is None,
        t.workspace != Some(true),
        t.version is Some,
        named_or(t.package, name, package),
        patches@.contains_key(package),
        patches@[package] == DepValue::Table(by),
        by.path is Some || by.git is Some,
    ensures
        ({
            let r = planned(
                name,
                DepValue::Table(t),
                target,
                parent,
                member,
                root,
                inherited,
                Some(&patches),
            );
            r is Ok && from_patch(by, package, parent, root, r->Ok_0)
        }),
{
}

/// Whether a dependency comes from where a patch says.
pub open spec fn from_patch(
    by: DepTable,
    package: Seq<char>,
    parent: PackageIdView,
    root: Seq<char>,
    plan: DepPlanView,
) -> bool {
    &&& named_or(by.package, package, plan.package)
    &&& by.path matches Some(path) ==> plan.origin == OriginView::Path(joined(root, path@))
    &&& by.path is None ==> {
        &&& plan.origin is Edge
        &&& plan.origin->Edge_0.req == "*"@
        &&& plan.origin->Edge_0.parent == parent
        &&& plan.origin->Edge_0.package == plan.package
        &&& plan.origin->Edge_0.git is Some
        &&& selects(by, plan.origin->Edge_0.git->0)
    }
}

/// A bare version and an inherited one come from where a patch of their package
/// says, too; of a bare version the patch says also what the edge asks.
pub proof fn patches_replace_versions(
    name: Seq<char>,
    value: DepValue,
    target: Option<Seq<char>>,
    parent: PackageIdView,
    member: Seq<char>,
    root: Seq<char>,
    ws: StrMap<DepValue>,
    patches: StrMap<DepValue>,
    by: DepTable,
)
    requires
        value matches DepValue::Table(t) ==> t.git is None && t.path is None && t.workspace == Some(
            true,
        ) && ws@.contains_key(name) && (ws@[name] is Version || (ws@[name] matches DepValue::Table(
            i,
        ) && i.path is None && i.version is Some && i.package is None && t.package is None)),
        patches@.contains_key(name),
        patches@[name] == DepValue::Table(by),
        by.path is Some || by.git is Some,
    ensures
        ({
            let r = planned(
                name,
                value,
                target,
                parent,
                member,
                root,
                Some(&ws),
                Some(&patches),
            );
            &&& r is Ok
            &&& from_patch(by, name, parent, root, r->Ok_0)
            &&& value is Version ==> asks(by, r->Ok_0)
        }),
{
    lemma_lists(by.features);
}

// ---- The model's edges ------------------------------------------------------------

/// The edges of a package are its dependencies of that kind, each with the package
/// that it leads to and all that it asks: for every one there is an edge, and there
/// is no other edge.
pub proof fn edges_are_the_resolved_dependencies(
    resolved: Seq<ResolvedView>,
    ids: Seq<PackageIdView>,
    kind: DepKind,
    n: int,
)
    requires
        0 <= n <= resolved.len(),
        resolved.len() == ids.len(),
    ensures
        forall|k: int|
            #![trigger resolved[k]]
            0 <= k < n && resolved[k].kind == kind ==> exists|x: int|
                0 <= x < deps_of(resolved, ids, kind, n).len() && is_edge(
                    resolved[k].plan,
                    ids[k],
                    #[trigger] deps_of(resolved, ids, kind, n)[x],
                ),
        forall|x: int|
            #![trigger deps_of(resolved, ids, kind, n)[x]]
            0 <= x < deps_of(resolved, ids, kind, n).len() ==> exists|k: int|
                0 <= k < n && (#[trigger] resolved[k]).kind == kind && is_edge(
                    resolved[k].plan,
                    ids[k],
                    deps_of(resolved, ids, kind, n)[x],
                ),
    decreases n,
{
    if n > 0 {
        edges_are_the_resolved_dependencies(resolved, ids, kind, n - 1);
        let before = deps_of(resolved, ids, kind, n - 1);
        let after = deps_of(resolved, ids, kind, n);
        assert forall|k: int|
            #![trigger resolved[k]]
            0 <= k < n && resolved[k].kind == kind implies exists|x: int|
            0 <= x < after.len() && is_edge(resolved[k].plan, ids[k], #[trigger] after[x]) by {
            if k < n - 1 {
                let x = choose|x: int|
                    0 <= x < before.len() && is_edge(
                        resolved[k].plan,
                        ids[k],
                        #[trigger] before[x],
                    );
                assert(after[x] == before[x]);
            } else {
                assert(after[before.len() as int] == dep_of(resolved[k].plan, ids[k]));
            }
        }
        assert forall|x: int|
            #![trigger after[x]]
            0 <= x < after.len() implies exists|k: int|
            0 <= k < n && (#[trigger] resolved[k]).kind == kind && is_edge(
                resolved[k].plan,
                ids[k],
                after[x],
            ) by {
            if x < before.len() {
                assert(after[x] == before[x]);
                let k = choose|k: int|
                    0 <= k < n - 1 && (#[trigger] resolved[k]).kind == kind && is_edge(
                        resolved[k].plan,
                        ids[k],
                        before[x],
                    );
                assert(0 <= k < n && resolved[k].kind == kind);
            } else {
                assert(resolved[n - 1].kind == kind);
                assert(after[x] == dep_of(resolved[n - 1].plan, ids[n - 1]));
            }
        }
    }
}

/// Whether an edge leads to a package and asks what its declaration does.
pub open spec fn is_edge(
    plan: DepPlanView,
    package: PackageIdView,
    edge: crate::model::DepView,
) -> bool {
    &&& edge.package == package
    &&& edge.extern_name == plan.extern_name
    &&& edge.optional == plan.optional
    &&& edge.default_features == plan.default_features
    &&& edge.features == plan.features
    &&& edge.target == plan.target
}

} // verus!
