//! Dependency declarations: where each one leads.

use vstd::prelude::*;
use vstd::string::*;
use crate::manifest::{CargoImportError, DepTable, DepValue, ImportFault};
use crate::model::{
    canonical_git_url, crate_name, sanitized, GitSelector, GitView, PackageId, PackageIdView,
    RegistryEdge, RegistryEdgeView,
};
use crate::paths::{joined, path_join};
use crate::strmap::StrMap;
use crate::text::{
    cat3, cat5, copy_opt, copy_texts, list_contains, opt_view, owned, push_text, quote, quoted,
    texts,
};

verus! {

/// A locked package resolved for one registry edge: its exact identity and the
/// extracted source directory it imports from.
#[derive(Debug)]
pub struct LockedSource {
    /// Exact locked identity (name, version and source).
    pub id: PackageId,
    /// Extracted source directory (materialized from the store).
    pub source_dir: String,
    /// Whether the source identity propagates to every package inside the
    /// checkout (git dependencies: all packages from one repository share the
    /// `git+<url>#<commit>` identity). Registry checkouts never propagate.
    pub propagate_source: bool,
}

/// What a locked source holds.
pub struct LockedView {
    pub id: PackageIdView,
    pub source_dir: Seq<char>,
    pub propagate_source: bool,
}

impl View for LockedSource {
    type V = LockedView;

    open spec fn view(&self) -> LockedView {
        LockedView {
            id: self.id@,
            source_dir: self.source_dir@,
            propagate_source: self.propagate_source,
        }
    }
}

impl Clone for LockedSource {
    fn clone(&self) -> (r: LockedSource)
        ensures
            r == *self,
    {
        LockedSource {
            id: self.id.clone(),
            source_dir: self.source_dir.clone(),
            propagate_source: self.propagate_source,
        }
    }
}

/// Where a dependency comes from.
#[derive(Debug)]
pub enum Origin {
    /// The package in this directory.
    Path(String),
    /// What the lockfile has for this edge.
    Edge(RegistryEdge),
}

/// What an origin holds.
pub enum OriginView {
    Path(Seq<char>),
    Edge(RegistryEdgeView),
}

impl View for Origin {
    type V = OriginView;

    open spec fn view(&self) -> OriginView {
        match *self {
            Origin::Path(path) => OriginView::Path(path@),
            Origin::Edge(edge) => OriginView::Edge(edge@),
        }
    }
}

/// A dependency declaration, read: the crate name used at the use site, the
/// declared package name it refers to, and where that comes from.
#[derive(Debug)]
pub struct DepPlan {
    /// `--extern` name used by the dependent crate.
    pub extern_name: String,
    /// Real package name.
    pub package: String,
    /// Where the package comes from.
    pub origin: Origin,
    /// Optional dependency.
    pub optional: bool,
    /// Whether the dependency's default feature is enabled.
    pub default_features: bool,
    /// Features requested on the dependency.
    pub features: Vec<String>,
    /// Target-specific dependency.
    pub target: Option<String>,
}

/// What a dependency plan holds.
pub struct DepPlanView {
    pub extern_name: Seq<char>,
    pub package: Seq<char>,
    pub origin: OriginView,
    pub optional: bool,
    pub default_features: bool,
    pub features: Seq<Seq<char>>,
    pub target: Option<Seq<char>>,
}

impl View for DepPlan {
    type V = DepPlanView;

    open spec fn view(&self) -> DepPlanView {
        DepPlanView {
            extern_name: self.extern_name@,
            package: self.package@,
            origin: self.origin@,
            optional: self.optional,
            default_features: self.default_features,
            features: texts(self.features@),
            target: opt_view(self.target),
        }
    }
}

/// The plan or the fault.
pub open spec fn plan_result(r: Result<DepPlan, CargoImportError>) -> Result<
    DepPlanView,
    ImportFault,
> {
    match r {
        Ok(plan) => Ok(plan@),
        Err(e) => Err(e@),
    }
}

/// The entry of a table that there may be.
pub open spec fn dep_lookup(m: Option<&StrMap<DepValue>>, name: Seq<char>) -> Option<DepValue> {
    match m {
        Some(map) => if map@.contains_key(name) {
            Some(map@[name])
        } else {
            None
        },
        None => None,
    }
}

/// Looks an entry up in a table that there may be.
fn dep_in<'a>(m: Option<&'a StrMap<DepValue>>, name: &str) -> (r: Option<&'a DepValue>)
    ensures
        match r {
            Some(v) => dep_lookup(m, name@) == Some(*v),
            None => dep_lookup(m, name@) is None,
        },
{
    match m {
        Some(map) => map.get(name),
        None => None,
    }
}

/// A value that is `default` where it is not set.
pub open spec fn set_or(v: Option<bool>, default: bool) -> bool {
    match v {
        Some(b) => b,
        None => default,
    }
}

/// A text that is `default` where it is not set.
pub open spec fn text_or(v: Option<String>, default: Seq<char>) -> Seq<char> {
    match v {
        Some(s) => s@,
        None => default,
    }
}

/// A list of texts that is empty where it is not set.
pub open spec fn list_or_empty(v: Option<Vec<String>>) -> Seq<Seq<char>> {
    match v {
        Some(l) => texts(l@),
        None => Seq::empty(),
    }
}

fn bool_or(v: Option<bool>, default: bool) -> (r: bool)
    ensures
        r == set_or(v, default),
{
    match v {
        Some(b) => b,
        None => default,
    }
}

/// The text, or the default.
pub fn string_or(v: &Option<String>, default: &str) -> (r: String)
    ensures
        r@ == text_or(*v, default@),
{
    match v {
        Some(s) => s.clone(),
        None => owned(default),
    }
}

/// The list, or none.
pub fn list_or(v: &Option<Vec<String>>) -> (r: Vec<String>)
    ensures
        texts(r@) == list_or_empty(*v),
{
    match v {
        Some(l) => copy_texts(l),
        None => {
            let r: Vec<String> = Vec::new();
            assert(texts(r@) =~= Seq::<Seq<char>>::empty());
            r
        },
    }
}

/// Inherited features, then the own ones that are not among them yet.
pub open spec fn joined_features(inherited: Seq<Seq<char>>, own: Seq<Seq<char>>) -> Seq<Seq<char>>
    decreases own.len(),
{
    if own.len() == 0 {
        inherited
    } else {
        let before = joined_features(inherited, own.drop_last());
        if before.contains(own.last()) {
            before
        } else {
            before.push(own.last())
        }
    }
}

fn join_features(inherited: &Option<Vec<String>>, own: &Vec<String>) -> (r: Vec<String>)
    ensures
        texts(r@) == joined_features(list_or_empty(*inherited), texts(own@)),
{
    let mut out = list_or(inherited);
    let ghost all = texts(own@);
    let mut i: usize = 0;
    assert(all.take(0) =~= Seq::<Seq<char>>::empty());
    while i < own.len()
        invariant
            i <= own@.len(),
            all == texts(own@),
            texts(out@) == joined_features(list_or_empty(*inherited), all.take(i as int)),
        decreases own@.len() - i,
    {
        proof {
            assert(all.take(i as int + 1).drop_last() =~= all.take(i as int));
            assert(all.take(i as int + 1).last() == own@[i as int]@);
        }
        if !list_contains(&out, own[i].as_str()) {
            push_text(&mut out, own[i].as_str());
        }
        i += 1;
    }
    assert(all.take(all.len() as int) =~= all);
    out
}

/// The registry edge of a dependency.
pub open spec fn edge_of(
    parent: PackageIdView,
    name: Seq<char>,
    package: Seq<char>,
    req: Seq<char>,
    git: Option<GitView>,
    optional: bool,
    default_features: bool,
    features: Seq<Seq<char>>,
) -> RegistryEdgeView {
    RegistryEdgeView {
        parent,
        extern_name: sanitized(name),
        package,
        req,
        git,
        optional,
        default_features,
        features,
    }
}

fn make_edge(
    parent: &PackageId,
    name: &str,
    package: &str,
    req: &str,
    git: Option<GitSelector>,
    optional: bool,
    default_features: bool,
    features: &Vec<String>,
) -> (r: RegistryEdge)
    ensures
        r@ == edge_of(
            parent@,
            name@,
            package@,
            req@,
            match git {
                Some(g) => Some(g@),
                None => None,
            },
            optional,
            default_features,
            texts(features@),
        ),
{
    RegistryEdge {
        parent: parent.clone(),
        extern_name: crate_name(name),
        package: owned(package),
        req: owned(req),
        git,
        optional,
        default_features,
        features: copy_texts(features),
    }
}

/// The git source that a table selects.
pub open spec fn selector_of(url: Seq<char>, t: DepTable) -> GitView {
    GitView {
        url: canonical_git_url(url),
        rev: opt_view(t.rev),
        tag: opt_view(t.tag),
        branch: opt_view(t.branch),
    }
}

fn make_selector(url: &str, t: &DepTable) -> (r: GitSelector)
    ensures
        r@ == selector_of(url@, *t),
{
    GitSelector {
        url: GitSelector::canonical_url(url),
        rev: copy_opt(&t.rev),
        tag: copy_opt(&t.tag),
        branch: copy_opt(&t.branch),
    }
}

/// What a `[patch]` entry puts in the place of a registry dependency: path
/// patches become path deps (relative to the workspace root), git patches
/// become git edges, registry patches are unsupported.
pub open spec fn patched(
    name: Seq<char>,
    patch: DepValue,
    parent: PackageIdView,
    root: Seq<char>,
) -> Result<DepPlanView, ImportFault> {
    let unsupported = ImportFault::Unsupported(
        "[patch] entry for "@ + quoted(name)
            + " is a registry patch; only path and git patches are supported"@,
    );
    match patch {
        DepValue::Version(_) => Err(unsupported),
        DepValue::Table(t) => {
            let package = text_or(t.package, name);
            let optional = set_or(t.optional, false);
            let default_features = set_or(t.default_features, true);
            let features = list_or_empty(t.features);
            let plan = |origin: OriginView| DepPlanView {
                extern_name: sanitized(name),
                package,
                origin,
                optional,
                default_features,
                features,
                target: None,
            };
            match (t.path, t.git) {
                (Some(path), _) => Ok(plan(OriginView::Path(joined(root, path@)))),
                (None, Some(git)) => Ok(
                    plan(
                        OriginView::Edge(
                            edge_of(
                                parent,
                                name,
                                package,
                                "*"@,
                                Some(selector_of(git@, t)),
                                optional,
                                default_features,
                                features,
                            ),
                        ),
                    ),
                ),
                (None, None) => Err(unsupported),
            }
        },
    }
}

/// Applies a `[patch]` entry to a registry dependency.
pub fn apply_patch(name: &str, patch: &DepValue, parent: &PackageId, workspace_root: &str) -> (r: Result<
    DepPlan,
    CargoImportError,
>)
    ensures
        plan_result(r) == patched(name@, *patch, parent@, workspace_root@),
{
    match patch {
        DepValue::Version(_) => Err(registry_patch(name)),
        DepValue::Table(t) => {
            let package = string_or(&t.package, name);
            let optional = bool_or(t.optional, false);
            let default_features = bool_or(t.default_features, true);
            let features = list_or(&t.features);
            let origin = match (&t.path, &t.git) {
                (Some(path), _) => Origin::Path(path_join(workspace_root, path.as_str())),
                (None, Some(git)) => Origin::Edge(
                    make_edge(
                        parent,
                        name,
                        package.as_str(),
                        "*",
                        Some(make_selector(git.as_str(), t)),
                        optional,
                        default_features,
                        &features,
                    ),
                ),
                (None, None) => {
                    return Err(registry_patch(name));
                },
            };
            Ok(
                DepPlan {
                    extern_name: crate_name(name),
                    package,
                    origin,
                    optional,
                    default_features,
                    features,
                    target: None,
                },
            )
        },
    }
}

fn registry_patch(name: &str) -> (r: CargoImportError)
    ensures
        r@ == ImportFault::Unsupported(
            "[patch] entry for "@ + quoted(name@)
                + " is a registry patch; only path and git patches are supported"@,
        ),
{
    CargoImportError::Unsupported(
        cat3(
            "[patch] entry for ",
            quote(name).as_str(),
            " is a registry patch; only path and git patches are supported",
        ),
    )
}

/// What a declaration itself asks of the edge.
pub struct Asked {
    pub optional: bool,
    pub default_features: bool,
    pub features: Seq<Seq<char>>,
    pub target: Option<Seq<char>>,
}

/// The plan with this origin.
pub open spec fn plan_with(
    name: Seq<char>,
    package: Seq<char>,
    origin: OriginView,
    a: Asked,
) -> DepPlanView {
    DepPlanView {
        extern_name: sanitized(name),
        package,
        origin,
        optional: a.optional,
        default_features: a.default_features,
        features: a.features,
        target: a.target,
    }
}

/// A registry dependency: its `[patch]` entry selects the source where there is
/// one, while the declaration still controls edge features, optionality, and
/// target conditions.
pub open spec fn registry_plan(
    name: Seq<char>,
    package: Seq<char>,
    req: Seq<char>,
    a: Asked,
    parent: PackageIdView,
    root: Seq<char>,
    patches: Option<&StrMap<DepValue>>,
) -> Result<DepPlanView, ImportFault> {
    match dep_lookup(patches, package) {
        Some(patch) => match patched(package, patch, parent, root) {
            Ok(p) => Ok(plan_with(name, p.package, p.origin, a)),
            Err(fault) => Err(fault),
        },
        None => Ok(
            plan_with(
                name,
                package,
                OriginView::Edge(
                    edge_of(
                        parent,
                        name,
                        package,
                        req,
                        None,
                        a.optional,
                        a.default_features,
                        a.features,
                    ),
                ),
                a,
            ),
        ),
    }
}

/// A git dependency: a fixed-revision source, never a registry or path dep.
pub open spec fn git_plan(
    name: Seq<char>,
    t: DepTable,
    url: Seq<char>,
    a: Asked,
    parent: PackageIdView,
) -> Result<DepPlanView, ImportFault> {
    let dependency = "dependency "@ + quoted(name);
    let one_kind = "; Cargo requires exactly one source kind"@;
    let selectors = (if t.rev is Some {
        1int
    } else {
        0
    }) + (if t.tag is Some {
        1int
    } else {
        0
    }) + (if t.branch is Some {
        1int
    } else {
        0
    });
    if t.path is Some {
        Err(ImportFault::Unsupported(dependency + " combines `git` with "@ + "`path`"@ + one_kind))
    } else if t.version is Some {
        Err(
            ImportFault::Unsupported(
                dependency + " combines `git` with "@ + "`version` (registry)"@ + one_kind,
            ),
        )
    } else if t.workspace == Some(true) {
        Err(
            ImportFault::Unsupported(
                dependency + " combines `git` with "@ + "`workspace = true`"@ + one_kind,
            ),
        )
    } else if selectors > 1 {
        Err(
            ImportFault::Unsupported(
                dependency
                    + " sets more than one of `rev`, `tag`, and `branch`; Cargo requires exactly one"@,
            ),
        )
    } else {
        let package = text_or(t.package, name);
        Ok(
            plan_with(
                name,
                package,
                OriginView::Edge(
                    edge_of(
                        parent,
                        name,
                        package,
                        "*"@,
                        Some(selector_of(url, t)),
                        a.optional,
                        a.default_features,
                        a.features,
                    ),
                ),
                a,
            ),
        )
    }
}

/// A dependency inherited from `[workspace.dependencies]`: the own table merges
/// over the inherited one (features concatenate; either may make it optional or
/// turn default features off). Inherited paths resolve relative to the
/// workspace root.
pub open spec fn inherited_plan(
    name: Seq<char>,
    t: DepTable,
    a: Asked,
    parent: PackageIdView,
    root: Seq<char>,
    inherited: Option<&StrMap<DepValue>>,
    patches: Option<&StrMap<DepValue>>,
) -> Result<DepPlanView, ImportFault> {
    let none = ImportFault::Unsupported(
        "dependency "@ + quoted(name)
            + " uses workspace inheritance without a path dependency in [workspace.dependencies]"@,
    );
    match dep_lookup(inherited, name) {
        None => Err(none),
        Some(DepValue::Version(version)) => registry_plan(
            name,
            name,
            version@,
            a,
            parent,
            root,
            patches,
        ),
        Some(DepValue::Table(i)) => {
            let both = Asked {
                optional: a.optional || set_or(i.optional, false),
                default_features: a.default_features && set_or(i.default_features, true),
                features: joined_features(list_or_empty(i.features), a.features),
                target: a.target,
            };
            match (i.path, i.version) {
                (Some(path), _) => Ok(
                    plan_with(
                        name,
                        text_or(i.package, name),
                        OriginView::Path(joined(root, path@)),
                        both,
                    ),
                ),
                (None, Some(version)) => registry_plan(
                    name,
                    text_or(t.package, text_or(i.package, name)),
                    version@,
                    both,
                    parent,
                    root,
                    patches,
                ),
                (None, None) => Err(none),
            }
        },
    }
}

/// Where a declaration leads. `target` is the key of the target table that it
/// stands in, where it stands in one: the edge keeps it.
pub open spec fn planned(
    name: Seq<char>,
    value: DepValue,
    target: Option<Seq<char>>,
    parent: PackageIdView,
    member: Seq<char>,
    root: Seq<char>,
    inherited: Option<&StrMap<DepValue>>,
    patches: Option<&StrMap<DepValue>>,
) -> Result<DepPlanView, ImportFault> {
    match value {
        DepValue::Version(version) => match dep_lookup(patches, name) {
            Some(patch) => match patched(name, patch, parent, root) {
                Ok(plan) => Ok(DepPlanView { target, ..plan }),
                Err(fault) => Err(fault),
            },
            None => registry_plan(
                name,
                name,
                version@,
                Asked {
                    optional: false,
                    default_features: true,
                    features: Seq::empty(),
                    target,
                },
                parent,
                root,
                None,
            ),
        },
        DepValue::Table(t) => {
            let a = Asked {
                optional: set_or(t.optional, false),
                default_features: set_or(t.default_features, true),
                features: list_or_empty(t.features),
                target: if target is Some {
                    target
                } else {
                    opt_view(t.target)
                },
            };
            let package = text_or(t.package, name);
            match (t.git, t.path) {
                (Some(url), _) => git_plan(name, t, url@, a, parent),
                (None, Some(path)) => Ok(
                    plan_with(name, package, OriginView::Path(joined(member, path@)), a),
                ),
                (None, None) => if t.workspace == Some(true) {
                    inherited_plan(name, t, a, parent, root, inherited, patches)
                } else {
                    match t.version {
                        Some(version) => registry_plan(
                            name,
                            package,
                            version@,
                            a,
                            parent,
                            root,
                            patches,
                        ),
                        None => Err(
                            ImportFault::Unsupported(
                                "dependency "@ + quoted(name) + " in "@ + member
                                    + " is neither a path nor workspace dependency"@,
                            ),
                        ),
                    }
                },
            }
        },
    }
}

/// What a declaration itself asks of the edge.
struct Wish {
    optional: bool,
    default_features: bool,
    features: Vec<String>,
    target: Option<String>,
}

impl Wish {
    spec fn asked(self) -> Asked {
        Asked {
            optional: self.optional,
            default_features: self.default_features,
            features: texts(self.features@),
            target: opt_view(self.target),
        }
    }

    fn plan(self, name: &str, package: String, origin: Origin) -> (r: DepPlan)
        ensures
            r@ == plan_with(name@, package@, origin@, self.asked()),
    {
        DepPlan {
            extern_name: crate_name(name),
            package,
            origin,
            optional: self.optional,
            default_features: self.default_features,
            features: self.features,
            target: self.target,
        }
    }
}

fn plan_registry(
    name: &str,
    package: String,
    req: &str,
    a: Wish,
    parent: &PackageId,
    root: &str,
    patches: Option<&StrMap<DepValue>>,
) -> (r: Result<DepPlan, CargoImportError>)
    ensures
        plan_result(r) == registry_plan(
            name@,
            package@,
            req@,
            a.asked(),
            parent@,
            root@,
            patches,
        ),
{
    match dep_in(patches, package.as_str()) {
        Some(patch) => match apply_patch(package.as_str(), patch, parent, root) {
            Ok(p) => Ok(a.plan(name, p.package, p.origin)),
            Err(e) => Err(e),
        },
        None => {
            let edge = make_edge(
                parent,
                name,
                package.as_str(),
                req,
                None,
                a.optional,
                a.default_features,
                &a.features,
            );
            Ok(a.plan(name, package, Origin::Edge(edge)))
        },
    }
}

fn plan_git(name: &str, t: &DepTable, url: &str, a: Wish, parent: &PackageId) -> (r: Result<
    DepPlan,
    CargoImportError,
>)
    ensures
        plan_result(r) == git_plan(name@, *t, url@, a.asked(), parent@),
{
    let combined = if t.path.is_some() {
        Some("`path`")
    } else if t.version.is_some() {
        Some("`version` (registry)")
    } else if let Some(true) = t.workspace {
        Some("`workspace = true`")
    } else {
        None
    };
    if let Some(with) = combined {
        return Err(
            CargoImportError::Unsupported(
                cat5(
                    "dependency ",
                    quote(name).as_str(),
                    " combines `git` with ",
                    with,
                    "; Cargo requires exactly one source kind",
                ),
            ),
        );
    }
    let more = (t.rev.is_some() && t.tag.is_some()) || (t.rev.is_some() && t.branch.is_some()) || (
    t.tag.is_some() && t.branch.is_some());
    if more {
        return Err(
            CargoImportError::Unsupported(
                cat3(
                    "dependency ",
                    quote(name).as_str(),
                    " sets more than one of `rev`, `tag`, and `branch`; Cargo requires exactly one",
                ),
            ),
        );
    }
    let package = string_or(&t.package, name);
    let edge = make_edge(
        parent,
        name,
        package.as_str(),
        "*",
        Some(make_selector(url, t)),
        a.optional,
        a.default_features,
        &a.features,
    );
    Ok(a.plan(name, package, Origin::Edge(edge)))
}

fn plan_inherited(
    name: &str,
    t: &DepTable,
    a: Wish,
    parent: &PackageId,
    root: &str,
    inherited: Option<&StrMap<DepValue>>,
    patches: Option<&StrMap<DepValue>>,
) -> (r: Result<DepPlan, CargoImportError>)
    ensures
        plan_result(r) == inherited_plan(
            name@,
            *t,
            a.asked(),
            parent@,
            root@,
            inherited,
            patches,
        ),
{
    match dep_in(inherited, name) {
        None => Err(not_inherited(name)),
        Some(DepValue::Version(version)) => plan_registry(
            name,
            owned(name),
            version.as_str(),
            a,
            parent,
            root,
            patches,
        ),
        Some(DepValue::Table(i)) => {
            let both = Wish {
                optional: a.optional || bool_or(i.optional, false),
                default_features: a.default_features && bool_or(i.default_features, true),
                features: join_features(&i.features, &a.features),
                target: a.target,
            };
            match (&i.path, &i.version) {
                (Some(path), _) => {
                    let package = string_or(&i.package, name);
                    Ok(both.plan(name, package, Origin::Path(path_join(root, path.as_str()))))
                },
                (None, Some(version)) => {
                    let inner = string_or(&i.package, name);
                    let package = string_or(&t.package, inner.as_str());
                    plan_registry(name, package, version.as_str(), both, parent, root, patches)
                },
                (None, None) => Err(not_inherited(name)),
            }
        },
    }
}

fn not_inherited(name: &str) -> (r: CargoImportError)
    ensures
        r@ == ImportFault::Unsupported(
            "dependency "@ + quoted(name@)
                + " uses workspace inheritance without a path dependency in [workspace.dependencies]"@,
        ),
{
    CargoImportError::Unsupported(
        cat3(
            "dependency ",
            quote(name).as_str(),
            " uses workspace inheritance without a path dependency in [workspace.dependencies]",
        ),
    )
}

/// The key of the target table, where there is one.
pub open spec fn key_view(target: Option<&String>) -> Option<Seq<char>> {
    match target {
        Some(key) => Some(key@),
        None => None,
    }
}

/// Reads one dependency declaration of the package `parent` in the directory
/// `member`.
pub fn plan_dep(
    name: &str,
    value: &DepValue,
    target: Option<&String>,
    parent: &PackageId,
    member: &str,
    workspace_root: &str,
    inherited: Option<&StrMap<DepValue>>,
    patches: Option<&StrMap<DepValue>>,
) -> (r: Result<DepPlan, CargoImportError>)
    ensures
        plan_result(r) == planned(
            name@,
            *value,
            key_view(target),
            parent@,
            member@,
            workspace_root@,
            inherited,
            patches,
        ),
{
    match value {
        DepValue::Version(version) => match dep_in(patches, name) {
            Some(patch) => match apply_patch(name, patch, parent, workspace_root) {
                Ok(mut plan) => {
                    plan.target = match target {
                        Some(key) => Some(key.clone()),
                        None => None,
                    };
                    Ok(plan)
                },
                Err(e) => Err(e),
            },
            None => {
                let features: Vec<String> = Vec::new();
                assert(texts(features@) =~= Seq::<Seq<char>>::empty());
                plan_registry(
                    name,
                    owned(name),
                    version.as_str(),
                    Wish {
                        optional: false,
                        default_features: true,
                        features,
                        target: match target {
                            Some(key) => Some(key.clone()),
                            None => None,
                        },
                    },
                    parent,
                    workspace_root,
                    None,
                )
            },
        },
        DepValue::Table(t) => {
            let a = Wish {
                optional: bool_or(t.optional, false),
                default_features: bool_or(t.default_features, true),
                features: list_or(&t.features),
                target: match target {
                    Some(key) => Some(key.clone()),
                    None => copy_opt(&t.target),
                },
            };
            match (&t.git, &t.path) {
                (Some(url), _) => plan_git(name, t, url.as_str(), a, parent),
                (None, Some(path)) => {
                    let package = string_or(&t.package, name);
                    Ok(a.plan(name, package, Origin::Path(path_join(member, path.as_str()))))
                },
                (None, None) => {
                    if let Some(true) = t.workspace {
                        return plan_inherited(
                            name,
                            t,
                            a,
                            parent,
                            workspace_root,
                            inherited,
                            patches,
                        );
                    }
                    match &t.version {
                        Some(version) => plan_registry(
                            name,
                            string_or(&t.package, name),
                            version.as_str(),
                            a,
                            parent,
                            workspace_root,
                            patches,
                        ),
                        None => Err(
                            CargoImportError::Unsupported(
                                cat5(
                                    "dependency ",
                                    quote(name).as_str(),
                                    " in ",
                                    member,
                                    " is neither a path nor workspace dependency",
                                ),
                            ),
                        ),
                    }
                },
            }
        },
    }
}

} // verus!
