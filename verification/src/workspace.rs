//! Workspace import: the root manifest, its members, and the local Cargo
//! configuration.

use vstd::prelude::*;
use vstd::string::*;
use crate::disk::{Disk, DirEntry, ImportStop, Query, QueryView, StopView};
use crate::features::FeatureMap;
use crate::import::{
    import_members, imported_members, is_cfg, EnvView, ImportEnv, ImportView, LockAnswer,
};
use crate::manifest::{
    edition_of, find_patches, parse_edition, patches_of, resolve_field, resolved_field,
    CargoImportError, CargoManifest, CargoWorkspace, CargoWorkspacePackage, ImportFault,
};
use crate::model::{
    dev_profile, release_profile, selected_resolver, Package, PackageId, PackageIdView,
    PackageView, ProfileSpec, ProfileView, ResolverVersion, RustModel, SourceId, SourceView,
};
use crate::profiles::{
    base_profile, chains_end, has_overrides, override_of, overrides_are, profile_of,
    profiles_fault, resolve_profiles, ProfileTable,
};
use crate::paths::{joined, path_join};
use crate::strmap::{less, lt, StrMap};
use crate::text::{
    cat, cat3, cat5, copy_texts, has_char, owned, push_string, push_text, quote, quoted,
    rsplit_once, rsplit_once_spec, same, slice, split, split_spec, starts, starts_with,
    strip_suffix, strip_suffix_spec, texts, to_chars, trim_start,
};
use crate::version::{semver_before, version_text};

verus! {

// ---- Members ----------------------------------------------------------------

/// The directory and the name prefix that a member glob stands for. Cargo member
/// globs support a single trailing `*` on the last component.
pub open spec fn glob_of(root: Seq<char>, member: Seq<char>) -> (Seq<char>, Seq<char>) {
    match strip_suffix_spec(member, "/*"@) {
        Some(dir) => (joined(root, dir), Seq::empty()),
        None => {
            let prefix = member.drop_last();
            match rsplit_once_spec(prefix, '/') {
                Some((dir, name)) => (joined(root, dir), name),
                None => (root, prefix),
            }
        },
    }
}

fn split_glob(root: &str, member: &str) -> (r: (String, String))
    requires
        member@.len() > 0,
    ensures
        (r.0@, r.1@) == glob_of(root@, member@),
{
    match strip_suffix(member, "/*") {
        Some(dir) => {
            let none = String::new();
            proof {
                reveal_strlit("");
                assert(none@ =~= Seq::<char>::empty());
            }
            (path_join(root, dir.as_str()), none)
        },
        None => {
            let v = to_chars(member);
            let prefix = slice(&v, 0, v.len() - 1);
            assert(prefix@ =~= member@.drop_last());
            match rsplit_once(prefix.as_str(), '/') {
                Some((dir, name)) => (path_join(root, dir.as_str()), name),
                None => (owned(root), prefix),
            }
        },
    }
}

/// The canonical form of a path, or the path itself where it has none.
pub open spec fn canonical_or_self(disk: Disk, path: Seq<char>) -> Result<Seq<char>, StopView> {
    if !disk.canonical@.contains_key(path) {
        Err(StopView::Need(QueryView::Canonical(path)))
    } else {
        match disk.canonical@[path] {
            Ok(c) => Ok(c@),
            Err(_) => Ok(path),
        }
    }
}

/// What a text or a stop is.
pub open spec fn text_stop(r: Result<String, ImportStop>) -> Result<Seq<char>, StopView> {
    match r {
        Ok(s) => Ok(s@),
        Err(stop) => Err(stop@),
    }
}

/// What texts or a stop are.
pub open spec fn texts_stop(r: Result<Vec<String>, ImportStop>) -> Result<Seq<Seq<char>>, StopView> {
    match r {
        Ok(v) => Ok(texts(v@)),
        Err(stop) => Err(stop@),
    }
}

fn canonical_or(disk: &Disk, path: &str) -> (r: Result<String, ImportStop>)
    ensures
        text_stop(r) == canonical_or_self(*disk, path@),
{
    match disk.canonical.get(path) {
        None => Err(ImportStop::Need(Query::Canonical(owned(path)))),
        Some(Ok(c)) => Ok(c.clone()),
        Some(Err(_)) => Ok(owned(path)),
    }
}

/// The canonical forms of the first `n` paths below a root.
pub open spec fn canonicals(disk: Disk, root: Seq<char>, paths: Seq<Seq<char>>, n: int) -> Result<
    Seq<Seq<char>>,
    StopView,
>
    decreases n,
{
    if n <= 0 {
        Ok(Seq::empty())
    } else {
        match canonicals(disk, root, paths, n - 1) {
            Err(stop) => Err(stop),
            Ok(before) => match canonical_or_self(disk, joined(root, paths[n - 1])) {
                Ok(c) => Ok(before.push(c)),
                Err(stop) => Err(stop),
            },
        }
    }
}

proof fn lemma_canonicals_stop(disk: Disk, root: Seq<char>, paths: Seq<Seq<char>>, a: int, b: int)
    requires
        a <= b,
        canonicals(disk, root, paths, a) is Err,
    ensures
        canonicals(disk, root, paths, b) == canonicals(disk, root, paths, a),
    decreases b,
{
    if a < b {
        lemma_canonicals_stop(disk, root, paths, a, b - 1);
    }
}

fn list_canonicals(disk: &Disk, root: &str, paths: &Vec<String>) -> (r: Result<
    Vec<String>,
    ImportStop,
>)
    ensures
        texts_stop(r) == canonicals(*disk, root@, texts(paths@), paths@.len() as int),
{
    let ghost all = texts(paths@);
    let mut out: Vec<String> = Vec::new();
    let mut i: usize = 0;
    assert(texts(out@) =~= Seq::<Seq<char>>::empty());
    while i < paths.len()
        invariant
            i <= paths@.len(),
            all == texts(paths@),
            canonicals(*disk, root@, all, i as int) == Ok::<Seq<Seq<char>>, StopView>(
                texts(out@),
            ),
        decreases paths@.len() - i,
    {
        assert(all[i as int] == paths@[i as int]@);
        match canonical_or(disk, path_join(root, paths[i].as_str()).as_str()) {
            Ok(c) => push_string(&mut out, c),
            Err(stop) => {
                proof {
                    lemma_canonicals_stop(*disk, root@, all, i as int + 1, all.len() as int);
                }
                return Err(stop);
            },
        }
        i += 1;
    }
    Ok(out)
}

/// The manifest of a directory.
pub open spec fn manifest_in(dir: Seq<char>) -> Seq<char> {
    joined(dir, "Cargo.toml"@)
}

/// Whether a directory holds a package that counts as a member.
pub open spec fn is_member_dir(disk: Disk, dir: Seq<char>, excluded: Seq<Seq<char>>) -> Result<
    bool,
    StopView,
> {
    if !disk.files@.contains_key(manifest_in(dir)) {
        Err(StopView::Need(QueryView::IsFile(manifest_in(dir))))
    } else if !disk.files@[manifest_in(dir)] {
        Ok(false)
    } else {
        match canonical_or_self(disk, dir) {
            Ok(c) => Ok(!excluded.contains(c)),
            Err(stop) => Err(stop),
        }
    }
}

fn check_member_dir(disk: &Disk, dir: &str, excluded: &Vec<String>) -> (r: Result<bool, ImportStop>)
    ensures
        (match r {
            Ok(b) => Ok::<bool, StopView>(b),
            Err(stop) => Err(stop@),
        }) == is_member_dir(*disk, dir@, texts(excluded@)),
{
    let path = path_join(dir, "Cargo.toml");
    match disk.files.get(path.as_str()) {
        None => Err(ImportStop::Need(Query::IsFile(path))),
        Some(present) => if !*present {
            Ok(false)
        } else {
            match canonical_or(disk, dir) {
                Ok(c) => Ok(!crate::text::list_contains(excluded, c.as_str())),
                Err(stop) => Err(stop),
            }
        },
    }
}

/// The members among the first `n` entries of a directory.
pub open spec fn glob_members(
    disk: Disk,
    dir: Seq<char>,
    prefix: Seq<char>,
    excluded: Seq<Seq<char>>,
    entries: Seq<DirEntry>,
    n: int,
) -> Result<Seq<Seq<char>>, StopView>
    decreases n,
{
    if n <= 0 {
        Ok(Seq::empty())
    } else {
        match glob_members(disk, dir, prefix, excluded, entries, n - 1) {
            Err(stop) => Err(stop),
            Ok(before) => {
                let entry = entries[n - 1];
                let path = joined(dir, entry.name@);
                if !starts(entry.name@, prefix) || !entry.is_dir {
                    Ok(before)
                } else {
                    match is_member_dir(disk, path, excluded) {
                        Ok(yes) => Ok(
                            if yes {
                                before.push(path)
                            } else {
                                before
                            },
                        ),
                        Err(stop) => Err(stop),
                    }
                }
            },
        }
    }
}

proof fn lemma_glob_stop(
    disk: Disk,
    dir: Seq<char>,
    prefix: Seq<char>,
    excluded: Seq<Seq<char>>,
    entries: Seq<DirEntry>,
    a: int,
    b: int,
)
    requires
        a <= b,
        glob_members(disk, dir, prefix, excluded, entries, a) is Err,
    ensures
        glob_members(disk, dir, prefix, excluded, entries, b) == glob_members(
            disk,
            dir,
            prefix,
            excluded,
            entries,
            a,
        ),
    decreases b,
{
    if a < b {
        lemma_glob_stop(disk, dir, prefix, excluded, entries, a, b - 1);
    }
}

/// The members that one entry of the members list stands for.
pub open spec fn members_of(
    disk: Disk,
    root: Seq<char>,
    member: Seq<char>,
    excluded: Seq<Seq<char>>,
) -> Result<Seq<Seq<char>>, StopView> {
    if member.len() > 0 && member.last() == '*' {
        let (dir, prefix) = glob_of(root, member);
        if !disk.listings@.contains_key(dir) {
            Err(StopView::Need(QueryView::List(dir)))
        } else {
            match disk.listings@[dir] {
                Err(why) => Err(StopView::Failed(ImportFault::Io(dir, why@))),
                Ok(entries) => match glob_members(
                    disk,
                    dir,
                    prefix,
                    excluded,
                    entries@,
                    entries@.len() as int,
                ) {
                    Err(stop) => Err(stop),
                    Ok(found) => if found.len() == 0 {
                        Err(
                            StopView::Failed(
                                ImportFault::Unsupported(
                                    "workspace member glob "@ + quoted(member)
                                        + " matched nothing"@,
                                ),
                            ),
                        )
                    } else {
                        Ok(found)
                    },
                },
            }
        }
    } else {
        let path = joined(root, member);
        if disk.files@.contains_key(manifest_in(path)) && !disk.files@[manifest_in(path)] {
            Err(
                StopView::Failed(
                    ImportFault::Unsupported(
                        "workspace member "@ + quoted(member) + " has no Cargo.toml"@,
                    ),
                ),
            )
        } else {
            match is_member_dir(disk, path, excluded) {
                Ok(yes) => Ok(
                    if yes {
                        seq![path]
                    } else {
                        Seq::empty()
                    },
                ),
                Err(stop) => Err(stop),
            }
        }
    }
}

fn expand_member(disk: &Disk, root: &str, member: &str, excluded: &Vec<String>) -> (r: Result<
    Vec<String>,
    ImportStop,
>)
    ensures
        texts_stop(r) == members_of(*disk, root@, member@, texts(excluded@)),
{
    let mut out: Vec<String> = Vec::new();
    assert(texts(out@) =~= Seq::<Seq<char>>::empty());
    let len = member.unicode_len();
    if len > 0 && member.get_char(len - 1) == '*' {
        let (dir, prefix) = split_glob(root, member);
        match disk.listings.get(dir.as_str()) {
            None => Err(ImportStop::Need(Query::List(dir))),
            Some(Err(why)) => Err(ImportStop::Failed(CargoImportError::Io(dir, why.clone()))),
            Some(Ok(entries)) => {
                let mut i: usize = 0;
                while i < entries.len()
                    invariant
                        i <= entries@.len(),
                        member@.len() > 0,
                        member@.last() == '*',
                        (dir@, prefix@) == glob_of(root@, member@),
                        disk.listings@.contains_key(dir@),
                        disk.listings@[dir@] == Ok::<Vec<DirEntry>, String>(*entries),
                        glob_members(
                            *disk,
                            dir@,
                            prefix@,
                            texts(excluded@),
                            entries@,
                            i as int,
                        ) == Ok::<Seq<Seq<char>>, StopView>(texts(out@)),
                    decreases entries@.len() - i,
                {
                    let entry = &entries[i];
                    if starts_with(entry.name.as_str(), prefix.as_str()) && entry.is_dir {
                        let path = path_join(dir.as_str(), entry.name.as_str());
                        match check_member_dir(disk, path.as_str(), excluded) {
                            Ok(yes) => {
                                if yes {
                                    push_string(&mut out, path);
                                }
                            },
                            Err(stop) => {
                                proof {
                                    lemma_glob_stop(
                                        *disk,
                                        dir@,
                                        prefix@,
                                        texts(excluded@),
                                        entries@,
                                        i as int + 1,
                                        entries@.len() as int,
                                    );
                                }
                                return Err(stop);
                            },
                        }
                    }
                    i += 1;
                }
                assert(texts(out@).len() == out@.len());
                if out.len() == 0 {
                    return Err(
                        ImportStop::Failed(
                            CargoImportError::Unsupported(
                                cat3(
                                    "workspace member glob ",
                                    quote(member).as_str(),
                                    " matched nothing",
                                ),
                            ),
                        ),
                    );
                }
                Ok(out)
            },
        }
    } else {
        let path = path_join(root, member);
        let manifest = path_join(path.as_str(), "Cargo.toml");
        if let Some(present) = disk.files.get(manifest.as_str()) {
            if !*present {
                return Err(
                    ImportStop::Failed(
                        CargoImportError::Unsupported(
                            cat3(
                                "workspace member ",
                                quote(member).as_str(),
                                " has no Cargo.toml",
                            ),
                        ),
                    ),
                );
            }
        }
        match check_member_dir(disk, path.as_str(), excluded) {
            Ok(yes) => {
                if yes {
                    push_string(&mut out, path);
                    assert(texts(out@) =~= seq![path@]);
                }
                Ok(out)
            },
            Err(stop) => Err(stop),
        }
    }
}

/// The members that the first `n` entries of a members list stand for. The root
/// itself is one where it is a package.
pub open spec fn expanded(
    disk: Disk,
    root: Seq<char>,
    root_package: bool,
    members: Seq<Seq<char>>,
    excluded: Seq<Seq<char>>,
    n: int,
) -> Result<Seq<Seq<char>>, StopView>
    decreases n,
{
    if n <= 0 {
        Ok(
            if root_package {
                seq![root]
            } else {
                Seq::empty()
            },
        )
    } else {
        match expanded(disk, root, root_package, members, excluded, n - 1) {
            Err(stop) => Err(stop),
            Ok(before) => match members_of(disk, root, members[n - 1], excluded) {
                Ok(more) => Ok(before + more),
                Err(stop) => Err(stop),
            },
        }
    }
}

proof fn lemma_expanded_stop(
    disk: Disk,
    root: Seq<char>,
    root_package: bool,
    members: Seq<Seq<char>>,
    excluded: Seq<Seq<char>>,
    a: int,
    b: int,
)
    requires
        a <= b,
        expanded(disk, root, root_package, members, excluded, a) is Err,
    ensures
        expanded(disk, root, root_package, members, excluded, b) == expanded(
            disk,
            root,
            root_package,
            members,
            excluded,
            a,
        ),
    decreases b,
{
    if a < b {
        lemma_expanded_stop(disk, root, root_package, members, excluded, a, b - 1);
    }
}

/// The directories of a members list without the excluded ones.
pub open spec fn expanded_members(
    disk: Disk,
    root: Seq<char>,
    members: Seq<Seq<char>>,
    exclude: Seq<Seq<char>>,
    root_package: bool,
) -> Result<Seq<Seq<char>>, StopView> {
    match canonicals(disk, root, exclude, exclude.len() as int) {
        Err(stop) => Err(stop),
        Ok(excluded) => expanded(
            disk,
            root,
            root_package,
            members,
            excluded,
            members.len() as int,
        ),
    }
}

/// Expands a members list into directories.
pub fn expand_members(
    disk: &Disk,
    root: &str,
    members: &Vec<String>,
    exclude: &Vec<String>,
    root_package: bool,
) -> (r: Result<Vec<String>, ImportStop>)
    ensures
        texts_stop(r) == expanded_members(
            *disk,
            root@,
            texts(members@),
            texts(exclude@),
            root_package,
        ),
{
    let excluded = match list_canonicals(disk, root, exclude) {
        Ok(v) => v,
        Err(stop) => return Err(stop),
    };
    assert(texts(exclude@).len() == exclude@.len());
    let ghost all = texts(members@);
    let mut out: Vec<String> = Vec::new();
    assert(texts(out@) =~= Seq::<Seq<char>>::empty());
    if root_package {
        push_text(&mut out, root);
        assert(texts(out@) =~= seq![root@]);
    }
    let mut i: usize = 0;
    while i < members.len()
        invariant
            i <= members@.len(),
            all == texts(members@),
            canonicals(*disk, root@, texts(exclude@), exclude@.len() as int) == Ok::<
                Seq<Seq<char>>,
                StopView,
            >(texts(excluded@)),
            texts(exclude@).len() == exclude@.len(),
            expanded(*disk, root@, root_package, all, texts(excluded@), i as int) == Ok::<
                Seq<Seq<char>>,
                StopView,
            >(texts(out@)),
        decreases members@.len() - i,
    {
        assert(all[i as int] == members@[i as int]@);
        match expand_member(disk, root, members[i].as_str(), &excluded) {
            Ok(more) => crate::text::push_all(&mut out, &more),
            Err(stop) => {
                proof {
                    lemma_expanded_stop(
                        *disk,
                        root@,
                        root_package,
                        all,
                        texts(excluded@),
                        i as int + 1,
                        all.len() as int,
                    );
                }
                return Err(stop);
            },
        }
        i += 1;
    }
    Ok(out)
}

// ---- Configuration -----------------------------------------------------------

/// rustflags may be a list or a single string.
#[derive(Debug)]
pub enum RustflagsValue {
    /// A list.
    List(Vec<String>),
    /// A single flag.
    Single(String),
}

/// The flags that a value stands for.
pub open spec fn flags_of(v: RustflagsValue) -> Seq<Seq<char>> {
    match v {
        RustflagsValue::List(items) => texts(items@),
        RustflagsValue::Single(flag) => seq![flag@],
    }
}

impl RustflagsValue {
    /// The flags as a list.
    pub fn as_vec(&self) -> (r: Vec<String>)
        ensures
            texts(r@) == flags_of(*self),
    {
        match self {
            RustflagsValue::List(items) => copy_texts(items),
            RustflagsValue::Single(flag) => {
                let mut out: Vec<String> = Vec::new();
                push_text(&mut out, flag.as_str());
                assert(texts(out@) =~= seq![flag@]);
                out
            },
        }
    }
}

/// `[build]`.
#[derive(Debug)]
pub struct CargoBuild {
    /// Flags for every compilation.
    pub rustflags: Option<RustflagsValue>,
    /// Default target triple: unsupported.
    pub target: Option<String>,
}

/// `[target.'<triple>']` or `[target.'cfg(...)']`.
#[derive(Debug)]
pub struct CargoTargetConfig {
    /// Flags for the target.
    pub rustflags: Option<RustflagsValue>,
    /// Linker override (`-C linker=<path>`).
    pub linker: Option<String>,
}

/// An `[env]` entry; `force` and `relative` change nothing here: the variable is
/// always set, to the value as declared.
#[derive(Debug)]
pub enum EnvValue {
    /// The value alone.
    Plain(String),
    /// A table.
    Table { value: String, force: Option<bool>, relative: Option<bool> },
}

/// The local Cargo configuration (subset). Settings that would alter resolution
/// or compilation but remain unsupported are targeted errors, never silently
/// ignored.
#[derive(Debug)]
pub struct CargoConfig {
    /// `[build]`.
    pub build: Option<CargoBuild>,
    /// `[env]`.
    pub env: Option<StrMap<EnvValue>>,
    /// `[target.*]` tables.
    pub target: StrMap<CargoTargetConfig>,
    /// Whether there are alternate registries: unsupported.
    pub registries: bool,
    /// Whether there are source replacements: unsupported.
    pub source: bool,
    /// Whether there is a `[net]` table: unsupported.
    pub net: bool,
    /// Whether there is an `[http]` table: unsupported.
    pub http: bool,
}

impl Default for CargoConfig {
    fn default() -> (r: CargoConfig)
        ensures
            r.build is None,
            r.env is None,
            r.target@ == Map::<Seq<char>, CargoTargetConfig>::empty(),
            !r.registries && !r.source && !r.net && !r.http,
    {
        CargoConfig {
            build: None,
            env: None,
            target: StrMap::new(),
            registries: false,
            source: false,
            net: false,
            http: false,
        }
    }
}

/// What an unsupported setting is answered.
pub open spec fn unsupported_config(config: CargoConfig) -> Option<Seq<char>> {
    if config.registries {
        Some("alternate registries in .cargo/config are not supported"@)
    } else if config.source {
        Some("source replacement in .cargo/config is not supported"@)
    } else if config.net || config.http {
        Some("[net] and [http] settings in .cargo/config are not supported"@)
    } else if config.build is Some && config.build->0.target is Some {
        Some("[build] target (a default target triple) is not supported"@)
    } else {
        None
    }
}

fn check_config(config: &CargoConfig) -> (r: Option<CargoImportError>)
    ensures
        (match r {
            Some(e) => Some(e@),
            None => None,
        }) == (match unsupported_config(*config) {
            Some(message) => Some(ImportFault::Unsupported(message)),
            None => None,
        }),
{
    if config.registries {
        return Some(
            CargoImportError::Unsupported(
                owned("alternate registries in .cargo/config are not supported"),
            ),
        );
    }
    if config.source {
        return Some(
            CargoImportError::Unsupported(
                owned("source replacement in .cargo/config is not supported"),
            ),
        );
    }
    if config.net || config.http {
        return Some(
            CargoImportError::Unsupported(
                owned("[net] and [http] settings in .cargo/config are not supported"),
            ),
        );
    }
    if let Some(build) = &config.build {
        if build.target.is_some() {
            return Some(
                CargoImportError::Unsupported(
                    owned("[build] target (a default target triple) is not supported"),
                ),
            );
        }
    }
    None
}

/// Whether a target key (`cfg(...)` expression or literal triple) matches the
/// host triple.
pub open spec fn key_matches(disk: Disk, key: Seq<char>, host: Seq<char>, what: Seq<char>) -> Result<
    bool,
    StopView,
> {
    if is_cfg(key) {
        if !disk.knows(QueryView::Cfg { key, triple: host }) {
            Err(StopView::Need(QueryView::Cfg { key, triple: host }))
        } else {
            match disk.cfgs@[host]@[key] {
                Ok(b) => Ok(b),
                Err(why) => Err(
                    StopView::Failed(ImportFault::Unsupported(what + ": "@ + why@)),
                ),
            }
        }
    } else if key.contains('-') {
        Ok(key == host)
    } else {
        Err(
            StopView::Failed(
                ImportFault::Unsupported(what + ": unsupported target key "@ + quoted(key)),
            ),
        )
    }
}

/// Whether a target key matches the host triple; a literal triple matches only
/// the host.
pub fn target_matches(disk: &Disk, key: &str, host_triple: &str, what: &str) -> (r: Result<
    bool,
    ImportStop,
>)
    ensures
        (match r {
            Ok(b) => Ok::<bool, StopView>(b),
            Err(stop) => Err(stop@),
        }) == key_matches(*disk, key@, host_triple@, what@),
{
    if starts_with(trim_start(key).as_str(), "cfg(") {
        let found: Option<&Result<bool, String>> = match disk.cfgs.get(host_triple) {
            Some(known) => known.get(key),
            None => None,
        };
        match found {
            None => Err(
                ImportStop::Need(Query::Cfg { key: owned(key), triple: owned(host_triple) }),
            ),
            Some(Ok(b)) => Ok(*b),
            Some(Err(why)) => Err(
                ImportStop::Failed(CargoImportError::Unsupported(cat3(what, ": ", why.as_str()))),
            ),
        }
    } else if has_char(key, '-') {
        Ok(same(key, host_triple))
    } else {
        Err(
            ImportStop::Failed(
                CargoImportError::Unsupported(
                    cat3(what, ": unsupported target key ", quote(key).as_str()),
                ),
            ),
        )
    }
}

/// The flags before target tables count: `[build]` overrides the encoded ones.
pub open spec fn base_flags(config: CargoConfig, encoded: Option<&str>) -> Seq<Seq<char>> {
    if config.build is Some && config.build->0.rustflags is Some {
        flags_of(config.build->0.rustflags->0)
    } else {
        match encoded {
            Some(text) => split_spec(text@, ' '),
            None => Seq::empty(),
        }
    }
}

/// The flags after the first `n` target tables: each that matches the host
/// overrides the flags so far, and its linker comes on top.
pub open spec fn flags_upto(disk: Disk, config: CargoConfig, host: Seq<char>, encoded: Option<&str>, n: int) -> Result<
    Seq<Seq<char>>,
    StopView,
>
    decreases n,
{
    if n <= 0 {
        Ok(base_flags(config, encoded))
    } else {
        match flags_upto(disk, config, host, encoded, n - 1) {
            Err(stop) => Err(stop),
            Ok(before) => {
                let key = config.target.keys()[n - 1];
                let table = config.target.values()[n - 1];
                match key_matches(disk, key, host, "target config "@ + quoted(key)) {
                    Err(stop) => Err(stop),
                    Ok(matching) => if !matching {
                        Ok(before)
                    } else {
                        let flags = match table.rustflags {
                            Some(v) => flags_of(v),
                            None => before,
                        };
                        Ok(
                            match table.linker {
                                Some(linker) => flags.push("-C"@).push("linker="@ + linker@),
                                None => flags,
                            },
                        )
                    },
                }
            },
        }
    }
}

proof fn lemma_flags_stop(
    disk: Disk,
    config: CargoConfig,
    host: Seq<char>,
    encoded: Option<&str>,
    a: int,
    b: int,
)
    requires
        a <= b,
        flags_upto(disk, config, host, encoded, a) is Err,
    ensures
        flags_upto(disk, config, host, encoded, b) == flags_upto(disk, config, host, encoded, a),
    decreases b,
{
    if a < b {
        lemma_flags_stop(disk, config, host, encoded, a, b - 1);
    }
}

/// The workspace-wide rustc flags, with Cargo's precedence.
pub fn config_rustflags(disk: &Disk, config: &CargoConfig, host_triple: &str, encoded: Option<&str>) -> (r: Result<
    Vec<String>,
    ImportStop,
>)
    ensures
        texts_stop(r) == flags_upto(
            *disk,
            *config,
            host_triple@,
            encoded,
            config.target.keys().len() as int,
        ),
{
    let mut flags: Vec<String> = match encoded {
        Some(text) => split(text, ' '),
        None => Vec::new(),
    };
    proof {
        if encoded is None {
            assert(texts(flags@) =~= Seq::<Seq<char>>::empty());
        }
    }
    if let Some(build) = &config.build {
        if let Some(v) = &build.rustflags {
            flags = v.as_vec();
        }
    }
    let n = config.target.len();
    let mut i: usize = 0;
    while i < n
        invariant
            i <= n,
            n == config.target.keys().len(),
            n == config.target.values().len(),
            flags_upto(*disk, *config, host_triple@, encoded, i as int) == Ok::<
                Seq<Seq<char>>,
                StopView,
            >(texts(flags@)),
        decreases n - i,
    {
        let key = config.target.key(i).as_str();
        let table = config.target.value(i);
        let what = cat("target config ", quote(key).as_str());
        match target_matches(disk, key, host_triple, what.as_str()) {
            Err(stop) => {
                proof {
                    lemma_flags_stop(
                        *disk,
                        *config,
                        host_triple@,
                        encoded,
                        i as int + 1,
                        n as int,
                    );
                }
                return Err(stop);
            },
            Ok(matching) => {
                if matching {
                    if let Some(v) = &table.rustflags {
                        flags = v.as_vec();
                    }
                    if let Some(linker) = &table.linker {
                        push_text(&mut flags, "-C");
                        push_string(&mut flags, cat("linker=", linker.as_str()));
                    }
                }
            },
        }
        i += 1;
    }
    Ok(flags)
}

/// The value of an `[env]` entry.
pub open spec fn env_value(v: EnvValue) -> Seq<char> {
    match v {
        EnvValue::Plain(s) => s@,
        EnvValue::Table { value, .. } => value@,
    }
}

/// The workspace-wide environment.
pub open spec fn config_env_of(config: CargoConfig) -> Map<Seq<char>, Seq<char>> {
    match config.env {
        Some(env) => env@.map_values(|v: EnvValue| env_value(v)),
        None => Map::empty(),
    }
}

/// Reads the workspace-wide environment.
pub fn config_env(config: &CargoConfig) -> (r: StrMap<String>)
    ensures
        crate::model::env_view(r@) == config_env_of(*config),
{
    let mut out: StrMap<String> = StrMap::new();
    if let Some(env) = &config.env {
        let n = env.len();
        let mut i: usize = 0;
        while i < n
            invariant
                i <= n,
                n == env.keys().len(),
                n == env.values().len(),
                env.keys().no_duplicates(),
                forall|k: Seq<char>| #[trigger]
                    out@.contains_key(k) <==> exists|j: int|
                        0 <= j < i && #[trigger] env.keys()[j] == k,
                forall|j: int|
                    0 <= j < i ==> out@[#[trigger] env.keys()[j]]@ == env_value(env.values()[j]),
            decreases n - i,
        {
            let ghost before = out@;
            let value = match env.value(i) {
                EnvValue::Plain(v) => v.clone(),
                EnvValue::Table { value, .. } => value.clone(),
            };
            out.insert(env.key(i).clone(), value);
            proof {
                assert forall|k: Seq<char>| #[trigger]
                    out@.contains_key(k) <==> exists|j: int|
                    0 <= j < i + 1 && #[trigger] env.keys()[j] == k by {
                    if before.contains_key(k) {
                        let j = choose|j: int| 0 <= j < i && #[trigger] env.keys()[j] == k;
                        assert(0 <= j < i + 1 && env.keys()[j] == k);
                    }
                    assert(env.keys()[i as int] == env.keys()[i as int]);
                }
                assert forall|j: int| 0 <= j < i + 1 implies out@[#[trigger] env.keys()[j]]@
                    == env_value(env.values()[j]) by {
                    if j < i {
                        assert(env.keys()[j] != env.keys()[i as int]);
                    }
                }
            }
            i += 1;
        }
        proof {
            let a = crate::model::env_view(out@);
            let b = config_env_of(*config);
            assert(a.dom() =~= b.dom());
            assert forall|k: Seq<char>| b.dom().contains(k) implies a[k] == b[k] by {
                let j = choose|j: int| 0 <= j < env.keys().len() && env.keys()[j] == k;
                assert(env@.contains_key(env.keys()[j]));
                assert(out@[env.keys()[j]]@ == env_value(env.values()[j]));
            }
            assert(a =~= b);
        }
    } else {
        assert(crate::model::env_view(out@) =~= Map::<Seq<char>, Seq<char>>::empty());
    }
    out
}

// ---- The workspace -----------------------------------------------------------

/// The order of sources: members first, then paths, registries and Git.
pub open spec fn source_lt(a: SourceView, b: SourceView) -> bool {
    match (a, b) {
        (SourceView::Workspace(x), SourceView::Workspace(y)) => lt(x, y),
        (SourceView::Workspace(_), _) => true,
        (SourceView::Path(x), SourceView::Path(y)) => lt(x, y),
        (SourceView::Path(_), SourceView::Workspace(_)) => false,
        (SourceView::Path(_), _) => true,
        (SourceView::Registry(x), SourceView::Registry(y)) => lt(x, y),
        (SourceView::Registry(_), SourceView::Git { .. }) => true,
        (SourceView::Registry(_), _) => false,
        (SourceView::Git { url: x, rev: p }, SourceView::Git { url: y, rev: q }) => lt(x, y) || (x
            == y && lt(p, q)),
        (SourceView::Git { .. }, _) => false,
    }
}

/// The order of identities: by name, then by version, then by source.
pub open spec fn id_lt(a: PackageIdView, b: PackageIdView) -> bool {
    ||| lt(a.name, b.name)
    ||| a.name == b.name && semver_before(version_text(a.version), version_text(b.version)) == Some(
        true,
    )
    ||| a.name == b.name && a.version == b.version && source_lt(a.source, b.source)
}

fn source_less(a: &SourceId, b: &SourceId) -> (r: bool)
    ensures
        r == source_lt(a@, b@),
{
    match (a, b) {
        (SourceId::Workspace(x), SourceId::Workspace(y)) => less(x.as_str(), y.as_str()),
        (SourceId::Workspace(_), _) => true,
        (SourceId::Path(x), SourceId::Path(y)) => less(x.as_str(), y.as_str()),
        (SourceId::Path(_), SourceId::Workspace(_)) => false,
        (SourceId::Path(_), _) => true,
        (SourceId::Registry(x), SourceId::Registry(y)) => less(x.as_str(), y.as_str()),
        (SourceId::Registry(_), SourceId::Git { .. }) => true,
        (SourceId::Registry(_), _) => false,
        (SourceId::Git { url: x, rev: p }, SourceId::Git { url: y, rev: q }) => less(
            x.as_str(),
            y.as_str(),
        ) || (same(x.as_str(), y.as_str()) && less(p.as_str(), q.as_str())),
        (SourceId::Git { .. }, _) => false,
    }
}

/// Whether one identity comes before another.
pub fn id_less(a: &PackageId, b: &PackageId) -> (r: bool)
    ensures
        r == id_lt(a@, b@),
{
    if less(a.name.as_str(), b.name.as_str()) {
        return true;
    }
    if !same(a.name.as_str(), b.name.as_str()) {
        return false;
    }
    if let Some(true) = a.version.precedes(&b.version) {
        return true;
    }
    a.version.same(&b.version) && source_less(&a.source, &b.source)
}

/// What identities are.
pub open spec fn ids_view(v: Seq<PackageId>) -> Seq<PackageIdView> {
    v.map_values(|id: PackageId| id@)
}

/// Where an identity belongs among ordered ones: before the first that it comes
/// before.
pub open spec fn id_place(ids: Seq<PackageIdView>, id: PackageIdView, from: int) -> int
    decreases ids.len() - from,
{
    if from < 0 || from >= ids.len() || id_lt(id, ids[from]) {
        from
    } else {
        id_place(ids, id, from + 1)
    }
}

/// The identities in order.
pub open spec fn sorted_ids(ids: Seq<PackageIdView>) -> Seq<PackageIdView>
    decreases ids.len(),
{
    if ids.len() == 0 {
        Seq::empty()
    } else {
        let before = sorted_ids(ids.drop_last());
        before.insert(id_place(before, ids.last(), 0), ids.last())
    }
}

pub(crate) fn sort_ids(ids: &Vec<PackageId>) -> (r: Vec<PackageId>)
    ensures
        ids_view(r@) == sorted_ids(ids_view(ids@)),
{
    let ghost all = ids_view(ids@);
    let mut out: Vec<PackageId> = Vec::new();
    let mut i: usize = 0;
    assert(ids_view(out@) =~= sorted_ids(all.take(0)));
    while i < ids.len()
        invariant
            i <= ids@.len(),
            all == ids_view(ids@),
            ids_view(out@) == sorted_ids(all.take(i as int)),
        decreases ids@.len() - i,
    {
        let ghost before = out@;
        let ghost bv = ids_view(before);
        let mut at: usize = 0;
        while at < out.len() && !id_less(&ids[i], &out[at])
            invariant
                at <= out@.len(),
                i < ids@.len(),
                bv == ids_view(out@),
                id_place(bv, ids@[i as int]@, 0) == id_place(bv, ids@[i as int]@, at as int),
            decreases out@.len() - at,
        {
            assert(bv[at as int] == out@[at as int]@);
            at += 1;
        }
        if at < out.len() {
            assert(bv[at as int] == out@[at as int]@);
        }
        out.insert(at, ids[i].clone());
        proof {
            assert(ids_view(out@) =~= bv.insert(at as int, ids@[i as int]@));
            let t = all.take(i as int + 1);
            assert(t.drop_last() =~= all.take(i as int));
            assert(t.last() == ids@[i as int]@);
        }
        i += 1;
    }
    assert(all.take(all.len() as int) =~= all);
    out
}

/// Sorting keeps the identities.
pub proof fn sorting_keeps_identities(ids: Seq<PackageIdView>)
    ensures
        sorted_ids(ids).to_multiset() == ids.to_multiset(),
    decreases ids.len(),
{
    if ids.len() > 0 {
        let before = sorted_ids(ids.drop_last());
        sorting_keeps_identities(ids.drop_last());
        lemma_id_place(before, ids.last(), 0);
        before.insert_ensures(id_place(before, ids.last(), 0), ids.last());
        before.to_multiset_ensures();
        vstd::seq_lib::to_multiset_insert(
            before,
            id_place(before, ids.last(), 0),
            ids.last(),
        );
        assert(ids =~= ids.drop_last().push(ids.last()));
        vstd::seq_lib::to_multiset_build(ids.drop_last(), ids.last());
    } else {
        assert(ids =~= Seq::<PackageIdView>::empty());
    }
}

proof fn lemma_id_place(ids: Seq<PackageIdView>, id: PackageIdView, from: int)
    requires
        0 <= from <= ids.len(),
    ensures
        from <= id_place(ids, id, from) <= ids.len(),
    decreases ids.len() - from,
{
    if from < ids.len() && !id_lt(id, ids[from]) {
        lemma_id_place(ids, id, from + 1);
    }
}

/// Whether a patch source is the default registry.
pub open spec fn known_source(source: Seq<char>) -> bool {
    source == "crates-io"@ || starts(source, "registry+"@)
}

/// The first patch source, from a position on, that is not the default registry.
pub open spec fn alien_source(keys: Seq<Seq<char>>, from: int) -> Option<Seq<char>>
    decreases keys.len() - from,
{
    if from < 0 || from >= keys.len() {
        None
    } else if known_source(keys[from]) {
        alien_source(keys, from + 1)
    } else {
        Some(keys[from])
    }
}

fn find_alien(manifest: &CargoManifest) -> (r: Option<&String>)
    ensures
        (match r {
            Some(s) => Some(s@),
            None => None,
        }) == alien_source(manifest.patch.keys(), 0),
{
    let n = manifest.patch.len();
    let mut i: usize = 0;
    while i < n
        invariant
            i <= n,
            n == manifest.patch.keys().len(),
            alien_source(manifest.patch.keys(), 0) == alien_source(
                manifest.patch.keys(),
                i as int,
            ),
        decreases n - i,
    {
        let source = manifest.patch.key(i);
        if !same(source.as_str(), "crates-io") && !starts_with(source.as_str(), "registry+") {
            return Some(source);
        }
        i += 1;
    }
    None
}

/// The resolver of a workspace: an explicit one on the workspace or the root
/// package wins; otherwise the root package's edition picks the default.
/// Resolver 1 is deliberately unsupported.
pub open spec fn root_resolver(manifest: CargoManifest, root: Seq<char>) -> Result<
    ResolverVersion,
    ImportFault,
> {
    let fields = match manifest.workspace {
        Some(w) => w.package,
        None => None,
    };
    let edition = match manifest.package {
        Some(p) => resolved_field(p.edition, fields, p.name@, "edition"@, root, "2015"@),
        None => Ok("2015"@),
    };
    let explicit = match manifest.workspace {
        Some(w) => crate::text::opt_view(w.resolver),
        None => None,
    };
    let text = if explicit is Some {
        explicit
    } else {
        match manifest.package {
            Some(p) => crate::text::opt_view(p.resolver),
            None => None,
        }
    };
    match edition {
        Err(fault) => Err(fault),
        Ok(e) => match edition_of(e) {
            Err(fault) => Err(fault),
            Ok(year) => match selected_resolver(text, year) {
                Err(message) => Err(ImportFault::Unsupported(message)),
                Ok(ResolverVersion::V1) => Err(
                    ImportFault::Unsupported(
                        "resolver 1 is not supported; set workspace.resolver = \"2\""@,
                    ),
                ),
                Ok(version) => Ok(version),
            },
        },
    }
}

fn select_resolver(manifest: &CargoManifest, root: &str) -> (r: Result<
    ResolverVersion,
    CargoImportError,
>)
    ensures
        (match r {
            Ok(v) => Ok::<ResolverVersion, ImportFault>(v),
            Err(e) => Err(e@),
        }) == root_resolver(*manifest, root@),
{
    let none: Option<CargoWorkspacePackage> = None;
    let fields: &Option<CargoWorkspacePackage> = match &manifest.workspace {
        Some(w) => &w.package,
        None => &none,
    };
    let edition = match &manifest.package {
        Some(p) => match resolve_field(
            &p.edition,
            fields,
            p.name.as_str(),
            "edition",
            root,
            "2015",
        ) {
            Ok(e) => e,
            Err(e) => return Err(e),
        },
        None => owned("2015"),
    };
    let mut text: Option<&str> = None;
    if let Some(w) = &manifest.workspace {
        if let Some(t) = &w.resolver {
            text = Some(t.as_str());
        }
    }
    if text.is_none() {
        if let Some(p) = &manifest.package {
            if let Some(t) = &p.resolver {
                text = Some(t.as_str());
            }
        }
    }
    let year = match parse_edition(edition.as_str()) {
        Ok(y) => y,
        Err(e) => return Err(e),
    };
    match ResolverVersion::from_manifest(text, year) {
        Err(message) => Err(CargoImportError::Unsupported(message)),
        Ok(ResolverVersion::V1) => Err(
            CargoImportError::Unsupported(
                owned("resolver 1 is not supported; set workspace.resolver = \"2\""),
            ),
        ),
        Ok(version) => Ok(version),
    }
}

/// The member directories of a workspace.
pub open spec fn member_dirs(disk: Disk, manifest: CargoManifest, root: Seq<char>) -> Result<
    Seq<Seq<char>>,
    StopView,
> {
    if manifest.workspace is Some && manifest.workspace->0.members@.len() > 0 {
        let w = manifest.workspace->0;
        expanded_members(
            disk,
            root,
            texts(w.members@),
            texts(w.exclude@),
            manifest.package is Some,
        )
    } else if manifest.package is Some {
        Ok(seq![root])
    } else {
        Err(
            StopView::Failed(
                ImportFault::Unsupported(
                    "Cargo.toml with neither [package] nor [workspace] members"@,
                ),
            ),
        )
    }
}

/// The directories of the members built by default; none: every member.
pub open spec fn default_dirs(disk: Disk, manifest: CargoManifest, root: Seq<char>) -> Result<
    Seq<Seq<char>>,
    StopView,
> {
    if manifest.workspace is Some && manifest.workspace->0.default_members@.len() > 0 {
        let w = manifest.workspace->0;
        expanded_members(
            disk,
            root,
            texts(w.default_members@),
            texts(w.exclude@),
            manifest.package is Some,
        )
    } else {
        Ok(Seq::empty())
    }
}

fn list_members(disk: &Disk, manifest: &CargoManifest, root: &str) -> (r: Result<
    Vec<String>,
    ImportStop,
>)
    ensures
        texts_stop(r) == member_dirs(*disk, *manifest, root@),
{
    if let Some(w) = &manifest.workspace {
        if w.members.len() > 0 {
            return expand_members(
                disk,
                root,
                &w.members,
                &w.exclude,
                manifest.package.is_some(),
            );
        }
    }
    if manifest.package.is_some() {
        let mut out: Vec<String> = Vec::new();
        push_text(&mut out, root);
        assert(texts(out@) =~= seq![root@]);
        return Ok(out);
    }
    Err(
        ImportStop::Failed(
            CargoImportError::Unsupported(
                owned("Cargo.toml with neither [package] nor [workspace] members"),
            ),
        ),
    )
}

fn list_defaults(disk: &Disk, manifest: &CargoManifest, root: &str) -> (r: Result<
    Vec<String>,
    ImportStop,
>)
    ensures
        texts_stop(r) == default_dirs(*disk, *manifest, root@),
{
    if let Some(w) = &manifest.workspace {
        if w.default_members.len() > 0 {
            return expand_members(
                disk,
                root,
                &w.default_members,
                &w.exclude,
                manifest.package.is_some(),
            );
        }
    }
    let out: Vec<String> = Vec::new();
    assert(texts(out@) =~= Seq::<Seq<char>>::empty());
    Ok(out)
}

/// The canonical forms of the first `n` directories.
pub open spec fn canonical_dirs(disk: Disk, dirs: Seq<Seq<char>>, n: int) -> Result<
    Seq<Seq<char>>,
    StopView,
>
    decreases n,
{
    if n <= 0 {
        Ok(Seq::empty())
    } else {
        match canonical_dirs(disk, dirs, n - 1) {
            Err(stop) => Err(stop),
            Ok(before) => match canonical_or_self(disk, dirs[n - 1]) {
                Ok(c) => Ok(before.push(c)),
                Err(stop) => Err(stop),
            },
        }
    }
}

proof fn lemma_canonical_dirs_stop(disk: Disk, dirs: Seq<Seq<char>>, a: int, b: int)
    requires
        a <= b,
        canonical_dirs(disk, dirs, a) is Err,
    ensures
        canonical_dirs(disk, dirs, b) == canonical_dirs(disk, dirs, a),
    decreases b,
{
    if a < b {
        lemma_canonical_dirs_stop(disk, dirs, a, b - 1);
    }
}

fn list_canonical_dirs(disk: &Disk, dirs: &Vec<String>) -> (r: Result<Vec<String>, ImportStop>)
    ensures
        texts_stop(r) == canonical_dirs(*disk, texts(dirs@), dirs@.len() as int),
{
    let ghost all = texts(dirs@);
    let mut out: Vec<String> = Vec::new();
    let mut i: usize = 0;
    assert(texts(out@) =~= Seq::<Seq<char>>::empty());
    while i < dirs.len()
        invariant
            i <= dirs@.len(),
            all == texts(dirs@),
            canonical_dirs(*disk, all, i as int) == Ok::<Seq<Seq<char>>, StopView>(texts(out@)),
        decreases dirs@.len() - i,
    {
        assert(all[i as int] == dirs@[i as int]@);
        match canonical_or(disk, dirs[i].as_str()) {
            Ok(c) => push_string(&mut out, c),
            Err(stop) => {
                proof {
                    lemma_canonical_dirs_stop(*disk, all, i as int + 1, all.len() as int);
                }
                return Err(stop);
            },
        }
        i += 1;
    }
    Ok(out)
}

/// The package among the first `n` that declares this `links` value.
pub open spec fn links_owner(packages: Seq<PackageView>, links: Seq<char>, n: int) -> Option<int>
    decreases n,
{
    if n <= 0 {
        None
    } else if packages[n - 1].links == Some(links) {
        Some(n - 1)
    } else {
        links_owner(packages, links, n - 1)
    }
}

/// Whether a package among the first `n` declares a `links` value that an
/// earlier one has: Cargo allows at most one package per value.
pub open spec fn links_fault(packages: Seq<PackageView>, n: int) -> Option<ImportFault>
    decreases n,
{
    if n <= 0 {
        None
    } else {
        let before = links_fault(packages, n - 1);
        let p = packages[n - 1];
        if before is Some || p.links is None {
            before
        } else {
            match links_owner(packages, p.links->0, n - 1) {
                None => None,
                Some(k) => Some(
                    ImportFault::Unsupported(
                        "the `links` key "@ + quoted(p.links->0) + " is declared by both "@
                            + packages[k].name + " and "@ + p.name
                            + "; Cargo requires exactly one package per links value"@,
                    ),
                ),
            }
        }
    }
}

/// What packages are.
pub open spec fn package_list(v: Seq<Package>) -> Seq<PackageView> {
    v.map_values(|p: Package| p@)
}

fn check_links(packages: &Vec<Package>) -> (r: Option<CargoImportError>)
    ensures
        (match r {
            Some(e) => Some(e@),
            None => None,
        }) == links_fault(package_list(packages@), packages@.len() as int),
{
    let ghost all = package_list(packages@);
    let mut i: usize = 0;
    while i < packages.len()
        invariant
            i <= packages@.len(),
            all == package_list(packages@),
            links_fault(all, i as int) is None,
        decreases packages@.len() - i,
    {
        assert(all[i as int] == packages@[i as int]@);
        if let Some(links) = &packages[i].links {
            let mut k: usize = i;
            while k > 0
                invariant
                    k <= i,
                    i < packages@.len(),
                    all == package_list(packages@),
                    all[i as int] == packages@[i as int]@,
                    packages@[i as int].links == Some(*links),
                    links_fault(all, i as int) is None,
                    links_owner(all, links@, i as int) == links_owner(all, links@, k as int),
                decreases k,
            {
                k -= 1;
                assert(all[k as int] == packages@[k as int]@);
                if let Some(other) = &packages[k].links {
                    if same(other.as_str(), links.as_str()) {
                        proof {
                            lemma_links_stop(all, i as int + 1, all.len() as int);
                        }
                        let mut message = cat5(
                            "the `links` key ",
                            quote(links.as_str()).as_str(),
                            " is declared by both ",
                            packages[k].name.as_str(),
                            " and ",
                        );
                        message.append(packages[i].name.as_str());
                        message.append("; Cargo requires exactly one package per links value");
                        return Some(CargoImportError::Unsupported(message));
                    }
                }
            }
        }
        i += 1;
    }
    None
}

proof fn lemma_links_stop(packages: Seq<PackageView>, a: int, b: int)
    requires
        a <= b,
        links_fault(packages, a) is Some,
    ensures
        links_fault(packages, b) == links_fault(packages, a),
    decreases b,
{
    if a < b {
        lemma_links_stop(packages, a, b - 1);
    }
}

/// No two packages of a model that passed share a `links` value.
pub proof fn links_values_are_unique(packages: Seq<PackageView>, i: int, j: int)
    requires
        links_fault(packages, packages.len() as int) is None,
        0 <= i < j < packages.len(),
        packages[i].links is Some,
    ensures
        packages[i].links != packages[j].links,
{
    lemma_links_unique(packages, packages.len() as int, i, j);
}

proof fn lemma_links_unique(packages: Seq<PackageView>, n: int, i: int, j: int)
    requires
        links_fault(packages, n) is None,
        0 <= i < j < n <= packages.len(),
        packages[i].links is Some,
    ensures
        packages[i].links != packages[j].links,
    decreases n,
{
    if links_fault(packages, n - 1) is Some {
        assert(false);
    }
    if j < n - 1 {
        lemma_links_unique(packages, n - 1, i, j);
    } else if packages[i].links == packages[j].links {
        lemma_links_owner(packages, packages[j].links->0, j, i);
    }
}

proof fn lemma_links_owner(packages: Seq<PackageView>, links: Seq<char>, n: int, i: int)
    requires
        0 <= i < n <= packages.len(),
        packages[i].links == Some(links),
    ensures
        links_owner(packages, links, n) is Some,
    decreases n,
{
    if packages[n - 1].links != Some(links) {
        lemma_links_owner(packages, links, n - 1, i);
    }
}

/// The identities of the packages among the first `n` that lie in one of these
/// directories.
pub open spec fn ids_in(packages: Seq<PackageView>, dirs: Seq<Seq<char>>, n: int) -> Seq<
    PackageIdView,
>
    decreases n,
{
    if n <= 0 {
        Seq::empty()
    } else {
        let before = ids_in(packages, dirs, n - 1);
        if dirs.contains(packages[n - 1].dir) {
            before.push(packages[n - 1].id)
        } else {
            before
        }
    }
}

fn list_ids_in(packages: &Vec<Package>, dirs: &Vec<String>) -> (r: Vec<PackageId>)
    ensures
        ids_view(r@) == ids_in(package_list(packages@), texts(dirs@), packages@.len() as int),
{
    let ghost all = package_list(packages@);
    let mut out: Vec<PackageId> = Vec::new();
    let mut i: usize = 0;
    assert(ids_view(out@) =~= Seq::<PackageIdView>::empty());
    while i < packages.len()
        invariant
            i <= packages@.len(),
            all == package_list(packages@),
            ids_view(out@) == ids_in(all, texts(dirs@), i as int),
        decreases packages@.len() - i,
    {
        assert(all[i as int] == packages@[i as int]@);
        let ghost before = out@;
        if crate::text::list_contains(dirs, packages[i].dir.as_str()) {
            out.push(packages[i].id.clone());
            assert(ids_view(out@) =~= ids_view(before).push(packages@[i as int].id@));
        }
        i += 1;
    }
    out
}

/// The profiles of a workspace: those of its tables, and the two built-in ones
/// where there is no table for them.
pub open spec fn all_profiles(tables: StrMap<ProfileTable>) -> Map<Seq<char>, ProfileView> {
    Map::new(
        |name: Seq<char>| tables@.contains_key(name) || name == "dev"@ || name == "release"@,
        |name: Seq<char>|
            if tables@.contains_key(name) {
                profile_of(tables, name)->Ok_0
            } else if name == "dev"@ {
                dev_profile()
            } else {
                release_profile()
            },
    )
}

/// The per-package profiles of a workspace.
pub open spec fn all_overrides(tables: StrMap<ProfileTable>) -> Map<
    Seq<char>,
    Map<Seq<char>, ProfileView>,
> {
    Map::new(
        |name: Seq<char>| tables@.contains_key(name) && has_overrides(tables@[name]),
        |name: Seq<char>|
            {
                let base = base_profile(tables, name, tables.keys().len())->Ok_0;
                let package = tables@[name].package->0;
                Map::new(
                    |spec_name: Seq<char>| package@.contains_key(spec_name),
                    |spec_name: Seq<char>|
                        override_of(package@[spec_name], base, name, spec_name)->Ok_0,
                )
            },
    )
}

/// What profiles are.
pub open spec fn profiles_view(m: Map<Seq<char>, ProfileSpec>) -> Map<Seq<char>, ProfileView> {
    m.map_values(|p: ProfileSpec| p@)
}

/// What per-package profiles are.
pub open spec fn overrides_view(m: Map<Seq<char>, StrMap<ProfileSpec>>) -> Map<
    Seq<char>,
    Map<Seq<char>, ProfileView>,
> {
    m.map_values(|o: StrMap<ProfileSpec>| profiles_view(o@))
}

fn import_profiles(tables: &StrMap<ProfileTable>) -> (r: Result<
    (StrMap<ProfileSpec>, StrMap<StrMap<ProfileSpec>>),
    CargoImportError,
>)
    requires
        chains_end(*tables),
    ensures
        match profiles_fault(*tables, tables.keys().len() as int) {
            Some(message) => r is Err && r->Err_0@ == ImportFault::Unsupported(message),
            None => r is Ok && profiles_view(r->Ok_0.0@) == all_profiles(*tables)
                && overrides_view(r->Ok_0.1@) == all_overrides(*tables),
        },
{
    match resolve_profiles(tables) {
        Err(message) => Err(CargoImportError::Unsupported(message)),
        Ok((profiles, overrides)) => {
            let mut out = profiles;
            proof {
                reveal_strlit("dev");
                reveal_strlit("release");
                assert("dev"@.len() != "release"@.len());
            }
            if !out.contains_key("dev") {
                out.insert(owned("dev"), ProfileSpec::dev());
            }
            if !out.contains_key("release") {
                out.insert(owned("release"), ProfileSpec::release());
            }
            proof {
                assert(profiles_view(out@) =~= all_profiles(*tables));
                let got = overrides_view(overrides@);
                let want = all_overrides(*tables);
                assert(got.dom() =~= want.dom());
                assert forall|name: Seq<char>| want.dom().contains(name) implies got[name]
                    == want[name] by {
                    assert(overrides@.contains_key(name));
                    let base = base_profile(*tables, name, tables.keys().len())->Ok_0;
                    let package = tables@[name].package->0;
                    assert(overrides_are(overrides@[name], tables@[name], base, name));
                    assert(got[name].dom() =~= want[name].dom());
                    assert forall|p: Seq<char>| package@.contains_key(p) implies got[name][p]
                        == want[name][p] by {
                        assert(overrides@[name]@.dom().contains(p));
                    }
                    assert(got[name] =~= want[name]);
                }
                assert(got =~= want);
            }
            Ok((out, overrides))
        },
    }
}

/// What an imported workspace is.
pub struct WorkspaceView {
    pub packages: Seq<PackageView>,
    pub members: Seq<PackageIdView>,
    pub default_members: Seq<PackageIdView>,
    pub profiles: Map<Seq<char>, ProfileView>,
    pub package_profiles: Map<Seq<char>, Map<Seq<char>, ProfileView>>,
    pub global_rustflags: Seq<Seq<char>>,
    pub global_env: Map<Seq<char>, Seq<char>>,
    pub resolver: ResolverVersion,
}

/// What the import of a workspace depends on besides its disk.
pub struct WorkspaceInputs<'a> {
    /// The workspace root.
    pub root: &'a str,
    /// The rustc host triple; it is the only context that target keys of the
    /// configuration are evaluated in.
    pub host_triple: &'a str,
    /// The answers to the registry edges, in the order they are asked for.
    pub answers: &'a Vec<LockAnswer>,
    /// Whether unresolved edges are kept as provisional ones.
    pub collecting: bool,
    /// The flags of the environment.
    pub encoded_rustflags: Option<&'a str>,
    /// The local Cargo configuration.
    pub config: &'a CargoConfig,
}

/// The packages of an import.
pub open spec fn packages_of(st: ImportView) -> Seq<PackageView> {
    st.packages.map_values(|e: (Seq<char>, PackageView)| e.1)
}

/// The import of a workspace whose members are known.
pub open spec fn workspace_of(
    disk: Disk,
    inputs: WorkspaceInputs<'_>,
    manifest: CargoManifest,
    resolver: ResolverVersion,
    members: Seq<Seq<char>>,
    defaults: Seq<Seq<char>>,
    st: ImportView,
    ids: Seq<PackageIdView>,
) -> Result<WorkspaceView, StopView> {
    let packages = packages_of(st);
    let tables = manifest.profile;
    match (
        links_fault(packages, packages.len() as int),
        canonical_dirs(disk, defaults, defaults.len() as int),
        profiles_fault(tables, tables.keys().len() as int),
        unsupported_config(*inputs.config),
        flags_upto(
            disk,
            *inputs.config,
            inputs.host_triple@,
            inputs.encoded_rustflags,
            inputs.config.target.keys().len() as int,
        ),
    ) {
        (Some(fault), _, _, _, _) => Err(StopView::Failed(fault)),
        (_, Err(stop), _, _, _) => Err(stop),
        (_, _, Some(message), _, _) => Err(StopView::Failed(ImportFault::Unsupported(message))),
        (_, _, _, Some(message), _) => Err(StopView::Failed(ImportFault::Unsupported(message))),
        (_, _, _, _, Err(stop)) => Err(stop),
        (None, Ok(dirs), None, None, Ok(flags)) => Ok(
            WorkspaceView {
                packages,
                members: sorted_ids(ids),
                default_members: ids_in(packages, dirs, packages.len() as int),
                profiles: all_profiles(tables),
                package_profiles: all_overrides(tables),
                global_rustflags: flags,
                global_env: config_env_of(*inputs.config),
                resolver,
            },
        ),
    }
}

/// The import of a workspace.
pub open spec fn imported_workspace(disk: Disk, inputs: WorkspaceInputs<'_>) -> Result<
    WorkspaceView,
    StopView,
> {
    let root = inputs.root@;
    if !disk.manifests@.contains_key(root) {
        Err(StopView::Need(QueryView::Manifest(root)))
    } else {
        match disk.manifests@[root] {
            Err(e) => Err(StopView::Failed(e@)),
            Ok(manifest) => if let Some(source) = alien_source(manifest.patch.keys(), 0) {
                Err(
                    StopView::Failed(
                        ImportFault::Unsupported(
                            "[patch."@ + source
                                + "] sources other than the default registry are not supported"@,
                        ),
                    ),
                )
            } else {
                match root_resolver(manifest, root) {
                    Err(fault) => Err(StopView::Failed(fault)),
                    Ok(resolver) => match member_dirs(disk, manifest, root) {
                        Err(stop) => Err(stop),
                        Ok(members) => match default_dirs(disk, manifest, root) {
                            Err(stop) => Err(stop),
                            Ok(defaults) => match canonical_dirs(
                                disk,
                                members,
                                members.len() as int,
                            ) {
                                Err(stop) => Err(stop),
                                Ok(canonical) => match imported_members(
                                    EnvView {
                                        disk,
                                        root,
                                        members: canonical,
                                        patches: patches_of(&manifest),
                                        answers: inputs.answers@,
                                        collecting: inputs.collecting,
                                    },
                                    match manifest.workspace {
                                        Some(w) => Some(&w),
                                        None => None,
                                    },
                                    members,
                                    members.len() as int,
                                ) {
                                    Err(stop) => Err(stop),
                                    Ok((st, ids)) => workspace_of(
                                        disk,
                                        inputs,
                                        manifest,
                                        resolver,
                                        members,
                                        defaults,
                                        st,
                                        ids,
                                    ),
                                },
                            },
                        },
                    },
                }
            },
        }
    }
}

/// Whether a model is what an import has come to.
pub open spec fn is_workspace(model: RustModel, w: WorkspaceView) -> bool {
    &&& package_list(model.packages@) == w.packages
    &&& ids_view(model.members@) == w.members
    &&& ids_view(model.default_members@) == w.default_members
    &&& profiles_view(model.profiles@) == w.profiles
    &&& overrides_view(model.package_profiles@) == w.package_profiles
    &&& texts(model.global_rustflags@) == w.global_rustflags
    &&& crate::model::env_view(model.global_env@) == w.global_env
    &&& model.resolver == w.resolver
    &&& model.cc_imports@.len() == 0
    &&& model.feature_map.is_empty()
}

/// Whether the profiles of the root manifest have chains that end.
pub open spec fn profiles_end(disk: Disk, root: Seq<char>) -> bool {
    disk.manifests@.contains_key(root) && disk.manifests@[root] is Ok ==> chains_end(
        disk.manifests@[root]->Ok_0.profile,
    )
}

/// Imports a Cargo workspace into a [`RustModel`].
pub fn import_cargo_workspace(disk: &Disk, inputs: &WorkspaceInputs<'_>) -> (r: Result<
    RustModel,
    ImportStop,
>)
    requires
        profiles_end(*disk, inputs.root@),
    ensures
        match imported_workspace(*disk, *inputs) {
            Ok(w) => r is Ok && is_workspace(r->Ok_0, w),
            Err(stop) => r is Err && r->Err_0@ == stop,
        },
{
    let root = inputs.root;
    let manifest: &CargoManifest = match disk.manifests.get(root) {
        None => return Err(ImportStop::Need(Query::Manifest(owned(root)))),
        Some(Err(e)) => return Err(ImportStop::Failed(e.copy())),
        Some(Ok(m)) => m,
    };
    let patches = find_patches(manifest);
    if let Some(source) = find_alien(manifest) {
        return Err(
            ImportStop::Failed(
                CargoImportError::Unsupported(
                    cat3(
                        "[patch.",
                        source.as_str(),
                        "] sources other than the default registry are not supported",
                    ),
                ),
            ),
        );
    }
    let resolver = match select_resolver(manifest, root) {
        Ok(v) => v,
        Err(e) => return Err(ImportStop::Failed(e)),
    };
    let members = match list_members(disk, manifest, root) {
        Ok(v) => v,
        Err(stop) => return Err(stop),
    };
    let defaults = match list_defaults(disk, manifest, root) {
        Ok(v) => v,
        Err(stop) => return Err(stop),
    };
    assert(texts(members@).len() == members@.len());
    assert(texts(defaults@).len() == defaults@.len());
    let canonical = match list_canonical_dirs(disk, &members) {
        Ok(v) => v,
        Err(stop) => return Err(stop),
    };
    let ws: Option<&CargoWorkspace> = match &manifest.workspace {
        Some(w) => Some(w),
        None => None,
    };
    let env = ImportEnv {
        disk,
        root,
        members: &canonical,
        patches,
        answers: inputs.answers,
        collecting: inputs.collecting,
    };
    let (packages, ids) = match import_members(&env, ws, &members) {
        Ok(v) => v,
        Err(stop) => return Err(stop),
    };
    assert(package_list(packages@).len() == packages@.len());
    if let Some(e) = check_links(&packages) {
        return Err(ImportStop::Failed(e));
    }
    let dirs = match list_canonical_dirs(disk, &defaults) {
        Ok(v) => v,
        Err(stop) => return Err(stop),
    };
    let default_members = list_ids_in(&packages, &dirs);
    let (profiles, package_profiles) = match import_profiles(&manifest.profile) {
        Ok(v) => v,
        Err(e) => return Err(ImportStop::Failed(e)),
    };
    if let Some(e) = check_config(inputs.config) {
        return Err(ImportStop::Failed(e));
    }
    let global_rustflags = match config_rustflags(
        disk,
        inputs.config,
        inputs.host_triple,
        inputs.encoded_rustflags,
    ) {
        Ok(v) => v,
        Err(stop) => return Err(stop),
    };
    Ok(
        RustModel {
            packages,
            members: sort_ids(&ids),
            profiles,
            package_profiles,
            cc_imports: Vec::new(),
            global_rustflags,
            global_env: config_env(inputs.config),
            feature_map: FeatureMap::default(),
            resolver,
            default_members,
        },
    )
}

} // verus!
