//! Cargo manifests as plain values, and the rules on single fields.

use vstd::prelude::*;
use vstd::string::*;
use crate::model::{env_view, CrateType, Edition};
use crate::profiles::ProfileTable;
use crate::strmap::{ascending, StrMap};
use crate::text::{
    cat, cat4, cat7, copy_opt, join, join_spec, opt_view, owned, push_text, quote, quoted, same,
    starts, starts_with, texts,
};

verus! {

/// Cargo import failure.
#[derive(Clone, Debug, PartialEq, Eq)]
pub enum CargoImportError {
    /// The file could not be read: its path, and why.
    Io(String, String),
    /// The file was not valid TOML: its path, and why.
    Parse(String, String),
    /// Unsupported Cargo feature (targeted diagnostic).
    Unsupported(String),
}

/// What an import failure holds.
pub enum ImportFault {
    Io(Seq<char>, Seq<char>),
    Parse(Seq<char>, Seq<char>),
    Unsupported(Seq<char>),
}

impl View for CargoImportError {
    type V = ImportFault;

    open spec fn view(&self) -> ImportFault {
        match *self {
            CargoImportError::Io(path, why) => ImportFault::Io(path@, why@),
            CargoImportError::Parse(path, why) => ImportFault::Parse(path@, why@),
            CargoImportError::Unsupported(message) => ImportFault::Unsupported(message@),
        }
    }
}

/// The message of an import failure.
pub open spec fn import_fault_text(fault: ImportFault) -> Seq<char> {
    match fault {
        ImportFault::Io(path, why) => "cannot read "@ + path + ": "@ + why,
        ImportFault::Parse(path, why) => "cannot parse "@ + path + ": "@ + why,
        ImportFault::Unsupported(message) => "unsupported Cargo feature: "@ + message,
    }
}

impl CargoImportError {
    /// The message.
    pub fn to_text(&self) -> (r: String)
        ensures
            r@ == import_fault_text(self@),
    {
        match self {
            CargoImportError::Io(path, why) => cat4(
                "cannot read ",
                path.as_str(),
                ": ",
                why.as_str(),
            ),
            CargoImportError::Parse(path, why) => cat4(
                "cannot parse ",
                path.as_str(),
                ": ",
                why.as_str(),
            ),
            CargoImportError::Unsupported(message) => cat(
                "unsupported Cargo feature: ",
                message.as_str(),
            ),
        }
    }

    /// The same failure.
    pub fn copy(&self) -> (r: CargoImportError)
        ensures
            r == *self,
    {
        match self {
            CargoImportError::Io(path, why) => CargoImportError::Io(path.clone(), why.clone()),
            CargoImportError::Parse(path, why) => CargoImportError::Parse(
                path.clone(),
                why.clone(),
            ),
            CargoImportError::Unsupported(message) => CargoImportError::Unsupported(
                message.clone(),
            ),
        }
    }
}

/// A Cargo manifest (subset).
#[derive(Debug)]
pub struct CargoManifest {
    /// `[package]`.
    pub package: Option<CargoPackage>,
    /// `[workspace]`.
    pub workspace: Option<CargoWorkspace>,
    /// `[dependencies]`.
    pub dependencies: StrMap<DepValue>,
    /// `[build-dependencies]`.
    pub build_dependencies: StrMap<DepValue>,
    /// `[dev-dependencies]`.
    pub dev_dependencies: StrMap<DepValue>,
    /// `[target.'cfg(...)'.dependencies]` etc.
    pub target: StrMap<CargoTargetTable>,
    /// `[features]`.
    pub features: StrMap<Vec<String>>,
    /// `[lib]`.
    pub lib: Option<CargoLib>,
    /// `[[bin]]` entries.
    pub bin: Vec<CargoBin>,
    /// `[[test]]` entries.
    pub test: Vec<CargoTest>,
    /// `[[bench]]` entries.
    pub bench: Vec<CargoTest>,
    /// `[[example]]` entries.
    pub example: Vec<CargoExample>,
    /// `[profile.*]` tables.
    pub profile: StrMap<ProfileTable>,
    /// `[patch.<source>]`: replacement packages for registry sources (top-level
    /// table; workspace-root only).
    pub patch: StrMap<StrMap<DepValue>>,
}

/// One `[target.<key>]` table: dependencies scoped to a `cfg(...)` expression
/// or a literal target triple.
#[derive(Debug)]
pub struct CargoTargetTable {
    /// `dependencies`.
    pub dependencies: StrMap<DepValue>,
    /// `build-dependencies`.
    pub build_dependencies: StrMap<DepValue>,
    /// `dev-dependencies`.
    pub dev_dependencies: StrMap<DepValue>,
}

/// `[package]` (subset).
#[derive(Debug)]
pub struct CargoPackage {
    /// Package name.
    pub name: String,
    /// Package version.
    pub version: Option<Field>,
    /// Rust edition.
    pub edition: Option<Field>,
    /// Build script.
    pub build: Option<BuildKey>,
    /// Cargo resolver version: `"1"`, `"2"`, or `"3"`.
    pub resolver: Option<String>,
    /// Auto-discovery of `src/lib.rs`.
    pub autolib: Option<bool>,
    /// Auto-discovery of `src/main.rs`.
    pub autobins: Option<bool>,
    /// Auto-discovery of `examples/*`.
    pub autoexamples: Option<bool>,
    /// Auto-discovery of `tests/*`.
    pub autotests: Option<bool>,
    /// Auto-discovery of `benches/*`.
    pub autobenches: Option<bool>,
    /// Native library name this package links.
    pub links: Option<String>,
    /// The keys that tell what the package is, such as `authors` and `license`.
    pub about: StrMap<About>,
}

/// A key that tells what a package is.
#[derive(Debug)]
pub enum About {
    /// Its values; a text is one value.
    Values(Vec<String>),
    /// Inherited from `[workspace.package]`.
    Inherit,
}

/// `build = "build.rs"` or `build = false` (Cargo's opt-out from build.rs
/// auto-detection; `true` is rejected by Cargo too).
#[derive(Debug)]
pub enum BuildKey {
    /// A path.
    Path(String),
    /// A flag.
    Flag(bool),
}

/// A field that is either set inline (`version = "0.1"`) or inherited from
/// `[workspace.package]` (`version.workspace = true`).
#[derive(Debug)]
pub enum Field {
    /// Set inline.
    Value(String),
    /// Inherited.
    Inherit { workspace: bool },
}

/// `[workspace]` (subset).
#[derive(Debug)]
pub struct CargoWorkspace {
    /// Members.
    pub members: Vec<String>,
    /// Members built by default; empty: all members.
    pub default_members: Vec<String>,
    /// Member paths excluded from the workspace.
    pub exclude: Vec<String>,
    /// `[workspace.dependencies]`.
    pub dependencies: StrMap<DepValue>,
    /// `[workspace.package]`: defaults inherited by members.
    pub package: Option<CargoWorkspacePackage>,
    /// Cargo resolver version: `"1"`, `"2"`, or `"3"`.
    pub resolver: Option<String>,
}

/// `[workspace.package]` (subset).
#[derive(Debug)]
pub struct CargoWorkspacePackage {
    /// Version.
    pub version: Option<String>,
    /// Edition.
    pub edition: Option<String>,
    /// The keys that tell what a package is, with their values.
    pub about: StrMap<Vec<String>>,
}

/// A dependency as a manifest writes it.
#[derive(Debug)]
pub enum DepValue {
    /// `name = "0.1"`: a registry dependency.
    Version(String),
    /// A table: path, version, workspace and git deps (and renames).
    Table(DepTable),
}

/// `name = { version = "...", path = "...", workspace = true, package = "..." }`.
#[derive(Debug)]
pub struct DepTable {
    /// Version requirement.
    pub version: Option<String>,
    /// Path of a path dependency.
    pub path: Option<String>,
    /// `git = "<url>"`: fixed git dependency.
    pub git: Option<String>,
    /// `rev = "<commit-ish>"`: exact lock resolution.
    pub rev: Option<String>,
    /// `tag = "<tag>"`: resolved when locking.
    pub tag: Option<String>,
    /// `branch = "<branch>"`: resolved when locking.
    pub branch: Option<String>,
    /// `workspace = true`: inherited.
    pub workspace: Option<bool>,
    /// `package = "real-name"` rename.
    pub package: Option<String>,
    /// Optional dependency (activated via features).
    pub optional: Option<bool>,
    /// Whether the dependency's default feature is enabled.
    pub default_features: Option<bool>,
    /// Features requested on the dependency.
    pub features: Option<Vec<String>>,
    /// Target-specific dependency (`cfg(...)` expression).
    pub target: Option<String>,
}

/// `[lib]` (subset).
#[derive(Debug)]
pub struct CargoLib {
    /// Crate name.
    pub name: Option<String>,
    /// Crate types.
    pub crate_type: Vec<String>,
    /// Whether it is a proc macro.
    pub proc_macro: bool,
    /// Crate root.
    pub path: Option<String>,
}

/// `[[bin]]` entry.
#[derive(Debug)]
pub struct CargoBin {
    /// Name.
    pub name: Option<String>,
    /// Crate root.
    pub path: Option<String>,
    /// Features that must be active.
    pub required_features: Option<Vec<String>>,
}

/// `[[test]]` / `[[bench]]` entry. Cargo defaults: path is `tests/<name>.rs` /
/// `benches/<name>.rs`, harness defaults to true.
#[derive(Debug)]
pub struct CargoTest {
    /// Name.
    pub name: Option<String>,
    /// Crate root.
    pub path: Option<String>,
    /// Whether the libtest harness is used.
    pub harness: Option<bool>,
    /// Features that must be active.
    pub required_features: Option<Vec<String>>,
}

/// `[[example]]` entry.
#[derive(Debug)]
pub struct CargoExample {
    /// Name.
    pub name: Option<String>,
    /// Crate root.
    pub path: Option<String>,
    /// Features that must be active.
    pub required_features: Option<Vec<String>>,
}

/// The field of `[workspace.package]` that has this name.
pub open spec fn workspace_field(package: Option<CargoWorkspacePackage>, what: Seq<char>) -> Option<
    Seq<char>,
> {
    match package {
        Some(p) => if what == "version"@ {
            opt_view(p.version)
        } else if what == "edition"@ {
            opt_view(p.edition)
        } else {
            None
        },
        None => None,
    }
}

/// A package field that may be inherited from `[workspace.package]`.
pub open spec fn resolved_field(
    field: Option<Field>,
    package: Option<CargoWorkspacePackage>,
    package_name: Seq<char>,
    what: Seq<char>,
    dir: Seq<char>,
    default: Seq<char>,
) -> Result<Seq<char>, ImportFault> {
    match field {
        None => Ok(default),
        Some(Field::Value(value)) => Ok(value@),
        Some(Field::Inherit { workspace }) => if workspace {
            match workspace_field(package, what) {
                Some(value) => Ok(value),
                None => Err(
                    ImportFault::Unsupported(
                        "package "@ + quoted(package_name) + " in "@ + dir + " inherits "@ + what
                            + " from [workspace.package], which defines none"@,
                    ),
                ),
            }
        } else {
            Err(
                ImportFault::Unsupported(
                    "package "@ + quoted(package_name) + " in "@ + dir + " sets "@ + what
                        + ".workspace = false"@,
                ),
            )
        },
    }
}

/// What `[workspace.package]` says of a package under this key: its values with
/// colons between them; nothing where it has no such key.
pub open spec fn inherited_about(package: Option<CargoWorkspacePackage>, key: Seq<char>) -> Seq<
    char,
> {
    match package {
        Some(p) => if p.about@.contains_key(key) {
            join_spec(texts(p.about@[key]@), ":"@)
        } else {
            Seq::empty()
        },
        None => Seq::empty(),
    }
}

/// What a manifest says of its package under this key: its values with colons
/// between them; nothing where it has no such key.
pub open spec fn about_of(
    about: Map<Seq<char>, About>,
    package: Option<CargoWorkspacePackage>,
    key: Seq<char>,
) -> Seq<char> {
    if about.contains_key(key) {
        match about[key] {
            About::Values(values) => join_spec(texts(values@), ":"@),
            About::Inherit => inherited_about(package, key),
        }
    } else {
        Seq::empty()
    }
}

fn read_about(
    about: &StrMap<About>,
    package: &Option<CargoWorkspacePackage>,
    key: &str,
) -> (r: String)
    ensures
        r@ == about_of(about@, *package, key@),
{
    match about.get(key) {
        Some(About::Values(values)) => join(values, ":"),
        Some(About::Inherit) => match package {
            Some(p) => match p.about.get(key) {
                Some(values) => join(values, ":"),
                None => String::new(),
            },
            None => String::new(),
        },
        None => String::new(),
    }
}

/// The variables that tell what a package is, as its manifest has it.
pub open spec fn about_env(
    about: Map<Seq<char>, About>,
    package: Option<CargoWorkspacePackage>,
) -> Map<Seq<char>, Seq<char>> {
    Map::empty().insert("CARGO_PKG_AUTHORS"@, about_of(about, package, "authors"@)).insert(
        "CARGO_PKG_DESCRIPTION"@,
        about_of(about, package, "description"@),
    ).insert("CARGO_PKG_HOMEPAGE"@, about_of(about, package, "homepage"@)).insert(
        "CARGO_PKG_REPOSITORY"@,
        about_of(about, package, "repository"@),
    ).insert("CARGO_PKG_LICENSE"@, about_of(about, package, "license"@)).insert(
        "CARGO_PKG_LICENSE_FILE"@,
        about_of(about, package, "license-file"@),
    ).insert("CARGO_PKG_README"@, about_of(about, package, "readme"@)).insert(
        "CARGO_PKG_RUST_VERSION"@,
        about_of(about, package, "rust-version"@),
    )
}

fn put_var(env: &mut StrMap<String>, name: &str, value: String)
    ensures
        env_view(final(env)@) == env_view(old(env)@).insert(name@, value@),
{
    let ghost before = env@;
    env.insert(owned(name), value);
    assert(env_view(env@) =~= env_view(before).insert(name@, value@));
}

/// Makes the variables that tell what a package is.
pub fn make_about_env(about: &StrMap<About>, package: &Option<CargoWorkspacePackage>) -> (r: StrMap<
    String,
>)
    ensures
        env_view(r@) == about_env(about@, *package),
{
    let mut env: StrMap<String> = StrMap::new();
    assert(env_view(env@) =~= Map::<Seq<char>, Seq<char>>::empty());
    put_var(&mut env, "CARGO_PKG_AUTHORS", read_about(about, package, "authors"));
    put_var(&mut env, "CARGO_PKG_DESCRIPTION", read_about(about, package, "description"));
    put_var(&mut env, "CARGO_PKG_HOMEPAGE", read_about(about, package, "homepage"));
    put_var(&mut env, "CARGO_PKG_REPOSITORY", read_about(about, package, "repository"));
    put_var(&mut env, "CARGO_PKG_LICENSE", read_about(about, package, "license"));
    put_var(&mut env, "CARGO_PKG_LICENSE_FILE", read_about(about, package, "license-file"));
    put_var(&mut env, "CARGO_PKG_README", read_about(about, package, "readme"));
    put_var(&mut env, "CARGO_PKG_RUST_VERSION", read_about(about, package, "rust-version"));
    env
}

/// What a text or an import failure is.
pub open spec fn text_result(r: Result<String, CargoImportError>) -> Result<Seq<char>, ImportFault> {
    match r {
        Ok(s) => Ok(s@),
        Err(e) => Err(e@),
    }
}

/// Resolves a package field that may be inherited from `[workspace.package]`,
/// with Cargo-compatible diagnostics.
pub fn resolve_field(
    field: &Option<Field>,
    workspace_package: &Option<CargoWorkspacePackage>,
    package_name: &str,
    what: &str,
    dir: &str,
    default: &str,
) -> (r: Result<String, CargoImportError>)
    ensures
        text_result(r) == resolved_field(
            *field,
            *workspace_package,
            package_name@,
            what@,
            dir@,
            default@,
        ),
{
    match field {
        None => Ok(owned(default)),
        Some(Field::Value(value)) => Ok(value.clone()),
        Some(Field::Inherit { workspace }) => if *workspace {
            let inherited: Option<String> = match workspace_package {
                Some(p) => if same(what, "version") {
                    copy_opt(&p.version)
                } else if same(what, "edition") {
                    copy_opt(&p.edition)
                } else {
                    None
                },
                None => None,
            };
            match inherited {
                Some(value) => Ok(value),
                None => Err(
                    CargoImportError::Unsupported(
                        cat7(
                            "package ",
                            quote(package_name).as_str(),
                            " in ",
                            dir,
                            " inherits ",
                            what,
                            " from [workspace.package], which defines none",
                        ),
                    ),
                ),
            }
        } else {
            Err(
                CargoImportError::Unsupported(
                    cat7(
                        "package ",
                        quote(package_name).as_str(),
                        " in ",
                        dir,
                        " sets ",
                        what,
                        ".workspace = false",
                    ),
                ),
            )
        },
    }
}

/// The crate type that a name stands for; `lib` and `bin` stand for none.
pub open spec fn crate_type_of(kind: Seq<char>) -> Option<CrateType> {
    if kind == "rlib"@ {
        Some(CrateType::Rlib)
    } else if kind == "cdylib"@ {
        Some(CrateType::Cdylib)
    } else if kind == "staticlib"@ {
        Some(CrateType::Staticlib)
    } else if kind == "dylib"@ {
        Some(CrateType::Dylib)
    } else {
        None
    }
}

/// The crate types that a list of names stands for.
pub open spec fn crate_types_of(kinds: Seq<Seq<char>>) -> Result<Seq<CrateType>, ImportFault>
    decreases kinds.len(),
{
    if kinds.len() == 0 {
        Ok(Seq::empty())
    } else {
        let kind = kinds.last();
        match crate_types_of(kinds.drop_last()) {
            Err(fault) => Err(fault),
            Ok(before) => match crate_type_of(kind) {
                Some(t) => Ok(before.push(t)),
                None => if kind == "lib"@ || kind == "bin"@ {
                    Ok(before)
                } else {
                    Err(ImportFault::Unsupported("crate-type "@ + quoted(kind)))
                },
            },
        }
    }
}

/// A fault in a beginning is the fault of the whole.
proof fn lemma_crate_types_fault(kinds: Seq<Seq<char>>, n: int)
    requires
        0 <= n <= kinds.len(),
        crate_types_of(kinds.take(n)) is Err,
    ensures
        crate_types_of(kinds) == crate_types_of(kinds.take(n)),
    decreases kinds.len(),
{
    if n < kinds.len() {
        assert(kinds.drop_last().take(n) =~= kinds.take(n));
        lemma_crate_types_fault(kinds.drop_last(), n);
    } else {
        assert(kinds.take(n) =~= kinds);
    }
}

/// Reads the crate types of a library.
pub fn parse_crate_types(types: &Vec<String>) -> (r: Result<Vec<CrateType>, CargoImportError>)
    ensures
        (match r {
            Ok(v) => Ok::<Seq<CrateType>, ImportFault>(v@),
            Err(e) => Err(e@),
        }) == crate_types_of(texts(types@)),
{
    let ghost all = texts(types@);
    let mut out: Vec<CrateType> = Vec::new();
    let mut i: usize = 0;
    assert(all.take(0) =~= Seq::empty());
    while i < types.len()
        invariant
            i <= types@.len(),
            all == texts(types@),
            crate_types_of(all.take(i as int)) == Ok::<Seq<CrateType>, ImportFault>(out@),
        decreases types@.len() - i,
    {
        let kind = types[i].as_str();
        proof {
            assert(all.take(i as int + 1).drop_last() =~= all.take(i as int));
            assert(all.take(i as int + 1).last() == kind@);
        }
        if same(kind, "rlib") {
            out.push(CrateType::Rlib);
        } else if same(kind, "cdylib") {
            out.push(CrateType::Cdylib);
        } else if same(kind, "staticlib") {
            out.push(CrateType::Staticlib);
        } else if same(kind, "dylib") {
            out.push(CrateType::Dylib);
        } else if !same(kind, "lib") && !same(kind, "bin") {
            proof {
                lemma_crate_types_fault(all, i as int + 1);
            }
            return Err(CargoImportError::Unsupported(cat("crate-type ", quote(kind).as_str())));
        }
        i += 1;
    }
    assert(all.take(all.len() as int) =~= all);
    Ok(out)
}

/// The edition of a year.
pub open spec fn edition_of(text: Seq<char>) -> Result<Edition, ImportFault> {
    if text == "2015"@ {
        Ok(Edition::E2015)
    } else if text == "2018"@ {
        Ok(Edition::E2018)
    } else if text == "2021"@ {
        Ok(Edition::E2021)
    } else if text == "2024"@ {
        Ok(Edition::E2024)
    } else {
        Err(ImportFault::Unsupported("edition "@ + quoted(text)))
    }
}

/// Reads an edition.
pub fn parse_edition(text: &str) -> (r: Result<Edition, CargoImportError>)
    ensures
        (match r {
            Ok(e) => Ok::<Edition, ImportFault>(e),
            Err(e) => Err(e@),
        }) == edition_of(text@),
{
    if same(text, "2015") {
        Ok(Edition::E2015)
    } else if same(text, "2018") {
        Ok(Edition::E2018)
    } else if same(text, "2021") {
        Ok(Edition::E2021)
    } else if same(text, "2024") {
        Ok(Edition::E2024)
    } else {
        Err(CargoImportError::Unsupported(cat("edition ", quote(text).as_str())))
    }
}

/// Reading an edition gives back what rustc is told.
pub proof fn editions_round_trip(edition: Edition)
    ensures
        edition_of(crate::model::edition_text(edition)) == Ok::<Edition, ImportFault>(edition),
{
    reveal_strlit("2015");
    reveal_strlit("2018");
    reveal_strlit("2021");
    reveal_strlit("2024");
    assert("2015"@[3] == '5');
    assert("2018"@[3] == '8');
    assert("2021"@[3] == '1');
    assert("2024"@[3] == '4');
}

/// The position of the first registry source, from a position on.
pub open spec fn registry_key(keys: Seq<Seq<char>>, from: int) -> Option<int>
    decreases keys.len() - from,
{
    if from < 0 || from >= keys.len() {
        None
    } else if starts(keys[from], "registry+"@) {
        Some(from)
    } else {
        registry_key(keys, from + 1)
    }
}

/// The entries that a root manifest patches the default registry with: those of
/// `crates-io`, else those of the first registry source.
pub open spec fn patches_of<'a>(manifest: &'a CargoManifest) -> Option<&'a StrMap<DepValue>> {
    if manifest.patch@.contains_key("crates-io"@) {
        Some(&manifest.patch@["crates-io"@])
    } else {
        match registry_key(manifest.patch.keys(), 0) {
            Some(k) => Some(&manifest.patch.values()[k]),
            None => None,
        }
    }
}

/// Finds the entries that a root manifest patches the default registry with.
pub(crate) fn find_patches(manifest: &CargoManifest) -> (r: Option<&StrMap<DepValue>>)
    ensures
        r == patches_of(manifest),
{
    if let Some(entries) = manifest.patch.get("crates-io") {
        return Some(entries);
    }
    let n = manifest.patch.len();
    let mut i: usize = 0;
    while i < n
        invariant
            i <= n,
            n == manifest.patch.keys().len(),
            n == manifest.patch.values().len(),
            !manifest.patch@.contains_key("crates-io"@),
            registry_key(manifest.patch.keys(), 0) == registry_key(
                manifest.patch.keys(),
                i as int,
            ),
        decreases n - i,
    {
        if starts_with(manifest.patch.key(i).as_str(), "registry+") {
            return Some(manifest.patch.value(i));
        }
        i += 1;
    }
    None
}

/// The crate names that a root manifest's `[patch]` tables replace.
pub open spec fn patched_names(manifest: &CargoManifest) -> Seq<Seq<char>> {
    match patches_of(manifest) {
        Some(entries) => entries.keys(),
        None => Seq::empty(),
    }
}

/// The crate names replaced by the root manifest's `[patch]` tables, in
/// ascending order. Registry requirements on these names resolve to the patched
/// local package.
pub fn cargo_patch_names(manifest: &CargoManifest) -> (r: Vec<String>)
    ensures
        texts(r@) == patched_names(manifest),
        ascending(texts(r@)),
{
    let mut out: Vec<String> = Vec::new();
    assert(texts(out@) =~= Seq::<Seq<char>>::empty());
    if let Some(entries) = find_patches(manifest) {
        let n = entries.len();
        let mut i: usize = 0;
        while i < n
            invariant
                i <= n,
                n == entries.keys().len(),
                texts(out@) == entries.keys().take(i as int),
            decreases n - i,
        {
            push_text(&mut out, entries.key(i).as_str());
            i += 1;
            assert(texts(out@) =~= entries.keys().take(i as int));
        }
        assert(texts(out@) =~= entries.keys());
    }
    out
}

} // verus!
