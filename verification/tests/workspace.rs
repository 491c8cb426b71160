//! Workspaces that stand in memory: their import, their plans and their actions.

use tong::actions::{
    build_script_cfgs, concretize, version_env, Action, ActionInputs, Completed, Executable,
    NetworkPolicy, TripleFacts,
};
use tong::deps::LockedSource;
use tong::digest::Digest;
use tong::disk::{DirEntry, Disk, ImportStop, Query};
use tong::features::{resolve_features, FeatureRequest};
use tong::import::{merge_target_tables, Declaration, LockAnswer};
use tong::manifest::{
    cargo_patch_names, About, BuildKey, CargoBin, CargoExample, CargoImportError, CargoLib, CargoManifest, CargoPackage,
    CargoTargetTable, CargoTest, CargoWorkspace, CargoWorkspacePackage, DepTable, DepValue, Field,
};
use tong::model::{
    CcImport, Edition, Lto, PackageId, PanicStrategy, RegistryEdge, ResolverVersion, RustModel, SourceId,
};
use tong::paths::{normalize_lexical, path_join};
use tong::plan::{plan, Unit, UnitKind};
use tong::profiles::{
    incremental_notes, profile_chains_end, DebugValue, LtoValue, OptLevelValue, ProfileSettings,
    ProfileTable,
};
use tong::sources::{
    base_properties, cc_file_name, final_artifacts, list_roots, metadata, metadata_hash, mount_roots,
    narrowed_parts, narrowed_paths, script_side, NativeFile, PathFact, RootFact, TreePart,
};
use tong::strmap::StrMap;
use tong::units::{name_script_compile, name_script_run, PlanError, Planner, Toolchain};
use tong::version::Version;
use tong::workspace::{
    import_cargo_workspace, CargoBuild, CargoConfig, CargoTargetConfig, EnvValue, RustflagsValue,
    WorkspaceInputs,
};
use toml::{Table, Value};

const ROOT: &str = "/fixture/ws";

/// Files, by their absolute paths.
struct Files {
    files: Vec<(String, String)>,
}

fn write_tree(files: &[(&str, &str)]) -> Files {
    Files {
        files: files
            .iter()
            .map(|(path, content)| {
                (normalize_lexical(&path_join(ROOT, path)), content.to_string())
            })
            .collect(),
    }
}

impl Files {
    fn read(&self, path: &str) -> Option<&str> {
        self.files.iter().find(|(p, _)| p == path).map(|(_, text)| text.as_str())
    }

    fn is_dir(&self, path: &str) -> bool {
        let prefix = format!("{path}/");
        self.files.iter().any(|(p, _)| p.starts_with(&prefix))
    }

    fn list(&self, path: &str) -> Vec<DirEntry> {
        let prefix = format!("{path}/");
        let mut names: Vec<(String, bool)> = Vec::new();
        for (p, _) in &self.files {
            if let Some(rest) = p.strip_prefix(&prefix) {
                let (name, is_dir) = match rest.split_once('/') {
                    Some((first, _)) => (first.to_owned(), true),
                    None => (rest.to_owned(), false),
                };
                if !names.iter().any(|(n, _)| *n == name) {
                    names.push((name, is_dir));
                }
            }
        }
        names.into_iter().map(|(name, is_dir)| DirEntry { name, is_dir }).collect()
    }
}

// ---- TOML --------------------------------------------------------------------------------

fn text(t: &Table, key: &str) -> Option<String> {
    t.get(key).and_then(Value::as_str).map(str::to_owned)
}

fn flag(t: &Table, key: &str) -> Option<bool> {
    t.get(key).and_then(Value::as_bool)
}

fn list(t: &Table, key: &str) -> Option<Vec<String>> {
    t.get(key).and_then(Value::as_array).map(|items| {
        items.iter().map(|v| v.as_str().unwrap().to_owned()).collect()
    })
}

fn table<'a>(t: &'a Table, key: &str) -> Option<&'a Table> {
    t.get(key).and_then(Value::as_table)
}

fn map<V>(t: Option<&Table>, each: impl Fn(&Value) -> V) -> StrMap<V> {
    let mut out = StrMap::new();
    if let Some(t) = t {
        for (key, value) in t {
            out.insert(key.clone(), each(value));
        }
    }
    out
}

fn field(t: &Table, key: &str) -> Option<Field> {
    t.get(key).map(|v| match v {
        Value::String(s) => Field::Value(s.clone()),
        other => Field::Inherit {
            workspace: other.get("workspace").and_then(Value::as_bool).unwrap(),
        },
    })
}

fn dep(v: &Value) -> DepValue {
    match v {
        Value::String(s) => DepValue::Version(s.clone()),
        other => {
            let t = other.as_table().unwrap();
            DepValue::Table(DepTable {
                version: text(t, "version"),
                path: text(t, "path"),
                git: text(t, "git"),
                rev: text(t, "rev"),
                tag: text(t, "tag"),
                branch: text(t, "branch"),
                workspace: flag(t, "workspace"),
                package: text(t, "package"),
                optional: flag(t, "optional"),
                default_features: flag(t, "default-features"),
                features: list(t, "features"),
                target: text(t, "target"),
            })
        }
    }
}

fn entries<'a>(t: &'a Table, key: &str) -> Vec<&'a Table> {
    match t.get(key).and_then(Value::as_array) {
        Some(items) => items.iter().map(|v| v.as_table().unwrap()).collect(),
        None => Vec::new(),
    }
}

fn test_entry(t: &Table) -> CargoTest {
    CargoTest {
        name: text(t, "name"),
        path: text(t, "path"),
        harness: flag(t, "harness"),
        required_features: list(t, "required-features"),
    }
}

fn settings(t: &Table) -> ProfileSettings {
    ProfileSettings {
        inherits: text(t, "inherits"),
        opt_level: t.get("opt-level").map(|v| match v {
            Value::Integer(n) => OptLevelValue::Num(*n as u8),
            other => OptLevelValue::Str(other.as_str().unwrap().to_owned()),
        }),
        debug: t.get("debug").map(|v| match v {
            Value::Boolean(b) => DebugValue::Bool(*b),
            Value::Integer(n) => DebugValue::Num(*n as u8),
            other => DebugValue::Str(other.as_str().unwrap().to_owned()),
        }),
        lto: t.get("lto").map(|v| match v {
            Value::Boolean(b) => LtoValue::Bool(*b),
            other => LtoValue::Str(other.as_str().unwrap().to_owned()),
        }),
        panic: text(t, "panic"),
        codegen_units: t.get("codegen-units").and_then(Value::as_integer).map(|n| n as u32),
        overflow_checks: flag(t, "overflow-checks"),
        debug_assertions: flag(t, "debug-assertions"),
        strip: text(t, "strip"),
        rpath: flag(t, "rpath"),
        split_debuginfo: text(t, "split-debuginfo"),
        incremental: flag(t, "incremental"),
        codegen_backend: text(t, "codegen-backend"),
        build_override: t.contains_key("build-override"),
    }
}

fn lines(v: &Value) -> Vec<String> {
    match v {
        Value::String(s) => vec![s.clone()],
        Value::Array(items) => {
            items.iter().map(|item| item.as_str().unwrap().to_owned()).collect()
        }
        _ => Vec::new(),
    }
}

fn about(v: &Value) -> About {
    match v {
        Value::Table(_) => About::Inherit,
        other => About::Values(lines(other)),
    }
}

fn manifest(source: &str) -> CargoManifest {
    let t: Table = source.parse().unwrap();
    CargoManifest {
        package: table(&t, "package").map(|p| CargoPackage {
            name: text(p, "name").unwrap(),
            version: field(p, "version"),
            edition: field(p, "edition"),
            build: p.get("build").map(|v| match v {
                Value::Boolean(b) => BuildKey::Flag(*b),
                other => BuildKey::Path(other.as_str().unwrap().to_owned()),
            }),
            resolver: text(p, "resolver"),
            autolib: flag(p, "autolib"),
            autobins: flag(p, "autobins"),
            autoexamples: flag(p, "autoexamples"),
            autotests: flag(p, "autotests"),
            autobenches: flag(p, "autobenches"),
            links: text(p, "links"),
            about: map(Some(p), about),
        }),
        workspace: table(&t, "workspace").map(|w| CargoWorkspace {
            members: list(w, "members").unwrap_or_default(),
            default_members: list(w, "default-members").unwrap_or_default(),
            exclude: list(w, "exclude").unwrap_or_default(),
            dependencies: map(table(w, "dependencies"), dep),
            package: table(w, "package").map(|p| CargoWorkspacePackage {
                version: text(p, "version"),
                edition: text(p, "edition"),
                about: map(Some(p), lines),
            }),
            resolver: text(w, "resolver"),
        }),
        dependencies: map(table(&t, "dependencies"), dep),
        build_dependencies: map(table(&t, "build-dependencies"), dep),
        dev_dependencies: map(table(&t, "dev-dependencies"), dep),
        target: map(table(&t, "target"), |v| {
            let t = v.as_table().unwrap();
            CargoTargetTable {
                dependencies: map(table(t, "dependencies"), dep),
                build_dependencies: map(table(t, "build-dependencies"), dep),
                dev_dependencies: map(table(t, "dev-dependencies"), dep),
            }
        }),
        features: map(table(&t, "features"), |v| {
            v.as_array().unwrap().iter().map(|f| f.as_str().unwrap().to_owned()).collect()
        }),
        lib: table(&t, "lib").map(|l| CargoLib {
            name: text(l, "name"),
            crate_type: list(l, "crate-type").unwrap_or_default(),
            proc_macro: flag(l, "proc-macro").unwrap_or(false),
            path: text(l, "path"),
        }),
        bin: entries(&t, "bin")
            .into_iter()
            .map(|b| CargoBin {
                name: text(b, "name"),
                path: text(b, "path"),
                required_features: list(b, "required-features"),
            })
            .collect(),
        test: entries(&t, "test").into_iter().map(test_entry).collect(),
        bench: entries(&t, "bench").into_iter().map(test_entry).collect(),
        example: entries(&t, "example")
            .into_iter()
            .map(|e| CargoExample {
                name: text(e, "name"),
                path: text(e, "path"),
                required_features: list(e, "required-features"),
            })
            .collect(),
        profile: map(table(&t, "profile"), |v| {
            let t = v.as_table().unwrap();
            ProfileTable {
                settings: settings(t),
                package: table(t, "package")
                    .map(|p| map(Some(p), |v| settings(v.as_table().unwrap()))),
            }
        }),
        patch: map(table(&t, "patch"), |v| map(v.as_table(), dep)),
    }
}

fn rustflags(t: &Table) -> Option<RustflagsValue> {
    t.get("rustflags").map(|v| match v {
        Value::String(s) => RustflagsValue::Single(s.clone()),
        _ => RustflagsValue::List(list(t, "rustflags").unwrap()),
    })
}

fn config(source: &str) -> CargoConfig {
    let t: Table = source.parse().unwrap();
    CargoConfig {
        build: table(&t, "build").map(|b| CargoBuild {
            rustflags: rustflags(b),
            target: text(b, "target"),
        }),
        env: table(&t, "env").map(|e| {
            map(Some(e), |v| match v {
                Value::String(s) => EnvValue::Plain(s.clone()),
                other => {
                    let t = other.as_table().unwrap();
                    EnvValue::Table {
                        value: text(t, "value").unwrap(),
                        force: flag(t, "force"),
                        relative: flag(t, "relative"),
                    }
                }
            })
        }),
        target: map(table(&t, "target"), |v| {
            let t = v.as_table().unwrap();
            CargoTargetConfig { rustflags: rustflags(t), linker: text(t, "linker") }
        }),
        registries: t.contains_key("registries"),
        source: t.contains_key("source"),
        net: t.contains_key("net"),
        http: t.contains_key("http"),
    }
}

// ---- Imports -----------------------------------------------------------------------------

/// Whether a `cfg(...)` expression holds, for the few that the tests use.
fn cfg_holds(key: &str, triple: &str) -> Result<bool, String> {
    match key {
        "cfg(unix)" => Ok(!triple.contains("windows")),
        "cfg(windows)" => Ok(triple.contains("windows")),
        "cfg(all(" => Err("unbalanced parentheses".to_owned()),
        _ => Ok(false),
    }
}

fn no_lock(edge: &RegistryEdge) -> LockAnswer {
    Err(CargoImportError::Unsupported(format!(
        "registry dependency `{}` requires Tong.lock; run `tong lock`",
        edge.package
    )))
}

/// Imports a workspace, looking each fact up when it is asked for.
fn import_with(
    files: &Files,
    triple: &str,
    collecting: bool,
    encoded: Option<&str>,
    lock: &dyn Fn(&RegistryEdge) -> LockAnswer,
) -> Result<RustModel, CargoImportError> {
    let mut disk = Disk::new();
    let mut answers: Vec<LockAnswer> = Vec::new();
    let config = match files.read("/fixture/ws/.cargo/config.toml") {
        Some(source) => config(source),
        None => CargoConfig::default(),
    };
    loop {
        let inputs = WorkspaceInputs {
            root: ROOT,
            host_triple: triple,
            answers: &answers,
            collecting,
            encoded_rustflags: encoded,
            config: &config,
        };
        let query = match import_cargo_workspace(&disk, &inputs) {
            Ok(model) => return Ok(model),
            Err(ImportStop::Failed(err)) => return Err(err),
            Err(ImportStop::Need(query)) => query,
        };
        match query {
            Query::Canonical(path) => {
                let canonical = normalize_lexical(&path);
                let found = files.is_dir(&canonical) || files.read(&canonical).is_some();
                let answer = if found {
                    Ok(canonical)
                } else {
                    Err("No such file or directory (os error 2)".to_owned())
                };
                assert!(disk.canonical.insert(path, answer));
            }
            Query::Manifest(dir) => {
                let path = path_join(&normalize_lexical(&dir), "Cargo.toml");
                let answer = match files.read(&path) {
                    Some(source) => Ok(manifest(source)),
                    None => Err(CargoImportError::Io(
                        path,
                        "No such file or directory (os error 2)".to_owned(),
                    )),
                };
                assert!(disk.manifests.insert(dir, answer));
            }
            Query::IsFile(path) => {
                let is_file = files.read(&normalize_lexical(&path)).is_some();
                assert!(disk.files.insert(path, is_file));
            }
            Query::List(path) => {
                let dir = normalize_lexical(&path);
                let answer = if files.is_dir(&dir) {
                    Ok(files.list(&dir))
                } else {
                    Err("No such file or directory (os error 2)".to_owned())
                };
                assert!(disk.listings.insert(path, answer));
            }
            Query::Cfg { key, triple } => {
                let answer = cfg_holds(&key, &triple);
                let mut known: StrMap<Result<bool, String>> = StrMap::new();
                if let Some(old) = disk.cfgs.get(&triple) {
                    for i in 0..old.len() {
                        known.insert(old.key(i).clone(), old.value(i).clone());
                    }
                }
                known.insert(key, answer);
                disk.cfgs.insert(triple, known);
            }
            Query::Lock(edge) => answers.push(lock(&edge)),
        }
    }
}

fn import(files: &Files, triple: &str) -> Result<RustModel, CargoImportError> {
    import_with(files, triple, false, None, &no_lock)
}

fn import_error(files: &Files, triple: &str) -> String {
    match import(files, triple) {
        Ok(_) => panic!("the import succeeded"),
        Err(err) => err.to_text(),
    }
}

#[test]
fn imports_a_path_dependency_workspace() {
    let dir = write_tree(&[
        (
            "Cargo.toml",
            r#"
[workspace]
members = ["crates/calc-core", "crates/calc-cli"]
resolver = "2"
"#,
        ),
        (
            "crates/calc-core/Cargo.toml",
            r#"
[package]
name = "calc-core"
version = "0.1.0"
edition = "2021"
"#,
        ),
        (
            "crates/calc-core/src/lib.rs",
            "pub fn add(a: i32, b: i32) -> i32 { a + b }",
        ),
        (
            "crates/calc-cli/Cargo.toml",
            r#"
[package]
name = "calc-cli"
version = "0.1.0"
edition = "2021"

[dependencies]
calc-core = { path = "../calc-core" }
"#,
        ),
        ("crates/calc-cli/src/main.rs", "fn main() {}"),
    ]);
    let model = import(&dir, "aarch64-apple-darwin").unwrap();
    assert_eq!(model.packages.len(), 2);
    let cli = model
        .packages
        .iter()
        .find(|p| p.name == "calc-cli")
        .unwrap();
    assert_eq!(cli.deps.len(), 1);
    assert_eq!(cli.deps[0].extern_name, "calc_core");
    assert_eq!(cli.deps[0].package.name, "calc-core");
    let core = model
        .packages
        .iter()
        .find(|p| p.name == "calc-core")
        .unwrap();
    assert!(core.lib.is_some());
    assert_eq!(cli.bins.len(), 1);
    // dev profile defaults exist.
    assert!(model.profiles.contains_key("dev"));
    assert!(model.profiles.contains_key("release"));
}

#[test]
fn registry_deps_fail_with_a_targeted_diagnostic() {
    let dir = write_tree(&[
        (
            "Cargo.toml",
            r#"
[package]
name = "app"
version = "0.1.0"
edition = "2021"

[dependencies]
serde = "1"
"#,
        ),
        ("src/main.rs", "fn main() {}"),
    ]);
    let err = import_error(&dir, "aarch64-apple-darwin");
    assert!(err.contains("registry dependency"), "{err}");
}

#[test]
fn reads_config_rustflags_and_env() {
    let dir = write_tree(&[
        (
            "Cargo.toml",
            r#"
[package]
name = "app"
version = "0.1.0"
edition = "2021"
"#,
        ),
        ("src/main.rs", "fn main() {}"),
        (
            ".cargo/config.toml",
            r#"
[build]
rustflags = ["--cfg", "advanced_mode"]

[env]
APP_GREETING = "hello"
"#,
        ),
    ]);
    let model = import(&dir, "aarch64-apple-darwin").unwrap();
    assert_eq!(model.global_rustflags, vec!["--cfg", "advanced_mode"]);
    assert_eq!(model.global_env.get("APP_GREETING").unwrap(), "hello");
}

#[test]
fn imports_external_path_dependency() {
    // A path dep outside the workspace is imported recursively, like
    // Cargo does (used by examples/04-voxel-city → sdl3-sys).
    let dir = write_tree(&[
        (
            "Cargo.toml",
            "[workspace]\nmembers = [\"crates/app\"]\nresolver = \"2\"\n",
        ),
        (
            "crates/app/Cargo.toml",
            r#"
[package]
name = "app"
version = "0.1.0"
edition = "2021"

[dependencies]
sdl3-sys = { path = "../../shared/sdl3-sys" }
"#,
        ),
        ("crates/app/src/main.rs", "fn main() {}"),
        (
            "shared/sdl3-sys/Cargo.toml",
            "[package]\nname = \"sdl3-sys\"\nversion = \"0.1.0\"\nedition = \"2021\"\n",
        ),
        ("shared/sdl3-sys/src/lib.rs", "pub fn init() {}"),
    ]);
    let model = import(&dir, "aarch64-apple-darwin").unwrap();
    assert_eq!(model.packages.len(), 2);
    let app = model.packages.iter().find(|p| p.name == "app").unwrap();
    assert_eq!(app.deps.len(), 1);
    assert_eq!(app.deps[0].extern_name, "sdl3_sys");
    assert_eq!(app.deps[0].package.name, "sdl3-sys");
    let sys = model
        .packages
        .iter()
        .find(|p| p.name == "sdl3-sys")
        .unwrap();
    assert_eq!(sys.dir, "/fixture/ws/shared/sdl3-sys");
    assert!(sys.lib.is_some());
}

#[test]
fn rejects_cyclic_path_dependencies() {
    let dir = write_tree(&[
        (
            "Cargo.toml",
            "[workspace]\nmembers = [\"a\"]\nresolver = \"2\"\n",
        ),
        (
            "a/Cargo.toml",
            r#"
[package]
name = "a"
version = "0.1.0"
edition = "2021"

[dependencies]
b = { path = "../b" }
"#,
        ),
        ("a/src/lib.rs", ""),
        (
            "b/Cargo.toml",
            r#"
[package]
name = "b"
version = "0.1.0"
edition = "2021"

[dependencies]
a = { path = "../a" }
"#,
        ),
        ("b/src/lib.rs", ""),
    ]);
    let err = import_error(&dir, "aarch64-apple-darwin");
    assert!(err.contains("cyclic"), "{err}");
}

#[test]
fn imports_workspace_inherited_version_and_edition() {
    let dir = write_tree(&[
        (
            "Cargo.toml",
            r#"
[workspace]
members = ["app"]
resolver = "2"

[workspace.package]
version = "1.2.3"
edition = "2021"
"#,
        ),
        (
            "app/Cargo.toml",
            r#"
[package]
name = "app"
version.workspace = true
edition.workspace = true
"#,
        ),
        ("app/src/lib.rs", ""),
    ]);
    let model = import(&dir, "aarch64-apple-darwin").unwrap();
    let app = model.packages.iter().find(|p| p.name == "app").unwrap();
    assert_eq!(app.version, "1.2.3");
    assert_eq!(app.edition, Edition::E2021);
}

#[test]
fn applies_patch_to_inherited_registry_dependency() {
    let dir = write_tree(&[
        (
            "Cargo.toml",
            r#"
[workspace]
members = ["app", "shared"]
resolver = "2"

[workspace.dependencies]
shared = "1"

[patch.crates-io]
shared = { path = "shared" }
"#,
        ),
        (
            "app/Cargo.toml",
            r#"
[package]
name = "app"
version = "0.1.0"
edition = "2021"

[dependencies]
shared.workspace = true
"#,
        ),
        ("app/src/lib.rs", ""),
        (
            "shared/Cargo.toml",
            "[package]\nname = \"shared\"\nversion = \"1.0.0\"\nedition = \"2021\"\n",
        ),
        ("shared/src/lib.rs", ""),
    ]);
    let model = import(&dir, "aarch64-apple-darwin").unwrap();
    let app = model.packages.iter().find(|pkg| pkg.name == "app").unwrap();
    assert_eq!(app.deps.len(), 1);
    assert_eq!(app.deps[0].package.name, "shared");
    assert!(matches!(app.deps[0].package.source, SourceId::Workspace(_)));
}

#[test]
fn missing_workspace_package_inheritance_is_a_targeted_error() {
    let dir = write_tree(&[
        (
            "Cargo.toml",
            "[workspace]\nmembers = [\"app\"]\nresolver = \"2\"\n",
        ),
        (
            "app/Cargo.toml",
            r#"
[package]
name = "app"
version.workspace = true
"#,
        ),
        ("app/src/lib.rs", ""),
    ]);
    let err = import_error(&dir, "aarch64-apple-darwin");
    assert!(err.contains("inherits version"), "{err}");
}

#[test]
fn imports_lib_name_override() {
    let dir = write_tree(&[
        (
            "Cargo.toml",
            r#"
[workspace]
members = ["app"]
resolver = "2"
"#,
        ),
        (
            "app/Cargo.toml",
            r#"
[package]
name = "app"
version = "0.1.0"
edition = "2021"

[lib]
name = "app_core"
"#,
        ),
        ("app/src/lib.rs", ""),
    ]);
    let model = import(&dir, "aarch64-apple-darwin").unwrap();
    let app = model.packages.iter().find(|p| p.name == "app").unwrap();
    assert_eq!(app.lib.as_ref().unwrap().name.as_deref(), Some("app_core"));
}

#[test]
fn auto_detects_build_rs_without_a_build_key() {
    let dir = write_tree(&[
        (
            "Cargo.toml",
            r#"
[workspace]
members = ["app"]
resolver = "2"
"#,
        ),
        (
            "app/Cargo.toml",
            "[package]\nname = \"app\"\nversion = \"0.1.0\"\nedition = \"2021\"\n",
        ),
        ("app/src/lib.rs", ""),
        ("app/build.rs", "fn main() {}"),
    ]);
    let model = import(&dir, "aarch64-apple-darwin").unwrap();
    let app = model.packages.iter().find(|p| p.name == "app").unwrap();
    assert_eq!(app.build_script.as_deref(), Some("build.rs"));
}

#[test]
fn build_false_disables_auto_detection() {
    let dir = write_tree(&[
        (
            "Cargo.toml",
            r#"
[workspace]
members = ["app"]
resolver = "2"
"#,
        ),
        (
            "app/Cargo.toml",
            "[package]\nname = \"app\"\nversion = \"0.1.0\"\nedition = \"2021\"\nbuild = false\n",
        ),
        ("app/src/lib.rs", ""),
        // A build.rs exists, but the manifest opts out (Cargo semantics).
        ("app/build.rs", "fn main() {}"),
    ]);
    let model = import(&dir, "aarch64-apple-darwin").unwrap();
    let app = model.packages.iter().find(|p| p.name == "app").unwrap();
    assert!(app.build_script.is_none());
}

#[test]
fn build_true_is_a_targeted_error() {
    let dir = write_tree(&[
        (
            "Cargo.toml",
            r#"
[workspace]
members = ["app"]
resolver = "2"
"#,
        ),
        (
            "app/Cargo.toml",
            "[package]\nname = \"app\"\nversion = \"0.1.0\"\nedition = \"2021\"\nbuild = true\n",
        ),
        ("app/src/lib.rs", ""),
    ]);
    let err = import_error(&dir, "aarch64-apple-darwin");
    assert!(err.contains("build = true"), "{err}");
}

#[test]
fn reads_profiles() {
    let dir = write_tree(&[
        (
            "Cargo.toml",
            r#"
[package]
name = "app"
version = "0.1.0"
edition = "2021"

[profile.release]
opt-level = 2
lto = "thin"
panic = "abort"
codegen-units = 4
overflow-checks = false
"#,
        ),
        ("src/main.rs", "fn main() {}"),
    ]);
    let model = import(&dir, "aarch64-apple-darwin").unwrap();
    let release = model.profiles.get("release").unwrap();
    assert_eq!(release.opt_level, "2");
    assert_eq!(release.lto, Lto::Thin);
    assert_eq!(release.panic, PanicStrategy::Abort);
    assert_eq!(release.codegen_units, Some(4));
    assert_eq!(release.overflow_checks, Some(false));
    // New parity keys map through.
    assert_eq!(release.debug_assertions, Some(false));
    assert_eq!(release.rpath, None);
}

#[test]
fn filters_target_specific_dependencies() {
    let dir = write_tree(&[
        (
            "Cargo.toml",
            r#"
[package]
name = "app"
version = "0.1.0"
edition = "2021"

[dependencies]
common = { path = "../common" }

[target.'cfg(unix)'.dependencies]
unix-only = { path = "../unix-only" }

[target.'cfg(windows)'.dependencies]
win-only = { path = "../win-only" }
"#,
        ),
        ("src/main.rs", "fn main() {}"),
        (
            "../common/Cargo.toml",
            "[package]\nname = \"common\"\nversion = \"0.1.0\"\nedition = \"2021\"\n",
        ),
        ("../common/src/lib.rs", ""),
        (
            "../unix-only/Cargo.toml",
            "[package]\nname = \"unix-only\"\nversion = \"0.1.0\"\nedition = \"2021\"\n",
        ),
        ("../unix-only/src/lib.rs", ""),
        (
            "../win-only/Cargo.toml",
            "[package]\nname = \"win-only\"\nversion = \"0.1.0\"\nedition = \"2021\"\n",
        ),
        ("../win-only/src/lib.rs", ""),
    ]);
    let model = import(&dir, "aarch64-apple-darwin").unwrap();
    // Target-specific deps stay in the model with their target
    // recorded (cargo locks all targets); the backend filters them at
    // plan time.
    let app = model.packages.iter().find(|p| p.name == "app").unwrap();
    let names: Vec<&str> = app.deps.iter().map(|d| d.package.name.as_str()).collect();
    assert!(names.contains(&"common"));
    assert!(names.contains(&"unix-only"));
    assert!(names.contains(&"win-only"));
    let win = app
        .deps
        .iter()
        .find(|d| d.package.name == "win-only")
        .unwrap();
    assert_eq!(win.target.as_deref(), Some("cfg(windows)"));
    assert_eq!(
        app.deps
            .iter()
            .find(|d| d.package.name == "unix-only")
            .unwrap()
            .target
            .as_deref(),
        Some("cfg(unix)")
    );

    // The Windows import keeps the same model shape (targets recorded).
    let model = import(&dir, "x86_64-pc-windows-msvc").unwrap();
    let app = model.packages.iter().find(|p| p.name == "app").unwrap();
    let names: Vec<&str> = app.deps.iter().map(|d| d.package.name.as_str()).collect();
    assert!(names.contains(&"unix-only"));
    assert!(names.contains(&"win-only"));
}

#[test]
fn preserves_same_name_edges_for_all_targets() {
    let dir = write_tree(&[
        (
            "Cargo.toml",
            r#"
[package]
name = "app"
version = "0.1.0"
edition = "2021"

[dependencies]
shared = { path = "../common" }

[target.'cfg(windows)'.dependencies]
shared = { path = "../windows" }
"#,
        ),
        ("src/main.rs", "fn main() {}"),
        (
            "../common/Cargo.toml",
            "[package]\nname = \"shared\"\nversion = \"1.0.0\"\nedition = \"2021\"\n",
        ),
        ("../common/src/lib.rs", ""),
        (
            "../windows/Cargo.toml",
            "[package]\nname = \"shared\"\nversion = \"1.0.0\"\nedition = \"2021\"\n",
        ),
        ("../windows/src/lib.rs", ""),
    ]);
    let model = import(&dir, "aarch64-apple-darwin").unwrap();
    let app = model.packages.iter().find(|pkg| pkg.name == "app").unwrap();
    assert_eq!(app.deps.len(), 2);
    assert_eq!(
        app.deps
            .iter()
            .filter(|dep| dep.extern_name == "shared")
            .count(),
        2
    );
    assert!(app.deps.iter().any(|dep| dep.target.is_none()));
    assert!(
        app.deps
            .iter()
            .any(|dep| dep.target.as_deref() == Some("cfg(windows)"))
    );
}

#[test]
fn dep_table_target_key_filters() {
    let dir = write_tree(&[
        (
            "Cargo.toml",
            r#"
[package]
name = "app"
version = "0.1.0"
edition = "2021"

[dependencies]
unix-only = { path = "../unix-only", target = "cfg(unix)" }
win-only = { path = "../win-only", target = "cfg(windows)" }
"#,
        ),
        ("src/main.rs", "fn main() {}"),
        (
            "../unix-only/Cargo.toml",
            "[package]\nname = \"unix-only\"\nversion = \"0.1.0\"\nedition = \"2021\"\n",
        ),
        ("../unix-only/src/lib.rs", ""),
        (
            "../win-only/Cargo.toml",
            "[package]\nname = \"win-only\"\nversion = \"0.1.0\"\nedition = \"2021\"\n",
        ),
        ("../win-only/src/lib.rs", ""),
    ]);
    let model = import(&dir, "aarch64-apple-darwin").unwrap();
    // Both target-keyed deps are in the model with their targets; the
    // backend filters at plan time.
    let app = model.packages.iter().find(|p| p.name == "app").unwrap();
    assert_eq!(app.deps.len(), 2);
    assert_eq!(app.deps[0].package.name, "unix-only");
    assert_eq!(app.deps[1].package.name, "win-only");
    assert_eq!(app.deps[1].target.as_deref(), Some("cfg(windows)"));
}

#[test]
fn unknown_cfg_predicates_evaluate_false() {
    let dir = write_tree(&[
        (
            "Cargo.toml",
            r#"
[package]
name = "app"
version = "0.1.0"
edition = "2021"

[target.'cfg(target_unknown = "x")'.dependencies]
foo = { path = "../foo" }
"#,
        ),
        ("src/main.rs", "fn main() {}"),
        (
            "../foo/Cargo.toml",
            "[package]\nname = \"foo\"\nversion = \"0.1.0\"\nedition = \"2021\"\n",
        ),
        ("../foo/src/lib.rs", ""),
    ]);
    // An unknown predicate is never set by the compiler: the import
    // records it as the dep's target (no error); the backend filters
    // it out at plan time.
    let model = import(&dir, "aarch64-apple-darwin").unwrap();
    let app = model.packages.iter().find(|p| p.name == "app").unwrap();
    assert_eq!(app.deps.len(), 1);
    assert_eq!(
        app.deps[0].target.as_deref(),
        Some("cfg(target_unknown = \"x\")")
    );
}

#[test]
fn rejects_invalid_strip_values() {
    let dir = write_tree(&[
        (
            "Cargo.toml",
            r#"
[package]
name = "app"
version = "0.1.0"
edition = "2021"

[profile.release]
strip = "everything"
"#,
        ),
        ("src/main.rs", "fn main() {}"),
    ]);
    let err = import_error(&dir, "aarch64-apple-darwin");
    assert!(err.contains("strip"), "{err}");
}

#[test]
fn selects_resolver_from_workspace_and_package() {
    // Explicit workspace resolver.
    let dir = write_tree(&[
        (
            "Cargo.toml",
            "[workspace]\nmembers = [\"app\"]\nresolver = \"3\"\n",
        ),
        (
            "app/Cargo.toml",
            "[package]\nname = \"app\"\nversion = \"0.1.0\"\nedition = \"2021\"\n",
        ),
        ("app/src/lib.rs", ""),
    ]);
    let model = import(&dir, "aarch64-apple-darwin").unwrap();
    assert_eq!(model.resolver, ResolverVersion::V3);

    // Resolver 1 is deliberately unsupported, even when explicit.
    let dir = write_tree(&[
        (
            "Cargo.toml",
            "[package]\nname = \"app\"\nversion = \"0.1.0\"\nedition = \"2024\"\nresolver = \"1\"\n",
        ),
        ("src/main.rs", "fn main() {}"),
    ]);
    let error = import_error(&dir, "aarch64-apple-darwin");
    assert!(error.contains("workspace.resolver = \"2\""));

    // Edition 2024 defaults to resolver 3; 2021 to 2.
    let dir = write_tree(&[
        (
            "Cargo.toml",
            "[package]\nname = \"app\"\nversion = \"0.1.0\"\nedition = \"2024\"\n",
        ),
        ("src/main.rs", "fn main() {}"),
    ]);
    let model = import(&dir, "aarch64-apple-darwin").unwrap();
    assert_eq!(model.resolver, ResolverVersion::V3);
    let dir = write_tree(&[
        (
            "Cargo.toml",
            "[package]\nname = \"app\"\nversion = \"0.1.0\"\nedition = \"2021\"\n",
        ),
        ("src/main.rs", "fn main() {}"),
    ]);
    let model = import(&dir, "aarch64-apple-darwin").unwrap();
    assert_eq!(model.resolver, ResolverVersion::V2);

    // Unsupported resolver values are targeted errors.
    let dir = write_tree(&[
        (
            "Cargo.toml",
            "[package]\nname = \"app\"\nversion = \"0.1.0\"\nedition = \"2021\"\nresolver = \"4\"\n",
        ),
        ("src/main.rs", "fn main() {}"),
    ]);
    let err = import_error(&dir, "aarch64-apple-darwin");
    assert!(err.contains("resolver"), "{err}");
}

#[test]
fn action_parity_package_links_unique() {
    // Two packages declaring the same `links` value must be rejected.
    let dir = write_tree(&[
        (
            "Cargo.toml",
            "[workspace]\nmembers = [\"a\", \"b\"]\nresolver = \"2\"\n",
        ),
        (
            "a/Cargo.toml",
            "[package]\nname = \"a\"\nversion = \"0.1.0\"\nedition = \"2021\"\nlinks = \"dup\"\n",
        ),
        ("a/src/lib.rs", ""),
        (
            "b/Cargo.toml",
            "[package]\nname = \"b\"\nversion = \"0.1.0\"\nedition = \"2021\"\nlinks = \"dup\"\n",
        ),
        ("b/src/lib.rs", ""),
    ]);
    let err = import_error(&dir, "aarch64-apple-darwin");
    assert!(err.contains("exactly one package per links"), "{err}");
}

// ---- Locked packages ---------------------------------------------------------------------

fn alpha_files() -> Files {
    let mut files = write_tree(&[
        (
            "Cargo.toml",
            r#"
[package]
name = "app"
version = "0.1.0"
edition = "2021"

[dependencies]
alpha1 = { package = "alpha", version = "=1.0.0" }
alpha2 = { package = "alpha", version = "=2.0.0" }
"#,
        ),
        (
            "src/main.rs",
            "fn main() { println!(\"{}\", alpha1::alpha() + alpha2::alpha()); }\n",
        ),
    ]);
    for version in ["1.0.0", "2.0.0"] {
        // Byte-identical library source for both versions.
        files.files.push((
            format!("/store/alpha-{version}/Cargo.toml"),
            format!("[package]\nname = \"alpha\"\nversion = \"{version}\"\nedition = \"2021\"\n"),
        ));
        files.files.push((
            format!("/store/alpha-{version}/src/lib.rs"),
            "pub fn alpha() -> u32 { 7 }\n".to_owned(),
        ));
    }
    files
}

fn registry_id(version: &str) -> PackageId {
    PackageId {
        name: "alpha".to_owned(),
        version: Version::parse(version).unwrap(),
        source: SourceId::Registry("fixture".to_owned()),
    }
}

fn locked_alpha(edge: &RegistryEdge) -> LockAnswer {
    let version = edge.req.strip_prefix('=').unwrap();
    Ok(Some(LockedSource {
        id: registry_id(version),
        source_dir: format!("/store/alpha-{version}"),
        propagate_source: false,
    }))
}

/// Resolves the features of a model's members.
fn with_features(mut model: RustModel, include_dev: bool) -> RustModel {
    let requests: Vec<FeatureRequest> = model
        .members
        .iter()
        .map(|id| FeatureRequest {
            package: id.clone(),
            features: Vec::new(),
            default_features: true,
        })
        .collect();
    model.feature_map = resolve_features(&model, &requests, include_dev).unwrap();
    model
}

fn toolchain() -> Toolchain {
    Toolchain {
        host_triple: "aarch64-apple-darwin".to_owned(),
        dll_extension: "dylib".to_owned(),
        version_verbose: "rustc 1.85.0".to_owned(),
        sysroot_tree: "00ff".to_owned(),
        rustc_path: "/tc/bin/rustc".to_owned(),
    }
}

/// A short hash of a text.
fn hash(text: &str) -> u64 {
    let mut h = 0xcbf2_9ce4_8422_2325u64;
    for byte in text.bytes() {
        h = (h ^ u64::from(byte)).wrapping_mul(0x0000_0100_0000_01b3);
    }
    h
}

fn tree(text: &str) -> Digest {
    let h = hash(text);
    Digest { a: h, b: !h, c: h, d: h }
}

/// Plans a model, answering for each metadata hash when it is asked for.
fn plan_with<T>(
    model: &RustModel,
    tests_enabled: bool,
    done: impl Fn(&Planner<'_>, Vec<Unit>) -> T,
) -> Result<T, PlanError> {
    let toolchain = toolchain();
    let disk = Disk::new();
    let test_args: Vec<String> = vec!["--nocapture".to_owned()];
    let roots = Vec::new();
    let mut metas: StrMap<StrMap<String>> = StrMap::new();
    loop {
        let planner = Planner {
            model,
            disk: &disk,
            toolchain: &toolchain,
            profile_name: "dev",
            profile: model.profiles.get("dev").unwrap(),
            tests_enabled,
            test_args: &test_args,
            metas: &metas,
            roots: &roots,
        };
        match plan(&planner) {
            Ok(units) => return Ok(done(&planner, units)),
            Err(PlanError::NeedMetadata { crate_name, kind }) => {
                let value = format!("{:016x}", hash(&metadata(&planner, &crate_name, &kind).join("|")));
                let mut known = StrMap::new();
                if let Some(old) = metas.get(&crate_name) {
                    for i in 0..old.len() {
                        known.insert(old.key(i).clone(), old.value(i).clone());
                    }
                }
                assert!(known.insert(kind, value));
                metas.insert(crate_name, known);
            }
            Err(other) => return Err(other),
        }
    }
}

fn plan_ids(model: &RustModel, tests_enabled: bool) -> Vec<String> {
    plan_with(model, tests_enabled, |_, units| {
        units.into_iter().map(|unit| unit.id).collect()
    })
    .unwrap()
}

/// The completed units of a plan: an output tree for each, and the standard
/// output of those that are named.
fn completed(units: &[Unit], stdout: &[(&str, &str)]) -> Completed {
    let mut done = Completed { outputs: StrMap::new(), stdout: StrMap::new() };
    for unit in units {
        done.outputs.insert(unit.id.clone(), tree(&unit.id));
    }
    for (id, text) in stdout {
        done.stdout.insert((*id).to_owned(), (*text).to_owned());
    }
    done
}

fn act(model: &RustModel, unit: &Unit, done: &Completed) -> Result<Action, PlanError> {
    act_for(model, unit, done, None)
}

/// The action of a unit in a build for a target.
fn act_for(
    model: &RustModel,
    unit: &Unit,
    done: &Completed,
    target: Option<&str>,
) -> Result<Action, PlanError> {
    let none = StrMap::new();
    let natives = StrMap::new();
    let cfgs = build_script_cfgs(&TripleFacts {
        arch: "aarch64".to_owned(),
        os: "macos".to_owned(),
        family: "unix".to_owned(),
        env: String::new(),
        vendor: "apple".to_owned(),
        pointer_width: "64".to_owned(),
        endian: "little".to_owned(),
    });
    let package = &model.packages[unit.package];
    concretize(
        &ActionInputs {
            exec_root: "@root@",
            source_tree: tree(&package.name),
            package,
            global_env: &model.global_env,
            run_env: &none,
            natives: &natives,
            completed: done,
            host_triple: "aarch64-apple-darwin",
            target,
            bundle: tree("bundle"),
            opt_level: "0",
            debug: true,
            profile: "dev",
            rustc_path: "/tc/bin/rustc",
            program_path: "/bin/tong",
            cfgs: &cfgs,
            host_cfgs: &cfgs,
        },
        unit,
    )
}

#[test]
fn multiple_versions_remain_distinct() {
    let files = alpha_files();
    let model =
        import_with(&files, "aarch64-apple-darwin", false, None, &locked_alpha).unwrap();

    // 1. Distinct package identities: two `alpha` packages with different
    // versions, same registry source.
    let alphas: Vec<_> = model.packages.iter().filter(|pkg| pkg.name == "alpha").collect();
    assert_eq!(alphas.len(), 2, "both alpha versions must be imported");
    let ids: Vec<&PackageId> = alphas.iter().map(|pkg| &pkg.id).collect();
    assert_ne!(ids[0], ids[1]);
    assert_eq!(ids[0].name, "alpha");
    assert_eq!(ids[1].name, "alpha");
    assert!(ids.iter().any(|id| id.version.major == 1));
    assert!(ids.iter().any(|id| id.version.major == 2));
    // The app's edges point at the exact identities.
    let app = model.packages.iter().find(|pkg| pkg.name == "app").unwrap();
    assert_eq!(app.deps.len(), 2);
    let dep_ids: Vec<&PackageId> = app.deps.iter().map(|dep| &dep.package).collect();
    assert_eq!(dep_ids, vec![ids[0], ids[1]]);

    // 2. Feature sets resolve separately per identity.
    let ids: Vec<PackageId> = ids.into_iter().cloned().collect();
    let model = with_features(model, false);
    for id in &ids {
        assert!(model.feature_map.packages.contains_key(id));
    }

    // 3. Action ids and actions stay distinct and deterministic.
    let actions = |model: &RustModel| -> Vec<(String, String)> {
        plan_with(model, false, |_, units| {
            let done = completed(&units, &[]);
            units
                .iter()
                .map(|unit| (unit.id.clone(), format!("{:?}", act(model, unit, &done).unwrap())))
                .collect()
        })
        .unwrap()
    };
    let planned = actions(&model);
    let libs: Vec<&(String, String)> =
        planned.iter().filter(|(id, _)| id.starts_with("rust:lib:alpha")).collect();
    assert_eq!(libs.len(), 2, "two lib actions: {libs:?}");
    // The disambiguated labels must differ.
    assert_ne!(libs[0].0, libs[1].0);
    // No version aliasing.
    assert_ne!(libs[0].1, libs[1].1);
    assert_eq!(planned, actions(&model));
}

#[test]
fn collecting_keeps_registry_edges_for_the_lockfile() {
    let files = write_tree(&[
        (
            "Cargo.toml",
            "[package]\nname = \"app\"\nversion = \"0.1.0\"\nedition = \"2021\"\n\n[dependencies]\nserde = \"1\"\n",
        ),
        ("src/main.rs", "fn main() {}"),
    ]);
    let model = import_with(&files, "aarch64-apple-darwin", true, None, &|_| Ok(None)).unwrap();
    let app = &model.packages[0];
    assert_eq!(app.deps.len(), 1);
    assert_eq!(app.deps[0].package.name, "serde");
    assert_eq!(app.deps[0].package.source, SourceId::Registry(String::new()));
}

#[test]
fn configured_flags_win_over_those_of_the_environment() {
    let package = "[package]\nname = \"app\"\nversion = \"0.1.0\"\nedition = \"2021\"\n";
    let encoded = Some("-C target-cpu=native");
    let flags = |config: Option<&str>| {
        let mut files = write_tree(&[("Cargo.toml", package), ("src/main.rs", "fn main() {}")]);
        if let Some(config) = config {
            files.files.push(("/fixture/ws/.cargo/config.toml".to_owned(), config.to_owned()));
        }
        import_with(&files, "aarch64-apple-darwin", false, encoded, &no_lock)
            .unwrap()
            .global_rustflags
    };
    assert_eq!(flags(None), vec!["-C", "target-cpu=native"]);
    let build = "[build]\nrustflags = \"-Cdebuginfo=1\"\n";
    assert_eq!(flags(Some(build)), vec!["-Cdebuginfo=1"]);
    let target = "[build]\nrustflags = \"-Cdebuginfo=1\"\n\n[target.'cfg(unix)']\nrustflags = [\"-g\"]\nlinker = \"ld\"\n\n[target.'cfg(windows)']\nrustflags = [\"-x\"]\n";
    assert_eq!(flags(Some(target)), vec!["-g", "-C", "linker=ld"]);
}

#[test]
fn unsupported_configuration_is_a_targeted_error() {
    for (source, expected) in [
        ("[build]\ntarget = \"wasm32-unknown-unknown\"\n", "[build] target"),
        ("[registries.x]\nindex = \"y\"\n", "registries"),
        ("[source.x]\nregistry = \"y\"\n", "source"),
        ("[net]\noffline = true\n", "net"),
        ("[http]\nproxy = \"x\"\n", "http"),
    ] {
        let files = write_tree(&[
            (
                "Cargo.toml",
                "[package]\nname = \"app\"\nversion = \"0.1.0\"\nedition = \"2021\"\n",
            ),
            ("src/main.rs", "fn main() {}"),
            (".cargo/config.toml", source),
        ]);
        let err = import_error(&files, "aarch64-apple-darwin");
        assert!(err.contains(expected), "{err}");
    }
}

#[test]
fn members_are_expanded_and_excluded() {
    let files = write_tree(&[
        (
            "Cargo.toml",
            "[workspace]\nmembers = [\"crates/*\"]\nexclude = [\"crates/skip\"]\ndefault-members = [\"crates/a\"]\nresolver = \"2\"\n",
        ),
        (
            "crates/b/Cargo.toml",
            "[package]\nname = \"b\"\nversion = \"0.1.0\"\nedition = \"2021\"\n",
        ),
        ("crates/b/src/lib.rs", ""),
        (
            "crates/a/Cargo.toml",
            "[package]\nname = \"a\"\nversion = \"0.1.0\"\nedition = \"2021\"\n",
        ),
        ("crates/a/src/lib.rs", ""),
        (
            "crates/skip/Cargo.toml",
            "[package]\nname = \"skip\"\nversion = \"0.1.0\"\nedition = \"2021\"\n",
        ),
        ("crates/skip/src/lib.rs", ""),
        ("crates/notes.txt", ""),
    ]);
    let model = import(&files, "aarch64-apple-darwin").unwrap();
    let names: Vec<&str> = model.members.iter().map(|id| id.name.as_str()).collect();
    assert_eq!(names, vec!["a", "b"]);
    let defaults: Vec<&str> = model.default_members.iter().map(|id| id.name.as_str()).collect();
    assert_eq!(defaults, vec!["a"]);
}

#[test]
fn profile_chains_are_checked_for_cycles() {
    let cyclic = manifest(
        "[profile.a]\ninherits = \"b\"\n\n[profile.b]\ninherits = \"a\"\n",
    );
    assert!(!profile_chains_end(&cyclic.profile));
    let chained = manifest(
        "[profile.a]\ninherits = \"b\"\n\n[profile.b]\ninherits = \"release\"\nopt-level = 1\n",
    );
    assert!(profile_chains_end(&chained.profile));
    let files = write_tree(&[
        (
            "Cargo.toml",
            "[package]\nname = \"app\"\nversion = \"0.1.0\"\nedition = \"2021\"\n\n[profile.a]\ninherits = \"b\"\n\n[profile.b]\ninherits = \"release\"\nopt-level = 1\n",
        ),
        ("src/main.rs", ""),
    ]);
    let model = import(&files, "aarch64-apple-darwin").unwrap();
    let a = model.profiles.get("a").unwrap();
    assert_eq!(a.opt_level, "1");
    assert_eq!(a.debug_assertions, model.profiles.get("release").unwrap().debug_assertions);
}

#[test]
fn profile_errors_are_targeted() {
    for (table, expected) in [
        ("[profile.a]\ninherits = \"ghost\"\n", "inherits unknown profile \"ghost\""),
        ("[profile.a]\ninherits = \"a\"\n", "inherits itself"),
        ("[profile.dev]\nopt-level = 7\n", "opt-level"),
        ("[profile.dev]\npanic = \"shrug\"\n", "panic"),
        ("[profile.dev]\nlto = \"some\"\n", "lto"),
        ("[profile.dev.build-override]\nopt-level = 3\n", "build-override"),
        ("[profile.dev]\nsplit-debuginfo = \"x\"\n", "split-debuginfo"),
        ("[profile.dev.package.p]\ninherits = \"dev\"\n", "sets inherits"),
        ("[profile.dev.package.p]\nstrip = \"all\"\n", "strip = \"all\""),
        ("[profile.dev.package.p]\nsplit-debuginfo = \"x\"\n", "split-debuginfo = \"x\""),
    ] {
        let text = format!(
            "[package]\nname = \"app\"\nversion = \"0.1.0\"\nedition = \"2021\"\n\n{table}"
        );
        let files = write_tree(&[("Cargo.toml", text.as_str()), ("src/main.rs", "")]);
        let err = import_error(&files, "aarch64-apple-darwin");
        assert!(err.contains(expected), "{err}");
    }
}

#[test]
fn package_overrides_stand_over_their_profile() {
    let files = write_tree(&[
        (
            "Cargo.toml",
            "[package]\nname = \"app\"\nversion = \"0.1.0\"\nedition = \"2021\"\n\n[profile.dev]\nopt-level = 1\n\n[profile.dev.package.app]\nopt-level = 3\n",
        ),
        ("src/main.rs", ""),
    ]);
    let model = import(&files, "aarch64-apple-darwin").unwrap();
    assert_eq!(model.profiles.get("dev").unwrap().opt_level, "1");
    let overrides = model.package_profiles.get("dev").unwrap();
    assert_eq!(overrides.get("app").unwrap().opt_level, "3");
}

#[test]
fn requested_incremental_compilation_is_noted() {
    let m = manifest("[profile.dev]\nincremental = true\n");
    let notes = incremental_notes(&m.profile);
    assert_eq!(notes.len(), 1);
    assert!(notes[0].contains("incremental"), "{notes:?}");
    assert!(incremental_notes(&manifest("").profile).is_empty());
}

#[test]
fn patched_names_are_listed_in_order() {
    let m = manifest(
        "[patch.crates-io]\nzeta = { path = \"z\" }\nalpha = { path = \"a\" }\n",
    );
    assert_eq!(cargo_patch_names(&m), vec!["alpha", "zeta"]);
    let m = manifest(
        "[patch.\"registry+https://example.com/index\"]\nfoo = { path = \"foo\" }\nbar = { path = \"bar\" }\n",
    );
    assert_eq!(cargo_patch_names(&m), vec!["bar", "foo"]);
    // Beside `crates-io` no other table replaces anything.
    let m = manifest(
        "[patch.\"registry+https://example.com/index\"]\nfoo = { path = \"foo\" }\n\n[patch.crates-io]\nbar = { path = \"bar\" }\n",
    );
    assert_eq!(cargo_patch_names(&m), vec!["bar"]);
    assert!(cargo_patch_names(&manifest("")).is_empty());
}

#[test]
fn native_imports_have_a_file_name() {
    let import = |shared: &str| CcImport {
        name: "sdl".to_owned(),
        shared: shared.to_owned(),
        link_name: "SDL3".to_owned(),
    };
    assert_eq!(cc_file_name(&import("/usr/lib/libSDL3.dylib")), "libSDL3.dylib");
    assert_eq!(cc_file_name(&import("/")), "lib");
}

#[test]
fn unreadable_manifests_are_reported() {
    let files = write_tree(&[("README.md", "")]);
    let err = import_error(&files, "aarch64-apple-darwin");
    assert!(err.starts_with("cannot read /fixture/ws/Cargo.toml: "), "{err}");
    assert_eq!(
        CargoImportError::Parse("Cargo.toml".to_owned(), "bad".to_owned()).to_text(),
        "cannot parse Cargo.toml: bad"
    );
}

// ---- Plans -------------------------------------------------------------------------------

/// A workspace with every kind of target.
fn fixture() -> Files {
    write_tree(&[
        (
            "Cargo.toml",
            "[workspace]\nmembers = [\"crates/native-lib\", \"crates/app\"]\nresolver = \"2\"\n",
        ),
        (
            "crates/native-lib/Cargo.toml",
            "[package]\nname = \"native-lib\"\nversion = \"1.2.3\"\nedition = \"2021\"\nlinks = \"native_lib\"\n",
        ),
        ("crates/native-lib/build.rs", ""),
        ("crates/native-lib/src/lib.rs", ""),
        (
            "crates/app/Cargo.toml",
            "[package]\nname = \"app\"\nversion = \"4.5.6-beta.1\"\nedition = \"2021\"\nauthors = [\"Ada\", \"Grace\"]\ndescription = \"environment fixture\"\nhomepage = \"https://example.com/app\"\nrepository = \"https://example.com/repo\"\nlicense = \"MIT\"\nlicense-file = \"LICENSE\"\nreadme = \"README.md\"\nrust-version = \"1.85\"\n\n[dependencies]\nnative-lib = { path = \"../native-lib\" }\n\n[build-dependencies]\nnative-lib = { path = \"../native-lib\" }\n\n[features]\ndefault = []\ngated = []\n\n[[bin]]\nname = \"app\"\npath = \"src/main.rs\"\n\n[[example]]\nname = \"gated\"\npath = \"examples/gated.rs\"\nrequired-features = [\"gated\"]\n",
        ),
        ("crates/app/build.rs", ""),
        ("crates/app/src/main.rs", ""),
        ("crates/app/src/lib.rs", ""),
        ("crates/app/tests/bin_env.rs", ""),
        // An integration test may share the library's name.
        ("crates/app/tests/app.rs", ""),
        ("crates/app/benches/bench.rs", ""),
        ("crates/app/examples/gated.rs", ""),
        ("crates/app/examples/plain.rs", ""),
    ])
}

fn fixture_model() -> RustModel {
    with_features(import(&fixture(), "aarch64-apple-darwin").unwrap(), true)
}

#[test]
fn every_kind_of_target_is_planned() {
    let ids = plan_ids(&fixture_model(), true);
    assert!(ids.iter().any(|id| id.starts_with("rust:example:")), "{ids:?}");
    assert!(ids.iter().any(|id| id.contains("bench")), "{ids:?}");
    assert!(ids.iter().any(|id| id.starts_with("rust:test-run:")), "{ids:?}");
    for id in [
        "rust:bs-compile:native-lib",
        "rust:bs-run:native-lib",
        "rust:lib:native-lib:rlib",
        "rust:bin:app:app",
        "rust:test-compile:app:lib:app",
        "rust:test-compile:app:test:app",
        "rust:test-run:app:test:bin_env",
    ] {
        assert!(ids.iter().any(|other| other == id), "{id}: {ids:?}");
    }
    // Normal builds have no tests and no examples.
    let ids = plan_ids(&fixture_model(), false);
    assert!(!ids.iter().any(|id| id.contains("test") || id.contains("example")), "{ids:?}");
}

#[test]
fn action_parity_target_kinds() {
    let ids = plan_ids(&fixture_model(), true);
    // Examples and benches are planned in test builds.
    assert!(
        ids.iter().any(|id| id.starts_with("rust:example:")),
        "examples must be planned: {ids:?}"
    );
    assert!(ids.iter().any(|id| id.contains("bench")), "benches must be planned: {ids:?}");
    // Test runs (uncached) plus compile actions.
    assert!(ids.iter().any(|id| id.starts_with("rust:test-run:")), "{ids:?}");
    assert!(ids.iter().any(|id| id.starts_with("rust:test-compile:")), "{ids:?}");
    for id in [
        "rust:test-compile:app:lib:app",
        "rust:test-compile:app:test:app",
        "rust:bs-run:native-lib",
        "rust:bs-run:native-lib:host",
    ] {
        assert!(ids.iter().any(|other| other == id), "{id}: {ids:?}");
    }
    assert!(ids.iter().any(|id| id.starts_with("rust:bin:app:app")), "{ids:?}");
}

#[test]
fn action_parity_check_emits_metadata() {
    let ids = plan_ids(&fixture_model(), true);
    assert!(ids.iter().any(|id| id.starts_with("rust:bin:app:app")), "{ids:?}");
}

#[test]
fn action_parity_host_and_target_units_separate() {
    let model = with_features(import(&fixture(), "aarch64-apple-darwin").unwrap(), false);
    let host = "aarch64-apple-darwin";
    plan_with(&model, false, |_, units| {
        let done = completed(&units, &[]);
        for unit in &units {
            let action = act_for(&model, unit, &done, Some("wasm32-unknown-unknown")).unwrap();
            let args = &action.arguments;
            let targeted = args.iter().any(|arg| arg == "--target");
            if unit.id.starts_with("rust:bs-run:") {
                assert!(!targeted, "host build-script run must not use --target: {args:?}");
                assert_eq!(
                    action.environment.get("TARGET").map(String::as_str),
                    if unit.id.ends_with(":host") {
                        Some(host)
                    } else {
                        Some("wasm32-unknown-unknown")
                    }
                );
                assert_eq!(action.environment.get("HOST").map(String::as_str), Some(host));
            }
            if unit.id.starts_with("rust:bs-compile:") {
                assert!(!targeted, "host build-script compile must not use --target: {args:?}");
            }
            if unit.id.starts_with("rust:lib:") {
                if unit.id.ends_with(":host") {
                    assert!(!targeted, "host dependency lib must not use --target: {args:?}");
                } else {
                    assert!(targeted, "target lib must use --target: {args:?}");
                }
            }
        }
        // What the build script of the app links is for the host.
        let script = units.iter().find(|unit| unit.id == "rust:bs-compile:app").unwrap();
        assert!(script.deps().iter().any(|id| id == "rust:lib:native-lib:rlib:host"));
        assert!(units.iter().all(|unit| unit.id != "rust:lib:app:rlib:host"));
    })
    .unwrap();
}

#[test]
fn scripts_find_their_package_and_platform() {
    let model = fixture_model();
    plan_with(&model, false, |_, units| {
        let done = completed(&units, &[]);
        let run = units.iter().find(|unit| unit.id == "rust:bs-run:native-lib").unwrap();
        let env = act(&model, run, &done).unwrap().environment;
        assert_eq!(env.get("CARGO_MANIFEST_LINKS").unwrap(), "native_lib");
        assert_eq!(env.get("CARGO_MANIFEST_PATH").unwrap(), "@root@/in/Cargo.toml");
        assert_eq!(env.get("CARGO_CFG_TARGET_ENDIAN").unwrap(), "little");
        assert_eq!(env.get("TARGET").unwrap(), env.get("HOST").unwrap());
        // Compilations find their package too.
        let bin = units.iter().find(|unit| unit.id == "rust:bin:app:app").unwrap();
        let env = act(&model, bin, &done).unwrap().environment;
        assert_eq!(env.get("CARGO_PKG_NAME").unwrap(), "app");
        assert_eq!(env.get("CARGO_PKG_VERSION_PRE").unwrap(), "beta.1");
        for (name, value) in [
            ("CARGO_PKG_AUTHORS", "Ada:Grace"),
            ("CARGO_PKG_DESCRIPTION", "environment fixture"),
            ("CARGO_PKG_HOMEPAGE", "https://example.com/app"),
            ("CARGO_PKG_REPOSITORY", "https://example.com/repo"),
            ("CARGO_PKG_LICENSE", "MIT"),
            ("CARGO_PKG_LICENSE_FILE", "LICENSE"),
            ("CARGO_PKG_README", "README.md"),
            ("CARGO_PKG_RUST_VERSION", "1.85"),
        ] {
            assert_eq!(env.get(name).unwrap(), value, "{name}");
        }
    })
    .unwrap();
}

#[test]
fn tests_find_the_binaries_of_their_package() {
    let model = fixture_model();
    plan_with(&model, true, |_, units| {
        let done = completed(&units, &[]);
        for id in ["rust:test-compile:app:test:bin_env", "rust:test-run:app:test:bin_env"] {
            let unit = units.iter().find(|unit| unit.id == id).unwrap();
            assert!(unit.deps().iter().any(|id| id == "rust:bin:app:app"), "{id}");
            let action = act(&model, unit, &done).unwrap();
            assert_eq!(
                action.environment.get("CARGO_BIN_EXE_app").unwrap(),
                "@root@/in/bins/app"
            );
            let tree = done.outputs.get("rust:bin:app:app").unwrap();
            assert!(action.mounts.iter().any(|(path, mounted)| path == "bins" && mounted == tree));
        }
        // Unit tests and binaries find none.
        for id in ["rust:test-compile:app:lib:app", "rust:bin:app:app"] {
            let unit = units.iter().find(|unit| unit.id == id).unwrap();
            let action = act(&model, unit, &done).unwrap();
            assert!(action.environment.get("CARGO_BIN_EXE_app").is_none(), "{id}");
            assert!(action.mounts.iter().all(|(path, _)| path != "bins"), "{id}");
        }
    })
    .unwrap();
}

#[test]
fn what_tells_of_a_package_is_inherited() {
    let files = write_tree(&[
        (
            "Cargo.toml",
            "[workspace]\nmembers = [\"a\"]\nresolver = \"2\"\n\n[workspace.package]\nauthors = [\"Ada\", \"Grace\"]\nlicense = \"MIT\"\n",
        ),
        (
            "a/Cargo.toml",
            "[package]\nname = \"a\"\nversion = \"0.1.0\"\nedition = \"2021\"\nlicense = \"Zlib\"\nauthors.workspace = true\nreadme.workspace = true\n",
        ),
        ("a/src/lib.rs", ""),
    ]);
    let model = import(&files, "aarch64-apple-darwin").unwrap();
    let env = &model.packages[0].env;
    assert_eq!(env.get("CARGO_PKG_AUTHORS").unwrap(), "Ada:Grace");
    assert_eq!(env.get("CARGO_PKG_LICENSE").unwrap(), "Zlib");
    assert_eq!(env.get("CARGO_PKG_README").unwrap(), "");
    assert_eq!(env.get("CARGO_PKG_DESCRIPTION").unwrap(), "");
}

#[test]
fn host_units_have_the_features_of_the_host_domain() {
    let files = write_tree(&[
        ("Cargo.toml", "[workspace]\nmembers = [\"app\", \"tool\"]\nresolver = \"3\"\n"),
        (
            "app/Cargo.toml",
            "[package]\nname = \"app\"\nversion = \"0.1.0\"\nedition = \"2021\"\n\n[dependencies]\ntool = { path = \"../tool\" }\n\n[build-dependencies]\ntool = { path = \"../tool\", features = [\"hot\"] }\n",
        ),
        ("app/build.rs", ""),
        ("app/src/main.rs", ""),
        (
            "tool/Cargo.toml",
            "[package]\nname = \"tool\"\nversion = \"0.1.0\"\nedition = \"2021\"\n\n[features]\nhot = []\n",
        ),
        ("tool/src/lib.rs", ""),
    ]);
    let model = with_features(import(&files, "aarch64-apple-darwin").unwrap(), false);
    plan_with(&model, false, |_, units| {
        let done = completed(&units, &[]);
        let hot = |id: &str| {
            let unit = units.iter().find(|unit| unit.id == id).unwrap();
            let args = act(&model, unit, &done).unwrap().arguments;
            args.iter().any(|arg| arg == "feature=\"hot\"")
        };
        assert!(hot("rust:lib:tool:rlib:host"));
        assert!(!hot("rust:lib:tool:rlib"));
    })
    .unwrap();
}

#[test]
fn tests_without_the_harness_are_programs() {
    let files = write_tree(&[
        (
            "Cargo.toml",
            "[package]\nname = \"app\"\nversion = \"0.1.0\"\nedition = \"2021\"\n\n[[test]]\nname = \"plain\"\nharness = false\n\n[[test]]\nname = \"usual\"\n",
        ),
        ("build.rs", ""),
        ("src/main.rs", ""),
        ("tests/plain.rs", ""),
        ("tests/usual.rs", ""),
        ("examples/demo.rs", ""),
    ]);
    let model = with_features(import(&files, "aarch64-apple-darwin").unwrap(), true);
    plan_with(&model, true, |_, units| {
        let script = "cargo:rustc-link-arg-bins=-b\ncargo:rustc-link-arg-tests=-t\ncargo:rustc-link-arg-examples=-e\n";
        let done = completed(&units, &[("rust:bs-run:app", script)]);
        let args = |id: &str| {
            let unit = units.iter().find(|unit| unit.id == id).unwrap();
            act(&model, unit, &done).unwrap().arguments
        };
        let has = |args: &[String], arg: &str| args.iter().any(|other| other == arg);
        let plain = args("rust:test-compile:app:test:plain");
        assert!(!has(&plain, "--test") && has(&plain, "bin"), "{plain:?}");
        assert!(has(&plain, "link-arg=-t") && !has(&plain, "link-arg=-b"), "{plain:?}");
        let usual = args("rust:test-compile:app:test:usual");
        assert!(has(&usual, "--test") && has(&usual, "link-arg=-t"), "{usual:?}");
        let demo = args("rust:example:app:demo");
        assert!(has(&demo, "link-arg=-e") && !has(&demo, "link-arg=-b"), "{demo:?}");
        assert!(has(&args("rust:bin:app:app"), "link-arg=-b"));
    })
    .unwrap();
}

#[test]
fn binaries_are_discovered_beside_the_main_one() {
    let base = "[package]\nname = \"app\"\nversion = \"0.1.0\"\nedition = \"2021\"\n";
    let bins = |more: &str| -> Vec<(String, String)> {
        let text = format!("{base}{more}");
        let files = write_tree(&[
            ("Cargo.toml", text.as_str()),
            ("src/main.rs", ""),
            ("src/bin/tool.rs", ""),
            ("src/bin/notes.txt", ""),
        ]);
        let model = import(&files, "aarch64-apple-darwin").unwrap();
        model.packages[0].bins.iter().map(|b| (b.name.clone(), b.path.clone())).collect()
    };
    let pair = |name: &str, path: &str| (name.to_owned(), path.to_owned());
    assert_eq!(bins(""), vec![pair("app", "src/main.rs"), pair("tool", "src/bin/tool.rs")]);
    assert_eq!(bins("autobins = false\n"), vec![]);
    let declared = "\n[[bin]]\nname = \"other\"\npath = \"src/bin/tool.rs\"\n";
    assert_eq!(bins(declared), vec![pair("other", "src/bin/tool.rs")]);
}

#[test]
fn bare_versions_in_target_tables_keep_their_target() {
    let files = write_tree(&[
        (
            "Cargo.toml",
            "[package]\nname = \"app\"\nversion = \"0.1.0\"\nedition = \"2021\"\n\n[target.'cfg(windows)'.dependencies]\nfoo = \"1\"\n",
        ),
        ("src/main.rs", ""),
    ]);
    let model = import_with(&files, "aarch64-apple-darwin", true, None, &|_| Ok(None)).unwrap();
    let deps = &model.packages[0].deps;
    assert_eq!(deps.len(), 1);
    assert_eq!(deps[0].extern_name, "foo");
    assert_eq!(deps[0].target.as_deref(), Some("cfg(windows)"));
}

#[test]
fn no_action_reaches_the_network() {
    let model = fixture_model();
    plan_with(&model, true, |_, units| {
        let done = completed(&units, &[]);
        for unit in &units {
            let action = act(&model, unit, &done).unwrap();
            assert_eq!(action.network, NetworkPolicy::Deny);
            assert_eq!(action.working_directory, ".");
            assert_eq!(action.platform, "aarch64-apple-darwin");
            assert_eq!(action.bundle, tree("bundle"));
        }
    })
    .unwrap();
}

#[test]
fn cycles_need_a_dev_edge_of_their_own() {
    let with = |root: &str, a: &str, b: &str| {
        write_tree(&[
            ("Cargo.toml", "[workspace]\nmembers = [\"root\", \"a\", \"b\"]\nresolver = \"2\"\n"),
            (
                "root/Cargo.toml",
                &format!("[package]\nname = \"root\"\nversion = \"0.1.0\"\nedition = \"2021\"\n\n[{root}]\na = {{ path = \"../a\" }}\n"),
            ),
            ("root/src/lib.rs", ""),
            (
                "a/Cargo.toml",
                &format!("[package]\nname = \"a\"\nversion = \"0.1.0\"\nedition = \"2021\"\n\n[{a}]\nb = {{ path = \"../b\" }}\n"),
            ),
            ("a/src/lib.rs", ""),
            (
                "b/Cargo.toml",
                &format!("[package]\nname = \"b\"\nversion = \"0.1.0\"\nedition = \"2021\"\n\n[{b}]\na = {{ path = \"../a\" }}\n"),
            ),
            ("b/src/lib.rs", ""),
        ])
    };
    let host = "aarch64-apple-darwin";
    let dev = "dev-dependencies";
    let normal = "dependencies";
    // A dev edge that leads to the cycle is not in it.
    let err = import(&with(dev, normal, normal), host).err().unwrap();
    assert!(format!("{err:?}").contains("cyclic"), "{err:?}");
    assert_eq!(import(&with(normal, dev, normal), host).unwrap().packages.len(), 3);
    assert_eq!(import(&with(normal, normal, dev), host).unwrap().packages.len(), 3);
}

#[test]
fn edges_lead_to_imported_packages() {
    let files = write_tree(&[
        ("Cargo.toml", "[workspace]\nmembers = [\"a\", \"b\"]\nresolver = \"2\"\n"),
        (
            "a/Cargo.toml",
            "[package]\nname = \"a\"\nversion = \"0.1.0\"\nedition = \"2021\"\n\n[dependencies]\nc = { path = \"../b/../c\" }\n\n[dev-dependencies]\nb = { path = \"../b\" }\n",
        ),
        ("a/src/lib.rs", ""),
        (
            "b/Cargo.toml",
            "[package]\nname = \"b\"\nversion = \"0.1.0\"\nedition = \"2021\"\n\n[dependencies]\na = { path = \"../a\" }\n",
        ),
        ("b/src/lib.rs", ""),
        ("c/Cargo.toml", "[package]\nname = \"c\"\nversion = \"0.1.0\"\nedition = \"2021\"\n"),
        ("c/src/lib.rs", ""),
    ]);
    let model = import(&files, "aarch64-apple-darwin").unwrap();
    assert_eq!(model.packages.len(), 3);
    for package in &model.packages {
        for dep in package.deps.iter().chain(&package.build_deps).chain(&package.dev_deps) {
            assert!(
                model.packages.iter().any(|other| other.id == dep.package),
                "{} -> {}",
                package.name,
                dep.extern_name
            );
        }
    }
}

#[test]
fn the_last_unlinkable_edge_is_reported() {
    let files = write_tree(&[
        (
            "Cargo.toml",
            "[workspace]\nmembers = [\"a\", \"mid\", \"x\", \"y\"]\nresolver = \"2\"\n",
        ),
        (
            "a/Cargo.toml",
            "[package]\nname = \"a\"\nversion = \"0.1.0\"\nedition = \"2021\"\n\n[dependencies]\nmid = { path = \"../mid\" }\n",
        ),
        ("a/src/lib.rs", ""),
        (
            "mid/Cargo.toml",
            "[package]\nname = \"mid\"\nversion = \"0.1.0\"\nedition = \"2021\"\n\n[dependencies]\nx = { path = \"../x\" }\ny = { path = \"../y\" }\n",
        ),
        ("mid/src/lib.rs", ""),
        ("x/Cargo.toml", "[package]\nname = \"x\"\nversion = \"0.1.0\"\nedition = \"2021\"\n"),
        ("x/src/main.rs", ""),
        ("y/Cargo.toml", "[package]\nname = \"y\"\nversion = \"0.1.0\"\nedition = \"2021\"\n"),
        ("y/src/main.rs", ""),
    ]);
    let model = with_features(import(&files, "aarch64-apple-darwin").unwrap(), false);
    assert_eq!(model.packages[0].name, "a");
    let err = plan_with(&model, false, |_, _| ()).unwrap_err();
    assert_eq!(
        err,
        PlanError::Message(
            "dependency \"y\" names package \"y\", which has no library target".to_owned()
        )
    );
}

#[test]
fn script_units_know_their_side() {
    let model = fixture_model();
    plan_with(&model, true, |_, units| {
        for unit in &units {
            let script = unit.id.starts_with("rust:bs-");
            let side = if script { Some(unit.id.ends_with(":host")) } else { None };
            assert_eq!(script_side(&model, unit), side, "{}", unit.id);
        }
        assert!(units.iter().any(|unit| script_side(&model, unit) == Some(true)));
    })
    .unwrap();
    let app = model.packages.iter().position(|package| package.name == "app").unwrap();
    assert_eq!(name_script_run(&model, app, true), "rust:bs-run:app:host");
    assert_eq!(name_script_compile(&model, app, false), "rust:bs-compile:app");
    assert_eq!(metadata_hash(&Digest { a: 0x0123_4567_89ab_cdef, b: 1, c: 2, d: 3 }), "0123456789abcdef");
}

#[test]
fn target_tables_are_merged() {
    let m = manifest(
        "[dependencies]\nfoo = \"1\"\n\n[target.'cfg(windows)'.dependencies]\nfoo = { version = \"1\", optional = true }\nbar = \"2\"\n\n[target.x86_64-pc-windows-msvc.build-dependencies]\ncc = { version = \"1\", optional = true }\n\n[target.'cfg(windows)'.dev-dependencies]\ndev = { version = \"1\", optional = true }\n",
    );
    let mut disk = Disk::new();
    let Err(ImportStop::Need(Query::Cfg { key, triple })) = merge_target_tables(&disk, &m) else {
        panic!("the key has not been read yet");
    };
    assert_eq!(key, "cfg(windows)");
    let mut known = StrMap::new();
    known.insert(key, Ok(false));
    disk.cfgs.insert(triple, known);
    let merged = merge_target_tables(&disk, &m).ok().unwrap();
    let names = |list: &Vec<Declaration<'_>>| -> Vec<(String, Option<String>)> {
        list.iter().map(|d| (d.name.clone(), d.target.cloned())).collect()
    };
    let windows = Some("cfg(windows)".to_owned());
    assert_eq!(
        names(&merged.dependencies),
        vec![
            ("foo".to_owned(), None),
            ("bar".to_owned(), windows.clone()),
            ("foo".to_owned(), windows.clone()),
        ]
    );
    assert_eq!(
        names(&merged.build_dependencies),
        vec![("cc".to_owned(), Some("x86_64-pc-windows-msvc".to_owned()))]
    );
    assert_eq!(names(&merged.dev_dependencies), vec![("dev".to_owned(), windows)]);
    assert_eq!(merged.optional_anywhere.to_list(), vec!["cc", "foo"]);
}

#[test]
fn unit_ids_are_told_apart() {
    let ids = plan_ids(&fixture_model(), true);
    let mut sorted = ids.clone();
    sorted.sort();
    sorted.dedup();
    assert_eq!(sorted.len(), ids.len(), "{ids:?}");
}

#[test]
fn action_parity_required_features_gate_examples() {
    // With default features the `gated` example is skipped.
    let ids = plan_ids(&fixture_model(), true);
    let gated: Vec<&String> = ids.iter().filter(|id| id.contains("gated")).collect();
    assert!(
        gated.is_empty(),
        "required-features example must be skipped without the feature: {gated:?}"
    );
}

#[test]
fn proc_macro_check_tests_use_linkable_host_dependencies() {
    let files = write_tree(&[
        (
            "Cargo.toml",
            "[workspace]\nmembers = [\"helper\", \"dev-helper\", \"macros\"]\nresolver = \"2\"\n",
        ),
        (
            "helper/Cargo.toml",
            "[package]\nname = \"helper\"\nversion = \"0.1.0\"\nedition = \"2021\"\n",
        ),
        ("helper/src/lib.rs", "pub fn value() -> u32 { 7 }\n"),
        (
            "dev-helper/Cargo.toml",
            "[package]\nname = \"dev-helper\"\nversion = \"0.1.0\"\nedition = \"2021\"\n",
        ),
        ("dev-helper/src/lib.rs", "pub fn value() -> u32 { 9 }\n"),
        (
            "macros/Cargo.toml",
            "[package]\nname = \"macros\"\nversion = \"0.1.0\"\nedition = \"2021\"\n\n[lib]\nproc-macro = true\n\n[dependencies]\nhelper = { path = \"../helper\" }\n\n[dev-dependencies]\ndev-helper = { path = \"../dev-helper\" }\n",
        ),
        ("macros/src/lib.rs", ""),
    ]);
    let model = with_features(import(&files, "aarch64-apple-darwin").unwrap(), true);
    let ids = plan_ids(&model, true);
    assert!(ids.iter().any(|id| id == "rust:test-compile:macros:lib:macros"), "{ids:?}");
    // The unit test links both libraries.
    plan_with(&model, true, |_, units| {
        let done = completed(&units, &[]);
        let unit = units
            .iter()
            .find(|unit| unit.id == "rust:test-compile:macros:lib:macros")
            .unwrap();
        let args = act(&model, unit, &done).unwrap().arguments;
        assert!(args.iter().any(|arg| arg.starts_with("helper=")), "{args:?}");
        assert!(args.iter().any(|arg| arg.starts_with("dev_helper=")), "{args:?}");
    })
    .unwrap();
}

#[test]
fn action_parity_dep_info_narrows_rebuilds() {
    // A second build over the unchanged tree has the same actions.
    let build = || -> Vec<(String, String)> {
        let model = fixture_model();
        plan_with(&model, true, |_, units| {
            let done = completed(&units, &[]);
            units
                .iter()
                .map(|unit| (unit.id.clone(), format!("{:?}", act(&model, unit, &done).unwrap())))
                .collect()
        })
        .unwrap()
    };
    assert_eq!(build(), build(), "unchanged tree must keep actions stable");
}

#[test]
fn action_parity_links_metadata_flows_to_dependents() {
    let model = fixture_model();
    plan_with(&model, false, |_, units| {
        let done = completed(
            &units,
            &[
                ("rust:bs-run:native-lib", "cargo:MYKEY=from_native_lib\n"),
                ("rust:bs-run:app", "cargo:rustc-env=DEP_VALUE=from_native_lib\n"),
            ],
        );
        let run = units.iter().find(|unit| unit.id == "rust:bs-run:app").unwrap();
        let action = act(&model, run, &done).unwrap();
        assert_eq!(
            action.environment.get("DEP_NATIVE_LIB_MYKEY").unwrap(),
            "from_native_lib"
        );
        assert_eq!(
            action.environment.get("CARGO_PKG_VERSION").unwrap(),
            "4.5.6-beta.1"
        );
        assert!(matches!(action.executable, Executable::TreeFile { .. }));
        // What the script says reaches the compilation.
        let bin = units.iter().find(|unit| unit.id == "rust:bin:app:app").unwrap();
        let action = act(&model, bin, &done).unwrap();
        assert_eq!(action.environment.get("DEP_VALUE").unwrap(), "from_native_lib");
        assert!(matches!(action.executable, Executable::Rustc));
    })
    .unwrap();
}

#[test]
fn relocated_packages_have_the_same_actions() {
    let build = |dir: Option<&str>| -> Vec<(String, String)> {
        let mut model = fixture_model();
        if let Some(dir) = dir {
            for package in &mut model.packages {
                package.dir = format!("{dir}/{}", package.name);
            }
        }
        plan_with(&model, true, |_, units| {
            let done = completed(&units, &[]);
            units
                .iter()
                .map(|unit| (unit.id.clone(), format!("{:?}", act(&model, unit, &done).unwrap())))
                .collect()
        })
        .unwrap()
    };
    assert_eq!(build(None), build(Some("/elsewhere")));
}

#[test]
fn packages_are_imported_once() {
    let files = write_tree(&[
        (
            "Cargo.toml",
            "[workspace]\nmembers = [\"a\", \"b\", \"c\"]\nresolver = \"2\"\n",
        ),
        (
            "a/Cargo.toml",
            "[package]\nname = \"a\"\nversion = \"0.1.0\"\nedition = \"2021\"\n\n[dependencies]\nb = { path = \"../b\" }\nc = { path = \"../c\" }\n",
        ),
        ("a/src/lib.rs", ""),
        (
            "b/Cargo.toml",
            "[package]\nname = \"b\"\nversion = \"0.1.0\"\nedition = \"2021\"\n\n[dependencies]\nc = { path = \"../c\" }\n",
        ),
        ("b/src/lib.rs", ""),
        (
            "c/Cargo.toml",
            "[package]\nname = \"c\"\nversion = \"0.1.0\"\nedition = \"2021\"\n",
        ),
        ("c/src/lib.rs", ""),
    ]);
    let model = import(&files, "aarch64-apple-darwin").unwrap();
    let dirs: Vec<&str> = model.packages.iter().map(|p| p.dir.as_str()).collect();
    assert_eq!(dirs, vec!["/fixture/ws/a", "/fixture/ws/b", "/fixture/ws/c"]);
    // Every edge leads to an imported package, and every member is one.
    for package in &model.packages {
        for dep in &package.deps {
            assert!(model.packages.iter().any(|p| p.id == dep.package));
        }
    }
    for id in &model.members {
        assert!(model.packages.iter().any(|p| p.id == *id));
    }
}

#[test]
fn failing_scripts_and_missing_units_are_errors() {
    let model = fixture_model();
    plan_with(&model, false, |_, units| {
        let done = completed(&units, &[("rust:bs-run:app", "cargo:error=boom\n")]);
        let bin = units.iter().find(|unit| unit.id == "rust:bin:app:app").unwrap();
        match act(&model, bin, &done) {
            Err(PlanError::Message(message)) => assert!(message.contains("boom"), "{message}"),
            other => panic!("{other:?}"),
        }
        let none = completed(&[], &[]);
        assert!(matches!(act(&model, bin, &none), Err(PlanError::MissingDependency(_))));
    })
    .unwrap();
}

#[test]
fn plans_list_what_their_units_need() {
    let model = fixture_model();
    plan_with(&model, true, |planner, units| {
        for unit in &units {
            for dep in unit.deps() {
                assert!(units.iter().any(|other| other.id == dep), "{} needs {dep}", unit.id);
            }
        }
        let bin = units.iter().find(|unit| unit.id == "rust:bin:app:app").unwrap();
        assert!(bin.deps().iter().any(|id| id == "rust:lib:native-lib:rlib"));
        match &bin.kind {
            UnitKind::Compile(c) => {
                assert_eq!(c.crate_name, "app");
                assert_eq!(c.crate_type, "bin");
                assert_eq!(c.build_script.as_deref(), Some("rust:bs-run:app"));
            }
            _ => panic!("a binary is compiled"),
        }
        let properties = base_properties(planner);
        assert_eq!(properties[0], ("tong.rust.profile".to_owned(), "dev".to_owned()));
        let files: StrMap<NativeFile> = StrMap::new();
        let artifacts = final_artifacts(planner, &files);
        assert_eq!(artifacts.len(), 1);
        assert_eq!(artifacts[0].name, "app");
        assert_eq!(artifacts[0].action, "rust:bin:app:app");
    })
    .unwrap();
}

#[test]
fn test_runs_are_not_cached_by_default() {
    let model = fixture_model();
    plan_with(&model, true, |_, units| {
        let done = completed(&units, &[]);
        let run = units.iter().find(|unit| unit.id == "rust:test-run:app:lib:app").unwrap();
        let action = act(&model, run, &done).unwrap();
        assert!(!action.cached);
        assert!(action.arguments.iter().any(|arg| arg == "--nocapture"));
    })
    .unwrap();
}

// The crates of a workspace that tests a library with a dev-dependency.
fn lib() -> u32 {
    3
}

fn tool() -> u32 {
    2
}

fn tested_library() -> RustModel {
    let files = write_tree(&[
        (
            "Cargo.toml",
            "[workspace]\nmembers = [\"lib\", \"tool\"]\nresolver = \"2\"\n",
        ),
        (
            "lib/Cargo.toml",
            "[package]\nname = \"lib\"\nversion = \"0.1.0\"\nedition = \"2021\"\n\n[dev-dependencies]\ntool = { path = \"../tool\" }\n",
        ),
        ("lib/src/lib.rs", "pub fn lib() -> u32 { 3 }\n"),
        (
            "tool/Cargo.toml",
            "[package]\nname = \"tool\"\nversion = \"0.1.0\"\nedition = \"2021\"\n",
        ),
        ("tool/src/lib.rs", "pub fn tool() -> u32 { 2 }\n"),
    ]);
    with_features(import(&files, "aarch64-apple-darwin").unwrap(), true)
}

#[test]
fn unit() {
    assert_eq!(lib(), 3);
    let ids = plan_ids(&tested_library(), true);
    assert!(ids.iter().any(|id| id == "rust:test-run:lib:lib:lib"), "{ids:?}");
}

#[test]
fn uses_dev_dep() {
    assert_eq!(lib() + tool(), 5);
    plan_with(&tested_library(), true, |_, units| {
        let test =
            units.iter().find(|unit| unit.id == "rust:test-compile:lib:lib:lib").unwrap();
        assert!(test.deps().iter().any(|id| id == "rust:lib:tool:rlib"));
        let lib = units.iter().find(|unit| unit.id == "rust:lib:lib:rlib").unwrap();
        assert!(!lib.deps().iter().any(|id| id == "rust:lib:tool:rlib"));
    })
    .unwrap();
}

// ---- Sources -----------------------------------------------------------------------------

#[test]
fn script_inputs_are_narrowed_to_declared_paths() {
    let directives = tong::directives::parse_directives("cargo:rerun-if-changed=data\n");
    let script = "build.rs".to_owned();
    let paths = narrowed_paths(&directives, Some(&script)).unwrap();
    assert_eq!(paths, vec!["data", "build.rs"]);
    let parts = narrowed_parts(
        "app",
        &paths,
        &vec![
            PathFact::Directory("data".to_owned()),
            PathFact::File("build.rs".to_owned()),
        ],
    )
    .unwrap();
    assert!(matches!(&parts[0], TreePart::Directory(path) if path == "data"));
    assert!(matches!(&parts[1], TreePart::File { name, .. } if name == "build.rs"));
    let missing = narrowed_parts("app", &vec!["gone".to_owned()], &vec![PathFact::Missing]);
    assert!(missing.is_err());
    let none = tong::directives::parse_directives("");
    assert!(narrowed_paths(&none, Some(&script)).is_none());
}

#[test]
fn outside_crate_roots_are_mounted() {
    let model = fixture_model();
    let app = model.packages.iter().find(|pkg| pkg.name == "app").unwrap();
    let roots = list_roots(app);
    assert_eq!(roots.len(), 3);
    let facts = vec![
        RootFact::Inside,
        RootFact::Outside { parent: "/shared".to_owned(), name: "main.rs".to_owned() },
        RootFact::Inside,
    ];
    let mounts = mount_roots(7, &roots, &facts);
    assert_eq!(mounts.len(), 1);
    assert_eq!(mounts[0].0, "/shared");
    assert_eq!(mounts[0].1.package, 7);
    assert_eq!(mounts[0].1.rewritten, "ext/0/main.rs");
}

#[test]
fn versions_become_environment() {
    let env = version_env(Version::parse("4.5.6-beta.1"));
    let get = |key: &str| env.iter().find(|(k, _)| k == key).map(|(_, v)| v.as_str());
    assert_eq!(get("CARGO_PKG_VERSION_MAJOR"), Some("4"));
    assert_eq!(get("CARGO_PKG_VERSION_MINOR"), Some("5"));
    assert_eq!(get("CARGO_PKG_VERSION_PATCH"), Some("6"));
    assert_eq!(get("CARGO_PKG_VERSION_PRE"), Some("beta.1"));
}
