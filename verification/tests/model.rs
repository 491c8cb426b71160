//! The model: identities, names, paths, profiles and canonical texts.

use tong::canonical::relative;
use tong::model::{
    crate_name, lib_crate_name, BinTarget, CrateType, Dep, Edition, GitSelector, LibTarget, Lto,
    Package, PackageId, PanicStrategy, ProfileSpec, ResolverVersion, SourceId, TestTarget,
};
use tong::paths::{normalize_lexical, path_join, path_less, source_rel_path};
use tong::strmap::{StrMap, StrSet};
use tong::tokens::Token;
use tong::version::Version;

#[test]
fn crate_names_sanitize_hyphens() {
    assert_eq!(crate_name("voxel-city"), "voxel_city");
    assert_eq!(crate_name("plain"), "plain");
}

fn pkg(name: &str) -> Package {
    Package {
        id: PackageId {
            name: name.to_owned(),
            version: Version::new(0, 1, 0),
            source: SourceId::Workspace(".".to_owned()),
        },
        name: name.to_owned(),
        dir: ".".to_owned(),
        version: "0.1.0".to_owned(),
        edition: Edition::E2021,
        lib: None,
        bins: Vec::new(),
        examples: Vec::new(),
        tests: Vec::new(),
        build_script: None,
        links: None,
        deps: Vec::new(),
        optional_anywhere: StrSet::new(),
        build_deps: Vec::new(),
        dev_deps: Vec::new(),
        features: StrMap::new(),
        has_default_feature: false,
        rustflags: Vec::new(),
        env: StrMap::new(),
    }
}

#[test]
fn lib_crate_name_uses_lib_override() {
    let mut pkg = pkg("my-lib");
    assert_eq!(lib_crate_name(&pkg), "my_lib");
    pkg.lib = Some(LibTarget {
        name: Some("renamed".to_owned()),
        crate_types: Vec::new(),
        proc_macro: false,
        path: "src/lib.rs".to_owned(),
    });
    assert_eq!(lib_crate_name(&pkg), "renamed");
}

#[test]
fn package_ids_distinguish_versions_and_sources() {
    let a1 = PackageId {
        name: "alpha".to_owned(),
        version: Version::new(1, 0, 0),
        source: SourceId::Registry("https://index.crates.io".to_owned()),
    };
    let a2 = PackageId {
        name: "alpha".to_owned(),
        version: Version::new(2, 0, 0),
        source: SourceId::Registry("https://index.crates.io".to_owned()),
    };
    assert_ne!(a1, a2);
    let member = PackageId {
        name: "alpha".to_owned(),
        version: Version::new(0, 1, 0),
        source: SourceId::Workspace("crates/alpha".to_owned()),
    };
    assert_ne!(a1, member);
    // Hash agrees with equality.
    let mut set = std::collections::HashSet::new();
    set.insert(a1.clone());
    set.insert(a2.clone());
    set.insert(member.clone());
    assert_eq!(set.len(), 3);
    assert_eq!(a1.lock_source(), "registry+https://index.crates.io");
    assert_eq!(member.lock_source(), "path+crates/alpha");
}

#[test]
fn source_paths_lead_back_to_their_directories() {
    for (dir, root) in [
        ("/ws/crates/app", "/ws"),
        ("/ws/crates/app/../core", "/ws/"),
        ("/other/y", "/ws/deep"),
        ("/ws", "/ws"),
        ("/", "/ws"),
        ("/ws/a", "/"),
        ("/x", "relative"),
        ("a/b", "a/c"),
        ("./a", "."),
        ("a", ""),
    ] {
        let back = path_join(root, &source_rel_path(dir, root));
        assert_eq!(normalize_lexical(&back), normalize_lexical(dir), "{dir} from {root}");
    }
    assert_eq!(source_rel_path("/ws", "/ws"), "");
    // Relative paths climb first, and not at all under the root.
    assert_eq!(source_rel_path("/ws/./a/../b", "/ws/c/d"), "../../b");
    assert_eq!(source_rel_path("/ws/c/d/./e", "/ws/c/d"), "e");
    // An absolute root says nothing of a relative directory.
    assert_eq!(normalize_lexical(&path_join("/ws", &source_rel_path("a", "/ws"))), "/a");
}

#[test]
fn source_rel_paths_are_lexical_forward_slash() {
    let root = "/ws";
    assert_eq!(
        source_rel_path("/ws/crates/app", root),
        "crates/app"
    );
    assert_eq!(
        source_rel_path("/ws/crates/app/../core", root),
        "crates/core"
    );
    assert_eq!(
        source_rel_path("/ws/../shared/x", root),
        "../shared/x"
    );
    assert_eq!(source_rel_path("/other/y", root), "../other/y");
}

#[test]
fn resolver_defaults_follow_editions() {
    assert_eq!(
        ResolverVersion::from_manifest(None, Edition::E2015).unwrap(),
        ResolverVersion::V1
    );
    assert_eq!(
        ResolverVersion::from_manifest(None, Edition::E2018).unwrap(),
        ResolverVersion::V1
    );
    assert_eq!(
        ResolverVersion::from_manifest(None, Edition::E2021).unwrap(),
        ResolverVersion::V2
    );
    assert_eq!(
        ResolverVersion::from_manifest(None, Edition::E2024).unwrap(),
        ResolverVersion::V3
    );
    assert_eq!(
        ResolverVersion::from_manifest(Some("1"), Edition::E2024).unwrap(),
        ResolverVersion::V1
    );
    assert!(ResolverVersion::from_manifest(Some("4"), Edition::E2021).is_err());
}

#[test]
fn lock_sources_round_trip() {
    for text in ["registry+https://index.crates.io", "git+https://example.org/r#abc"] {
        let source = SourceId::parse_lock_source(text).unwrap();
        assert_eq!(source.lock_source(), text);
    }
    assert!(SourceId::parse_lock_source("path+crates/alpha").is_err());
    assert!(SourceId::parse_lock_source("ftp+x").is_err());
}

#[test]
fn identities_have_values_of_their_own() {
    let id = |source: SourceId| PackageId {
        name: "a".to_owned(),
        version: Version::new(1, 2, 3),
        source,
    };
    let workspace = id(SourceId::Workspace("x".to_owned())).encode();
    assert_eq!(
        workspace,
        vec![
            Token::Str("a".to_owned()),
            Token::Str("1.2.3".to_owned()),
            Token::U32(0),
            Token::Str("x".to_owned()),
        ]
    );
    let git = id(SourceId::Git { url: "u".to_owned(), rev: "r".to_owned() }).encode();
    assert_eq!(
        git[2..],
        [Token::U32(3), Token::Str("u".to_owned()), Token::Str("r".to_owned())]
    );
    assert_ne!(workspace, id(SourceId::Path("x".to_owned())).encode());
}

#[test]
fn versions_are_semantic() {
    let v = Version::parse("1.2.3-alpha.1+build.5").unwrap();
    assert_eq!((v.major, v.minor, v.patch), (1, 2, 3));
    assert_eq!(v.to_text(), "1.2.3-alpha.1+build.5");
    assert!(Version::parse("1.2").is_err());
    assert!(Version::parse("").is_err());
    let release = Version::new(1, 2, 3);
    assert_eq!(v.precedes(&release), Some(true));
    assert_eq!(release.precedes(&v), Some(false));
    assert_eq!(Version::new(1, 10, 0).precedes(&Version::new(1, 9, 0)), Some(false));
    assert!(release.same(&Version::parse("1.2.3").unwrap()));
}

#[test]
fn lexical_paths_are_normalized() {
    assert_eq!(normalize_lexical("/a/./b/../c"), "/a/c");
    assert_eq!(normalize_lexical("a//b"), "a/b");
    assert_eq!(path_join("/a", "b"), "/a/b");
    assert_eq!(path_join("/a/", "b"), "/a/b");
    assert_eq!(path_join("/a", "/b"), "/b");
    assert!(path_less("/a/b", "/a/b/c"));
    assert!(path_less("/a/b", "/a-b"));
}

#[test]
fn git_urls_are_canonical() {
    assert_eq!(
        GitSelector::canonical_url("https://example.org/repo.git"),
        "https://example.org/repo"
    );
    assert_eq!(GitSelector::canonical_url("ssh://example.org/repo.git"), "ssh://example.org/repo.git");
}

#[test]
fn profiles_become_flags() {
    let dev = ProfileSpec::dev();
    assert_eq!(dev.opt_level, "0");
    let mut release = ProfileSpec::release();
    release.lto = Lto::Thin;
    release.panic = PanicStrategy::Abort;
    release.codegen_units = Some(4);
    release.strip = Some("symbols".to_owned());
    let flags = release.rustc_flags();
    let has = |flag: &str| flags.windows(2).any(|w| w[0] == "-C" && w[1] == flag);
    assert!(has("opt-level=3"));
    assert!(has("lto=thin"));
    assert!(has("panic=abort"));
    assert!(has("codegen-units=4"));
    assert!(has("strip=symbols"));
}

#[test]
fn paths_are_relative_to_a_directory() {
    assert_eq!(relative("/ws/app/src/lib.rs", "/ws/app"), "src/lib.rs");
    assert_eq!(relative("/ws/app/./src//lib.rs/", "/ws/app/"), "src//lib.rs");
    assert_eq!(relative("/ws/application/x", "/ws/app"), "/ws/application/x");
    assert_eq!(relative("/ws/app", "/ws/app"), "");
    assert_eq!(relative("src/lib.rs", "/ws/app"), "src/lib.rs");
    assert_eq!(relative("a/b/", ""), "a/b");
}

fn full_package(dir: &str) -> Package {
    let mut p = pkg("my-app");
    p.dir = dir.to_owned();
    p.build_script = Some(path_join(dir, "build.rs"));
    p.rustflags = vec!["-C".to_owned(), "debuginfo=1".to_owned()];
    p.env.insert("KEY".to_owned(), "a \"b\"".to_owned());
    p.features.insert("default".to_owned(), vec!["std".to_owned()]);
    p.features.insert("alpha".to_owned(), Vec::new());
    p.lib = Some(LibTarget {
        name: None,
        crate_types: vec![CrateType::Rlib, CrateType::Cdylib],
        proc_macro: false,
        path: path_join(dir, "src/lib.rs"),
    });
    p.bins.push(BinTarget {
        name: "my-app".to_owned(),
        crate_name: "my_app".to_owned(),
        path: path_join(dir, "src/main.rs"),
        required_features: vec!["default".to_owned()],
    });
    p.tests.push(TestTarget {
        name: "it".to_owned(),
        path: path_join(dir, "tests/it.rs"),
        harness: true,
        bench: false,
        doc: false,
        cache_test_result: false,
        required_features: Vec::new(),
    });
    p.deps.push(Dep {
        extern_name: "shared".to_owned(),
        package: PackageId {
            name: "shared-lib".to_owned(),
            version: Version::new(2, 0, 1),
            source: SourceId::Path("../shared".to_owned()),
        },
        optional: true,
        default_features: true,
        features: vec!["f".to_owned()],
        target: None,
    });
    p
}

#[test]
fn canonical_manifests_show_the_stable_fields() {
    let expected = "[package]\nname = \"my-app\"\nversion = \"0.1.0\"\nedition = \"2021\"\n\
        build_script = \"build.rs\"\nrustflags = [\"-C\", \"debuginfo=1\"]\n\
        env = [\n  \"KEY\" = \"a \\\"b\\\"\"\n]\n\
        features = [\n  \"alpha\" = []\n  \"default\" = [\"std\"]\n]\n\
        lib = {\n  crate_name = \"\",\n  crate_types = [\"rlib\", \"cdylib\"],\n  \
        proc_macro = false,\n  path = \"src/lib.rs\",\n}\n\
        bin = { name = \"my-app\", crate_name = \"my_app\", path = \"src/main.rs\", \
        required_features = [\"default\"] }\n\
        test = { name = \"it\", path = \"tests/it.rs\", harness = true, doc = false, \
        cache_test_result = false, required_features = [] }\n\
        dep = { extern = \"shared\", package = \"shared-lib\", version = \"2.0.1\", \
        optional = true, default_features = true, features = [\"f\"] }\n";
    assert_eq!(full_package("/ws/app").canonical_manifest(), expected);
}

#[test]
fn canonical_manifests_hold_no_host_paths() {
    let here = full_package("/ws/app").canonical_manifest();
    let mut moved = full_package("/elsewhere/deep/app");
    moved.id.source = SourceId::Path("other".to_owned());
    assert_eq!(moved.canonical_manifest(), here);
}
