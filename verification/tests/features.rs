//! Feature resolution.

use tong::features::{resolve_features, FeatureError, FeatureRequest};
use tong::model::{Dep, Edition, Package, PackageId, ResolverVersion, RustModel, SourceId};
use tong::strmap::{StrMap, StrSet};
use tong::tokens::Token;
use tong::version::Version;

fn feature_table(features: &[(&str, &[&str])]) -> StrMap<Vec<String>> {
    let mut out = StrMap::new();
    for (name, refs) in features {
        out.insert((*name).to_owned(), refs.iter().map(|r| (*r).to_owned()).collect());
    }
    out
}

fn pid(name: &str) -> PackageId {
    PackageId {
        name: name.to_owned(),
        version: Version::new(0, 1, 0),
        source: SourceId::Workspace(".".to_owned()),
    }
}

fn package(name: &str, features: &[(&str, &[&str])], has_default: bool) -> Package {
    Package {
        id: pid(name),
        name: name.to_owned(),
        dir: name.to_owned(),
        version: "0.1.0".to_owned(),
        edition: Edition::E2021,
        lib: None,
        bins: Vec::new(),
        examples: Vec::new(),
        tests: Vec::new(),
        build_script: None,
        links: None,
        deps: Vec::new(),
        optional_anywhere: StrSet::new(),
        build_deps: Vec::new(),
        dev_deps: Vec::new(),
        features: feature_table(features),
        has_default_feature: has_default,
        rustflags: Vec::new(),
        env: StrMap::new(),
    }
}

fn dep(extern_name: &str, package: &str, optional: bool) -> Dep {
    Dep {
        extern_name: extern_name.to_owned(),
        package: pid(package),
        optional,
        default_features: true,
        features: Vec::new(),
        target: None,
    }
}

fn model(packages: Vec<Package>, members: &[&str]) -> RustModel {
    RustModel {
        packages,
        members: members.iter().map(|m| pid(m)).collect(),
        ..Default::default()
    }
}

fn request(package: &str, features: &[&str]) -> FeatureRequest {
    FeatureRequest {
        package: pid(package),
        features: features.iter().map(|f| (*f).to_owned()).collect(),
        default_features: true,
    }
}

#[test]
fn activates_default_and_explicit_features() {
    let mut app = package("app", &[("default", &["std"]), ("std", &[])], true);
    app.deps.push(dep("core", "core", false));
    let core = package("core", &[("default", &[]), ("alloc", &[])], true);
    let model = model(vec![app, core], &["app"]);
    let map = resolve_features(&model, &[request("app", &["std"])], false).unwrap();
    let app_features = map.packages.get(&pid("app")).unwrap();
    assert!(app_features.contains("std"));
    assert!(app_features.contains("default"));
    assert!(map.packages.get(&pid("core")).unwrap().contains("default"));
}

#[test]
fn no_default_feature_when_not_declared() {
    let app = package("app", &[], false);
    let model = model(vec![app], &["app"]);
    let map = resolve_features(&model, &[request("app", &[])], false).unwrap();
    assert!(map.packages.get(&pid("app")).unwrap().is_empty());
}

#[test]
fn optional_dep_activates_via_dep_namespace() {
    let mut app = package("app", &[("default", &["dep:extra"]), ("extra", &[])], true);
    app.deps.push(dep("extra", "extra", true));
    let extra = package("extra", &[("default", &[])], true);
    let model = model(vec![app, extra], &["app"]);
    let map = resolve_features(&model, &[request("app", &[])], false).unwrap();
    // `default` activates `dep:extra` — the dep, not the `extra` feature.
    assert_eq!(map.packages.get(&pid("app")).unwrap().len(), 1);
    assert!(map.packages.get(&pid("extra")).unwrap().contains("default"));
    assert!(map.active_optional_deps.get(&pid("app")).unwrap().contains("extra"));
}

#[test]
fn inactive_optional_dep_is_not_extern() {
    let mut app = package("app", &[("default", &[])], true);
    app.deps.push(dep("extra", "extra", true));
    let extra = package("extra", &[("default", &[])], true);
    let model = model(vec![app, extra], &["app"]);
    let map = resolve_features(&model, &[request("app", &[])], false).unwrap();
    assert!(!map.active_optional_deps.contains_key(&pid("app")));
    assert!(map.packages.get(&pid("extra")).unwrap().is_empty());
}

#[test]
fn weak_dep_feature_requires_active_dep() {
    // `extra?/feat` with extra inactive: ignored, no error. The weak
    // reference is evaluated when its containing feature is processed,
    // so `dep:extra` must come first in the list (Cargo v2 behavior).
    let mut app = package(
        "app",
        &[
            ("default", &["dep:extra", "extra?/feat"]),
            ("f", &["extra?/feat"]),
        ],
        true,
    );
    app.deps.push(dep("extra", "extra", true));
    let mut extra = package("extra", &[("default", &[]), ("feat", &[])], true);
    extra.deps.push(dep("dep", "dep", false));
    let dep = package("dep", &[], false);
    let model = model(vec![app, extra, dep], &["app"]);
    let map = resolve_features(&model, &[request("app", &[])], false).unwrap();
    // `dep:extra` activates extra; the following weak reference in the
    // same list then applies `feat`.
    assert!(map.packages.get(&pid("extra")).unwrap().contains("feat"));
    let map = resolve_features(&model, &[request("app", &["f"])], false).unwrap();
    assert!(map.packages.get(&pid("extra")).unwrap().contains("feat"));
}

/// Cargo activates optional deps referenced by `dep?/feat` weak
/// references exactly like strong ones (verified against `cargo
/// metadata`: `futures-core?/alloc` in a default feature activates
/// the dep, its edge, and the feature).
#[test]
fn weak_dep_feature_activates_dep() {
    let mut app = package("app", &[("default", &["extra?/feat"])], true);
    app.deps.push(dep("extra", "extra", true));
    let extra = package("extra", &[("default", &[]), ("feat", &[])], true);
    let model = model(vec![app, extra], &["app"]);
    let map = resolve_features(&model, &[request("app", &[])], false).unwrap();
    assert!(map.active_optional_deps.get(&pid("app")).unwrap().contains("extra"));
    assert!(map.packages.get(&pid("extra")).unwrap().contains("feat"));
}

#[test]
fn strong_dep_feature_activates_dep() {
    let mut app = package("app", &[("default", &["extra/feat"])], true);
    app.deps.push(dep("extra", "extra", true));
    let extra = package("extra", &[("default", &[]), ("feat", &[])], true);
    let model = model(vec![app, extra], &["app"]);
    let map = resolve_features(&model, &[request("app", &[])], false).unwrap();
    assert!(map.active_optional_deps.get(&pid("app")).unwrap().contains("extra"));
    assert!(map.packages.get(&pid("extra")).unwrap().contains("feat"));
}

#[test]
fn edge_features_propagate_to_dep() {
    let mut app = package("app", &[("default", &["dep:extra"])], true);
    app.deps.push(Dep {
        extern_name: "extra".to_owned(),
        package: pid("extra"),
        optional: true,
        default_features: false,
        features: vec!["feat".to_owned()],
        target: None,
    });
    let extra = package("extra", &[("default", &[]), ("feat", &[])], true);
    let model = model(vec![app, extra], &["app"]);
    let map = resolve_features(&model, &[request("app", &[])], false).unwrap();
    // Edge default-features=false: no default on extra.
    assert!(!map.packages.get(&pid("extra")).unwrap().contains("default"));
    assert!(map.packages.get(&pid("extra")).unwrap().contains("feat"));
}

#[test]
fn unknown_feature_is_an_error() {
    let app = package("app", &[("default", &["nope"])], true);
    let model = model(vec![app], &["app"]);
    let err = resolve_features(&model, &[request("app", &[])], false).unwrap_err();
    assert_eq!(
        err,
        FeatureError::UnknownFeature {
            package: "app".to_owned(),
            feature: "nope".to_owned(),
        }
    );
}

#[test]
fn unknown_dep_feature_is_an_error() {
    let mut app = package("app", &[("default", &["extra/missing"])], true);
    app.deps.push(dep("extra", "extra", false));
    let extra = package("extra", &[("default", &[])], true);
    let model = model(vec![app, extra], &["app"]);
    let err = resolve_features(&model, &[request("app", &[])], false).unwrap_err();
    assert!(
        matches!(err, FeatureError::UnknownDepFeature { .. }),
        "{}",
        err.to_text()
    );
}

#[test]
fn implicit_feature_activates_optional_dep() {
    let mut app = package("app", &[("default", &["extra"])], true);
    app.deps.push(dep("extra", "extra", true));
    let extra = package("extra", &[("default", &[])], true);
    let model = model(vec![app, extra], &["app"]);
    let map = resolve_features(&model, &[request("app", &[])], false).unwrap();
    assert!(map.active_optional_deps.get(&pid("app")).unwrap().contains("extra"));
}

#[test]
fn feature_unification_across_edges() {
    // Two packages both depend on shared; one wants feat, one doesn't.
    // Union semantics: feat is on.
    let mut app = package("app", &[("default", &["shared/feat"])], true);
    app.deps.push(dep("shared", "shared", false));
    let mut other = package("other", &[("default", &[])], true);
    other.deps.push(dep("shared", "shared", false));
    let shared = package("shared", &[("default", &[]), ("feat", &[])], true);
    let model = model(vec![app, other, shared], &["app", "other"]);
    let map =
        resolve_features(&model, &[request("app", &[]), request("other", &[])], false).unwrap();
    assert!(map.packages.get(&pid("shared")).unwrap().contains("feat"));
}

#[test]
fn dev_deps_only_apply_when_included() {
    let mut app = package("app", &[("default", &[])], true);
    app.dev_deps.push(Dep {
        extern_name: "devdep".to_owned(),
        package: pid("devdep"),
        optional: false,
        default_features: true,
        features: vec!["devfeat".to_owned()],
        target: None,
    });
    let devdep = package("devdep", &[("default", &[]), ("devfeat", &[])], true);
    let model = model(vec![app, devdep], &["app"]);
    // Normal build: dev-dep edges ignored.
    let map = resolve_features(&model, &[request("app", &[])], false).unwrap();
    assert!(map.packages.get(&pid("devdep")).unwrap().is_empty());
    // Test build: dev-dep edges apply.
    let map = resolve_features(&model, &[request("app", &[])], true).unwrap();
    assert!(map.packages.get(&pid("devdep")).unwrap().contains("devfeat"));
}

#[test]
fn feature_map_canonical_encoding_is_deterministic() {
    let mut app = package("app", &[("default", &[]), ("x", &[])], true);
    app.deps.push(dep("extra", "extra", true));
    let extra = package("extra", &[("default", &[])], true);
    let model = model(vec![app, extra], &["app"]);
    let map = resolve_features(&model, &[request("app", &["x"])], false).unwrap();
    let tokens = map.encode();
    let again = resolve_features(&model, &[request("app", &["x"])], false).unwrap();
    assert_eq!(tokens, again.encode());
}

/// Resolver 1 unifies dev-dep features into the whole graph, even for
/// a normal build (the legacy behavior).
#[test]
fn resolver_v1_unifies_dev_features_in_normal_builds() {
    let mut app = package("app", &[("default", &["shared/feat"])], true);
    app.deps.push(dep("shared", "shared", false));
    app.dev_deps.push(Dep {
        extern_name: "shared".to_owned(),
        package: pid("shared"),
        optional: false,
        default_features: true,
        features: vec!["devfeat".to_owned()],
        target: None,
    });
    let shared = package(
        "shared",
        &[("default", &[]), ("feat", &[]), ("devfeat", &[])],
        true,
    );
    let mut model = model(vec![app, shared], &["app"]);
    model.resolver = ResolverVersion::V1;
    // Normal build (include_dev_deps = false): the dev edge still
    // unifies `devfeat` under resolver 1.
    let map = resolve_features(&model, &[request("app", &[])], false).unwrap();
    assert!(map.packages.get(&pid("shared")).unwrap().contains("devfeat"));

    // Resolver 2 does not: dev features stay out of normal builds.
    model.resolver = ResolverVersion::V2;
    let map = resolve_features(&model, &[request("app", &[])], false).unwrap();
    assert!(!map.packages.get(&pid("shared")).unwrap().contains("devfeat"));
    let map = resolve_features(&model, &[request("app", &[])], true).unwrap();
    assert!(map.packages.get(&pid("shared")).unwrap().contains("devfeat"));
}

/// Resolver 3 keeps host (build-dependency) and target (normal
/// dependency) feature sets of one package independent; resolver 2
/// unifies them.
#[test]
fn resolver_v3_separates_host_and_target_domains() {
    let mut app = package("app", &[("default", &[])], true);
    app.build_script = Some("build.rs".to_owned());
    app.deps.push(Dep {
        extern_name: "shared".to_owned(),
        package: pid("shared"),
        optional: false,
        default_features: false,
        features: Vec::new(),
        target: None,
    });
    app.build_deps.push(Dep {
        extern_name: "shared".to_owned(),
        package: pid("shared"),
        optional: false,
        default_features: false,
        features: vec!["hostfeat".to_owned()],
        target: None,
    });
    let shared = package("shared", &[("default", &[]), ("hostfeat", &[])], true);
    let mut model = model(vec![app, shared], &["app"]);
    model.resolver = ResolverVersion::V3;
    let map = resolve_features(&model, &[request("app", &[])], false).unwrap();
    // Target domain: the normal edge requests nothing.
    assert!(map.packages.get(&pid("shared")).unwrap().is_empty());
    // Host domain: the build edge's feature applies there.
    assert!(map.build_features.get(&pid("shared")).unwrap().contains("hostfeat"));

    // Resolver 2: build edges share the target domain — the feature
    // unifies into `packages`.
    model.resolver = ResolverVersion::V2;
    let map = resolve_features(&model, &[request("app", &[])], false).unwrap();
    assert!(map.packages.get(&pid("shared")).unwrap().contains("hostfeat"));
    assert!(map.build_features.get(&pid("shared")).unwrap().is_empty());
}

/// Resolver 3: a host package's normal dependencies activate in the
/// host domain.
#[test]
fn resolver_v3_host_subgraph_includes_normal_deps() {
    let mut app = package("app", &[("default", &[])], true);
    app.build_script = Some("build.rs".to_owned());
    app.build_deps.push(dep("hostpkg", "hostpkg", false));
    let mut hostpkg = package("hostpkg", &[("default", &[])], true);
    hostpkg.deps.push(dep("leaf", "leaf", false));
    let leaf = package("leaf", &[("default", &[])], true);
    let mut model = model(vec![app, hostpkg, leaf], &["app"]);
    model.resolver = ResolverVersion::V3;
    let map = resolve_features(&model, &[request("app", &[])], false).unwrap();
    assert!(map.build_features.get(&pid("leaf")).unwrap().contains("default"));
    // The target domain never reached leaf (no normal edge).
    assert!(map.packages.get(&pid("leaf")).unwrap().is_empty());
}

/// Two versions of one crate keep fully distinct feature sets.
#[test]
fn two_versions_have_distinct_feature_sets() {
    let mut app = package("app", &[("default", &["alpha1/feat"])], true);
    app.deps.push(Dep {
        extern_name: "alpha1".to_owned(),
        package: PackageId {
            name: "alpha".to_owned(),
            version: Version::new(1, 0, 0),
            source: SourceId::Registry("fixture".to_owned()),
        },
        optional: false,
        default_features: true,
        features: Vec::new(),
        target: None,
    });
    app.deps.push(Dep {
        extern_name: "alpha2".to_owned(),
        package: PackageId {
            name: "alpha".to_owned(),
            version: Version::new(2, 0, 0),
            source: SourceId::Registry("fixture".to_owned()),
        },
        optional: false,
        default_features: false,
        features: Vec::new(),
        target: None,
    });
    let alpha1 = Package {
        id: PackageId {
            name: "alpha".to_owned(),
            version: Version::new(1, 0, 0),
            source: SourceId::Registry("fixture".to_owned()),
        },
        name: "alpha".to_owned(),
        dir: "alpha-1".to_owned(),
        version: "1.0.0".to_owned(),
        edition: Edition::E2021,
        lib: None,
        bins: Vec::new(),
        examples: Vec::new(),
        tests: Vec::new(),
        build_script: None,
        links: None,
        deps: Vec::new(),
        optional_anywhere: StrSet::new(),
        build_deps: Vec::new(),
        dev_deps: Vec::new(),
        features: feature_table(&[("default", &[]), ("feat", &[])]),
        has_default_feature: true,
        rustflags: Vec::new(),
        env: StrMap::new(),
    };
    let alpha2 = Package {
        id: PackageId {
            name: "alpha".to_owned(),
            version: Version::new(2, 0, 0),
            source: SourceId::Registry("fixture".to_owned()),
        },
        name: "alpha".to_owned(),
        dir: "alpha-2".to_owned(),
        version: "2.0.0".to_owned(),
        edition: Edition::E2021,
        lib: None,
        bins: Vec::new(),
        examples: Vec::new(),
        tests: Vec::new(),
        build_script: None,
        links: None,
        deps: Vec::new(),
        optional_anywhere: StrSet::new(),
        build_deps: Vec::new(),
        dev_deps: Vec::new(),
        features: feature_table(&[("default", &[])]),
        has_default_feature: true,
        rustflags: Vec::new(),
        env: StrMap::new(),
    };
    let model = model(vec![app, alpha1, alpha2], &["app"]);
    let map = resolve_features(&model, &[request("app", &[])], false).unwrap();
    let id1 = PackageId {
        name: "alpha".to_owned(),
        version: Version::new(1, 0, 0),
        source: SourceId::Registry("fixture".to_owned()),
    };
    let id2 = PackageId {
        name: "alpha".to_owned(),
        version: Version::new(2, 0, 0),
        source: SourceId::Registry("fixture".to_owned()),
    };
    assert!(map.packages.get(&id1).unwrap().contains("default"));
    assert!(map.packages.get(&id1).unwrap().contains("feat"));
    // Version 2 has no `feat` and its default was disabled by the edge.
    assert!(!map.packages.get(&id2).unwrap().contains("feat"));
    assert!(!map.packages.get(&id2).unwrap().contains("default"));
}


#[test]
fn unknown_features_and_deps_are_described() {
    let app = package("app", &[("default", &["dep:ghost"])], true);
    let m = model(vec![app], &["app"]);
    let err = resolve_features(&m, &[request("app", &[])], false).unwrap_err();
    assert_eq!(
        err,
        FeatureError::UnknownDep {
            package: "app".to_owned(),
            dep: "ghost".to_owned(),
        }
    );
    let app = package("app", &[("default", &[])], true);
    let m = model(vec![app], &["app"]);
    let err = resolve_features(&m, &[request("app", &["missing"])], false).unwrap_err();
    assert!(matches!(err, FeatureError::UnknownFeature { .. }));
    assert!(err.to_text().contains("missing"));
    let err = resolve_features(&m, &[request("other", &["x"])], false).unwrap_err();
    assert!(matches!(err, FeatureError::UnknownPackage(_)));
    assert!(err.to_text().contains("other"));
}

#[test]
fn a_dep_reference_to_a_required_dependency_is_an_error() {
    let mut app = package("app", &[("default", &["dep:core"])], true);
    app.deps.push(dep("core", "core", false));
    let core = package("core", &[], false);
    let m = model(vec![app, core], &["app"]);
    let err = resolve_features(&m, &[request("app", &[])], false).unwrap_err();
    assert!(matches!(err, FeatureError::NotOptionalDep { .. }));
}

#[test]
fn edges_are_active_in_either_domain() {
    let mut app = package("app", &[("default", &["dep:tool"])], true);
    app.build_script = Some("build.rs".to_owned());
    app.build_deps.push(dep("tool", "tool", true));
    let tool = package("tool", &[("default", &[])], true);
    let mut m = model(vec![app, tool], &["app"]);
    m.resolver = ResolverVersion::V3;
    let map = resolve_features(&m, &[request("app", &[])], false).unwrap();
    assert!(map.active_build_optional_deps.get(&pid("app")).unwrap().contains("tool"));
    assert!(map.edge_active(&pid("app"), "tool"));
    assert!(!map.edge_active(&pid("app"), "other"));
    assert!(map.features_for(&pid("tool"), true).contains("default"));
    assert!(map.features_for(&pid("tool"), false).is_empty());
    assert!(map.features_for(&pid("absent"), true).is_empty());
}

#[test]
fn encodings_list_packages_in_order_with_their_features() {
    let mut app = package("app", &[("default", &[]), ("x", &[])], true);
    app.deps.push(dep("aaa", "aaa", false));
    let aaa = package("aaa", &[("default", &[])], true);
    let m = model(vec![app, aaa], &["app"]);
    let map = resolve_features(&m, &[request("app", &["x"])], false).unwrap();
    let tokens = map.encode();
    let expected = vec![
        Token::U64(2),
        Token::Str("aaa".to_owned()),
        Token::Str("0.1.0".to_owned()),
        Token::U32(0),
        Token::Str(".".to_owned()),
        Token::Strings(vec!["default".to_owned()]),
        Token::Str("app".to_owned()),
        Token::Str("0.1.0".to_owned()),
        Token::U32(0),
        Token::Str(".".to_owned()),
        Token::Strings(vec!["default".to_owned(), "x".to_owned()]),
    ];
    assert_eq!(tokens[..11], expected[..]);
}

#[test]
fn the_host_domain_falls_back_to_the_unified_one() {
    let mut app = package("app", &[("default", &["x"]), ("x", &[])], true);
    app.build_script = Some("build.rs".to_owned());
    let mut m = model(vec![app], &["app"]);
    let map = resolve_features(&m, &[request("app", &[])], false).unwrap();
    assert!(!map.host_domain);
    assert!(map.features_for(&pid("app"), true).contains("x"));
    assert!(map.features_for(&pid("app"), false).contains("x"));
    m.resolver = ResolverVersion::V3;
    let map = resolve_features(&m, &[request("app", &[])], false).unwrap();
    assert!(map.features_for(&pid("app"), true).is_empty());
    assert!(map.features_for(&pid("app"), false).contains("x"));
}

#[test]
fn host_activations_stay_in_the_host_domain() {
    let mut app = package("app", &[("default", &[])], true);
    app.build_script = Some("build.rs".to_owned());
    app.build_deps.push(dep("hostpkg", "hostpkg", false));
    let hostpkg = package("hostpkg", &[("default", &["std"]), ("std", &[])], true);
    let mut model = model(vec![app, hostpkg], &["app"]);
    model.resolver = ResolverVersion::V3;
    let map = resolve_features(&model, &[request("app", &[])], false).unwrap();
    let host = map.build_features.get(&pid("hostpkg")).unwrap();
    assert!(host.contains("default") && host.contains("std") && host.len() == 2);
    assert!(map.packages.get(&pid("hostpkg")).unwrap().is_empty());
}

#[test]
fn optional_edges_of_host_packages_are_activated_for_the_host() {
    let mut app = package("app", &[], false);
    app.build_script = Some("build.rs".to_owned());
    app.build_deps.push(dep("tool", "tool", false));
    let mut tool = package("tool", &[("default", &["dep:extra"])], true);
    tool.deps.push(dep("extra", "extra", true));
    let extra = package("extra", &[("default", &[])], true);
    let mut model = model(vec![app, tool, extra], &["app"]);
    model.resolver = ResolverVersion::V3;
    let map = resolve_features(&model, &[request("app", &[])], false).unwrap();
    assert!(map.active_build_optional_deps.get(&pid("tool")).unwrap().contains("extra"));
    assert!(!map.active_optional_deps.contains_key(&pid("tool")));
    assert!(map.build_features.get(&pid("extra")).unwrap().contains("default"));
    assert!(map.packages.get(&pid("extra")).unwrap().is_empty());
}

#[test]
fn requests_for_unknown_packages_are_errors() {
    let model = model(vec![package("app", &[], false)], &["app"]);
    let err = resolve_features(&model, &[request("ghost", &[])], false).unwrap_err();
    assert_eq!(err, FeatureError::UnknownPackage("ghost".to_owned()));
}

#[test]
fn more_requests_lose_no_features() {
    let mut app = package(
        "app",
        &[("x", &["extra/feat"]), ("extra", &["other"]), ("other", &[])],
        false,
    );
    app.deps.push(dep("extra", "extra", true));
    let extra = package("extra", &[("feat", &[])], false);
    let model = model(vec![app, extra], &["app"]);
    let on = |features: &[&str]| {
        let map = resolve_features(&model, &[request("app", features)], false).unwrap();
        map.packages.get(&pid("app")).unwrap().to_list()
    };
    assert_eq!(on(&["extra"]), vec!["extra", "other"]);
    assert_eq!(on(&["extra", "x"]), vec!["extra", "other", "x"]);
    // The order of requests makes no difference.
    assert_eq!(on(&["x", "extra"]), on(&["extra", "x"]));
    assert_eq!(on(&["x"]), vec!["extra", "other", "x"]);
}
