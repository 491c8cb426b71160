//! Build-script directives.

use tong::directives::{link_search_arg, parse_directives, parse_link_lib, unquote, Directives};

#[test]
fn parses_all_supported_directives() {
    let directives = parse_directives(
        "cargo:rustc-cfg=feature=\"x\"\n\
         cargo::rustc-env=KEY=value\n\
         cargo:rustc-link-lib=static:foo\n\
         cargo:rustc-link-lib=bar\n\
         cargo:rustc-link-search=native=/usr/lib\n\
         cargo:rustc-flags=-C target-cpu=native\n\
         cargo::rustc-link-arg=-Wl,--as-needed\n\
         cargo::rustc-link-arg-bins=-static\n\
         cargo::rustc-link-arg-tests=-T\n\
         cargo::rustc-link-arg-examples=-E\n\
         cargo::rustc-cdylib-link-arg=-Wl,-install_name\n\
         cargo::rustc-metadata=abc\n\
         cargo::metadata=DEP_KEY=dep-value\n\
         cargo::rustc-check-cfg=cfg(feature, values(\"a\"))\n\
         cargo:rerun-if-changed=build.rs\n\
         cargo:rerun-if-env-changed=CARGO_FOO\n\
         cargo:warning=look out\n\
         cargo:error=boom\n",
    );
    assert_eq!(directives.cfgs, vec!["feature=\"x\""]);
    assert_eq!(directives.env, vec![("KEY".to_owned(), "value".to_owned())]);
    assert_eq!(
        directives.metadata,
        vec![("DEP_KEY".to_owned(), "dep-value".to_owned())]
    );
    assert_eq!(
        directives.link_libs,
        vec![
            (Some("static".to_owned()), "foo".to_owned()),
            (None, "bar".to_owned()),
        ]
    );
    assert_eq!(directives.link_search, vec!["native=/usr/lib"]);
    assert_eq!(directives.raw_flags, vec!["-C", "target-cpu=native"]);
    assert_eq!(directives.link_args, vec!["-Wl,--as-needed"]);
    assert_eq!(directives.link_arg_bins, vec!["-static"]);
    assert_eq!(directives.link_arg_tests, vec!["-T"]);
    assert_eq!(directives.link_arg_examples, vec!["-E"]);
    assert_eq!(directives.cdylib_link_args, vec!["-Wl,-install_name"]);
    assert_eq!(directives.extra_metadata, vec!["abc"]);
    assert_eq!(directives.check_cfgs, vec!["cfg(feature, values(\"a\"))"]);
    assert_eq!(directives.rerun_if_changed, vec!["build.rs"]);
    assert_eq!(directives.rerun_if_env_changed, vec!["CARGO_FOO"]);
    assert_eq!(directives.warnings, vec!["look out"]);
    assert_eq!(directives.errors, vec!["boom"]);
}

#[test]
fn metadata_keys_become_dependent_env() {
    let directives = parse_directives(
        "cargo:FOO=bar\ncargo:BAZ=qux\ncargo::metadata=MODERN=value=with=equals\n",
    );
    assert_eq!(
        directives.metadata,
        vec![
            ("FOO".to_owned(), "bar".to_owned()),
            ("BAZ".to_owned(), "qux".to_owned()),
            ("MODERN".to_owned(), "value=with=equals".to_owned()),
        ]
    );
    assert!(directives.env.is_empty());
    assert!(directives.errors.is_empty());
}

#[test]
fn malformed_namespaced_metadata_fails_the_script() {
    let directives = parse_directives("cargo::metadata=missing-value\n");
    assert_eq!(directives.errors.len(), 1);
    assert!(directives.errors[0].contains("KEY=VALUE"));
}

#[test]
fn unknown_namespaced_directives_fail_the_script() {
    let directives = parse_directives("cargo::not-a-thing=value\n");
    assert_eq!(directives.errors.len(), 1);
    assert!(directives.errors[0].contains("not-a-thing"));
}

#[test]
fn plain_output_lines_are_ignored() {
    let directives = parse_directives("hello world\nsome warning text\n");
    assert_eq!(directives.errors.len(), 0);
    assert!(directives.cfgs.is_empty());
}


#[test]
fn both_spellings_say_the_same_but_on_unknown_keys() {
    let one = parse_directives("cargo:rustc-cfg=x\n");
    let two = parse_directives("cargo::rustc-cfg=x\n");
    assert_eq!(one.cfgs, two.cfgs);
    let one = parse_directives("cargo:custom=value\n");
    assert_eq!(one.metadata, vec![("custom".to_owned(), "value".to_owned())]);
    assert!(one.errors.is_empty());
    let two = parse_directives("cargo::custom=value\n");
    assert!(two.metadata.is_empty());
    assert_eq!(two.errors.len(), 1);
}

#[test]
fn directives_of_two_outputs_accumulate() {
    let both = parse_directives("cargo:rustc-cfg=a\nnoise\ncargo:rustc-cfg=b\n");
    assert_eq!(both.cfgs, vec!["a", "b"]);
    let none = Directives::default();
    assert!(none.cfgs.is_empty() && none.errors.is_empty() && none.metadata.is_empty());
}

#[test]
fn link_libraries_have_an_optional_kind() {
    assert_eq!(
        parse_link_lib("static:foo"),
        (Some("static".to_owned()), "foo".to_owned())
    );
    assert_eq!(parse_link_lib("static=foo"), (None, "static=foo".to_owned()));
    assert_eq!(
        parse_link_lib("framework:Cocoa"),
        (Some("framework".to_owned()), "Cocoa".to_owned())
    );
    assert_eq!(parse_link_lib("z"), (None, "z".to_owned()));
}

#[test]
fn quotes_are_taken_off_in_pairs() {
    assert_eq!(unquote("\"x\""), "x");
    assert_eq!(unquote("\"x"), "\"x");
    assert_eq!(unquote("x"), "x");
}

#[test]
fn search_paths_are_rooted_where_the_action_runs() {
    assert_eq!(link_search_arg("/exec", "native=/usr/lib"), "native=/usr/lib");
    assert_eq!(link_search_arg("/exec", "native=out"), "native=/exec/in/out");
    assert_eq!(link_search_arg("/exec", "out"), "/exec/in/out");
}
