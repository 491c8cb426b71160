//! What the canonical text of a package shows.

use vstd::prelude::*;
use vstd::string::*;
use crate::canonical::{
    bins_text, deps_text, env_lines, env_text, features_text, head_text, lib_text, manifest_text,
    relative_to, tests_text,
};
use crate::model::{BinView, CrateType, DepView, PackageView, TestView};
use crate::strmap::{ascending_of, lemma_ascending_of};
use crate::text::{join_spec, quoted, quoted_list};
use crate::unit_laws::type_word;
use crate::version::version_text;

verus! {

/// Whether a text holds another.
pub open spec fn shows(text: Seq<char>, part: Seq<char>) -> bool {
    exists|a: Seq<char>, b: Seq<char>| text == #[trigger] (a + part + b)
}

/// The word for a truth value.
pub open spec fn truth(b: bool) -> Seq<char> {
    if b {
        "true"@
    } else {
        "false"@
    }
}

proof fn lemma_shows(text: Seq<char>, a: Seq<char>, part: Seq<char>, b: Seq<char>)
    requires
        text =~= a + part + b,
    ensures
        shows(text, part),
{
}

proof fn lemma_shows_in(text: Seq<char>, a: Seq<char>, inner: Seq<char>, b: Seq<char>, part: Seq<
    char,
>)
    requires
        shows(inner, part),
        text =~= a + inner + b,
    ensures
        shows(text, part),
{
    let (c, d) = choose|c: Seq<char>, d: Seq<char>| inner == #[trigger] (c + part + d);
    assert(text =~= (a + c) + part + (d + b));
}

proof fn lemma_parts(p: PackageView, part: Seq<char>)
    ensures
        shows(head_text(p), part) ==> shows(manifest_text(p), part),
        shows(env_text(p.env), part) ==> shows(manifest_text(p), part),
        shows(features_text(p.features), part) ==> shows(manifest_text(p), part),
        shows(lib_text(p.lib, p.dir), part) ==> shows(manifest_text(p), part),
        shows(bins_text(p.bins, p.dir, p.bins.len() as int), part) ==> shows(
            manifest_text(p),
            part,
        ),
        shows(tests_text(p.tests, p.dir, p.tests.len() as int), part) ==> shows(
            manifest_text(p),
            part,
        ),
        shows(deps_text(p.deps, p.deps.len() as int), part) ==> shows(manifest_text(p), part),
        shows(deps_text(p.build_deps, p.build_deps.len() as int), part) ==> shows(
            manifest_text(p),
            part,
        ),
        shows(deps_text(p.dev_deps, p.dev_deps.len() as int), part) ==> shows(
            manifest_text(p),
            part,
        ),
{
    let a = head_text(p);
    let b = env_text(p.env);
    let c = features_text(p.features);
    let d = lib_text(p.lib, p.dir);
    let e = bins_text(p.bins, p.dir, p.bins.len() as int);
    let f = tests_text(p.tests, p.dir, p.tests.len() as int);
    let g = deps_text(p.deps, p.deps.len() as int);
    let h = deps_text(p.build_deps, p.build_deps.len() as int);
    let i = deps_text(p.dev_deps, p.dev_deps.len() as int);
    lemma_either(a, b, part);
    lemma_either(a + b, c, part);
    lemma_either(a + b + c, d, part);
    lemma_either(a + b + c + d, e, part);
    lemma_either(a + b + c + d + e, f, part);
    lemma_either(a + b + c + d + e + f, g, part);
    lemma_either(a + b + c + d + e + f + g, h, part);
    lemma_either(a + b + c + d + e + f + g + h, i, part);
}

proof fn lemma_either(a: Seq<char>, b: Seq<char>, part: Seq<char>)
    ensures
        shows(a, part) || shows(b, part) ==> shows(a + b, part),
{
    let none = Seq::<char>::empty();
    if shows(a, part) {
        lemma_shows_in(a + b, none, a, b, part);
    } else if shows(b, part) {
        lemma_shows_in(a + b, a, b, none, part);
    }
}

/// The text shows a package's name, version and edition, its flags and its build
/// script, the last below the package's directory.
pub proof fn texts_show_the_package(p: PackageView)
    ensures
        shows(manifest_text(p), "name = "@ + quoted(p.name) + "\n"@),
        shows(manifest_text(p), "version = "@ + quoted(p.version) + "\n"@),
        shows(
            manifest_text(p),
            "edition = "@ + quoted(crate::model::edition_text(p.edition)) + "\n"@,
        ),
        shows(manifest_text(p), "rustflags = "@ + quoted_list(p.rustflags) + "\n"@),
        p.build_script matches Some(script) ==> shows(
            manifest_text(p),
            "build_script = "@ + quoted(relative_to(script, p.dir)) + "\n"@,
        ),
{
    reveal_strlit("[package]\nname = ");
    reveal_strlit("[package]\n");
    reveal_strlit("name = ");
    reveal_strlit("\n");
    reveal_strlit("version = ");
    reveal_strlit("\nversion = ");
    reveal_strlit("edition = ");
    reveal_strlit("\nedition = ");
    assert("[package]\nname = "@ =~= "[package]\n"@ + "name = "@);
    assert("\nversion = "@ =~= "\n"@ + "version = "@);
    assert("\nedition = "@ =~= "\n"@ + "edition = "@);
    let head = head_text(p);
    let nl = "\n"@;
    let none = Seq::<char>::empty();
    let name = "name = "@ + quoted(p.name) + nl;
    let version = "version = "@ + quoted(p.version) + nl;
    let edition = "edition = "@ + quoted(crate::model::edition_text(p.edition)) + nl;
    let script = match p.build_script {
        Some(script) => "build_script = "@ + quoted(relative_to(script, p.dir)) + nl,
        None => none,
    };
    let flags = "rustflags = "@ + quoted_list(p.rustflags) + nl;
    let first = "[package]\n"@;
    assert(head =~= first + name + version + edition + script + flags);
    lemma_shows(head, first, name, version + edition + script + flags);
    lemma_shows(head, first + name, version, edition + script + flags);
    lemma_shows(head, first + name + version, edition, script + flags);
    lemma_shows(head, first + name + version + edition, script, flags);
    lemma_shows(head, first + name + version + edition + script, flags, none);
    lemma_parts(p, name);
    lemma_parts(p, version);
    lemma_parts(p, edition);
    lemma_parts(p, script);
    lemma_parts(p, flags);
}

proof fn lemma_env(names: Seq<Seq<char>>, env: Map<Seq<char>, Seq<char>>, n: int, k: int)
    requires
        0 <= k < n <= names.len(),
    ensures
        shows(
            env_lines(names, env, n),
            quoted(names[k]) + " = "@ + quoted(env[names[k]]) + "\n"@,
        ),
    decreases n,
{
    let all = env_lines(names, env, n);
    let before = env_lines(names, env, n - 1);
    let none = Seq::<char>::empty();
    let line = quoted(names[k]) + " = "@ + quoted(env[names[k]]) + "\n"@;
    if k < n - 1 {
        lemma_env(names, env, n - 1, k);
        let last = "  "@ + quoted(names[n - 1]) + " = "@ + quoted(env[names[n - 1]]) + "\n"@;
        lemma_shows_in(all, none, before, last, line);
    } else {
        lemma_shows(all, before + "  "@, line, none);
    }
}

/// The text shows each variable of a package with its value.
pub proof fn texts_show_the_environment(p: PackageView, name: Seq<char>)
    requires
        p.env.dom().finite(),
        p.env.contains_key(name),
    ensures
        shows(manifest_text(p), quoted(name) + " = "@ + quoted(p.env[name]) + "\n"@),
{
    lemma_ascending_of(p.env.dom());
    let names = ascending_of(p.env.dom());
    assert(p.env.dom().contains(name));
    assert(names.contains(name));
    let k = choose|k: int| 0 <= k < names.len() && names[k] == name;
    lemma_env(names, p.env, names.len() as int, k);
    let line = quoted(name) + " = "@ + quoted(p.env[name]) + "\n"@;
    lemma_shows_in(
        env_text(p.env),
        "env = [\n"@,
        env_lines(names, p.env, names.len() as int),
        "]\n"@,
        line,
    );
    lemma_parts(p, line);
}

proof fn lemma_joined(lines: Seq<Seq<char>>, between: Seq<char>, k: int)
    requires
        0 <= k < lines.len(),
    ensures
        shows(join_spec(lines, between), lines[k]),
    decreases lines.len(),
{
    let all = join_spec(lines, between);
    let none = Seq::<char>::empty();
    if lines.len() == 1 {
        lemma_shows(all, none, lines[k], none);
    } else {
        let less = lines.drop_last();
        let before = join_spec(less, between);
        if k < lines.len() - 1 {
            lemma_joined(less, between, k);
            assert(less[k] == lines[k]);
            lemma_shows_in(all, none, before, between + lines.last(), lines[k]);
        } else {
            lemma_shows(all, before + between, lines[k], none);
        }
    }
}

/// The text shows each feature of a package with all that it turns on.
pub proof fn texts_show_the_features(p: PackageView, name: Seq<char>)
    requires
        p.features.dom().finite(),
        p.features.contains_key(name),
    ensures
        shows(manifest_text(p), quoted(name) + " = "@ + quoted_list(p.features[name])),
{
    lemma_ascending_of(p.features.dom());
    let names = ascending_of(p.features.dom());
    assert(p.features.dom().contains(name));
    assert(names.contains(name));
    let k = choose|k: int| 0 <= k < names.len() && names[k] == name;
    let lines = names.map_values(
        |name: Seq<char>| crate::canonical::feature_line(name, p.features[name]),
    );
    let none = Seq::<char>::empty();
    let part = quoted(name) + " = "@ + quoted_list(p.features[name]);
    lemma_shows(lines[k], "  "@, part, none);
    lemma_joined(lines, "\n"@, k);
    let body = join_spec(lines, "\n"@);
    let (a, b) = choose|a: Seq<char>, b: Seq<char>| body == #[trigger] (a + lines[k] + b);
    lemma_shows_in(body, a, lines[k], b, part);
    lemma_shows_in(features_text(p.features), "features = [\n"@, body, "\n]\n"@, part);
    lemma_parts(p, part);
}

/// The text shows a library: its name, its crate types, whether it is a proc macro,
/// and its path below the package's directory.
pub proof fn texts_show_the_library(p: PackageView)
    requires
        p.lib is Some,
    ensures
        ({
            let lib = p.lib->0;
            let name = if lib.name is Some {
                lib.name->0
            } else {
                Seq::empty()
            };
            let words = Seq::new(lib.crate_types.len(), |k: int| type_word(lib.crate_types[k]));
            shows(
                manifest_text(p),
                "crate_name = "@ + quoted(name) + ",\n  crate_types = "@ + quoted_list(words)
                    + ",\n  proc_macro = "@ + truth(lib.proc_macro) + ",\n  path = "@ + quoted(
                    relative_to(lib.path, p.dir),
                ) + ",\n"@,
            )
        }),
{
    let lib = p.lib->0;
    let none = Seq::<char>::empty();
    let name = if lib.name is Some {
        lib.name->0
    } else {
        Seq::empty()
    };
    reveal_strlit("");
    assert(""@ =~= none);
    reveal_strlit("lib = {\n  crate_name = ");
    reveal_strlit("lib = {\n  ");
    reveal_strlit("crate_name = ");
    reveal_strlit(",\n}\n");
    reveal_strlit(",\n");
    reveal_strlit("}\n");
    assert("lib = {\n  crate_name = "@ =~= "lib = {\n  "@ + "crate_name = "@);
    assert(",\n}\n"@ =~= ",\n"@ + "}\n"@);
    let words = Seq::new(lib.crate_types.len(), |k: int| type_word(lib.crate_types[k]));
    assert forall|t: CrateType| #[trigger] type_word(t) == crate::model::crate_type_text(t) by {}
    assert(words =~= crate::canonical::crate_type_names(lib.crate_types));
    let part = "crate_name = "@ + quoted(name) + ",\n  crate_types = "@ + quoted_list(words)
        + ",\n  proc_macro = "@ + truth(lib.proc_macro) + ",\n  path = "@ + quoted(
        relative_to(lib.path, p.dir),
    ) + ",\n"@;
    lemma_shows(lib_text(p.lib, p.dir), "lib = {\n  "@, part, "}\n"@);
    lemma_parts(p, part);
}

proof fn lemma_bins(v: Seq<BinView>, dir: Seq<char>, n: int, k: int)
    requires
        0 <= k < n <= v.len(),
    ensures
        shows(bins_text(v, dir, n), crate::canonical::bin_line(v[k], dir)),
    decreases n,
{
    let all = bins_text(v, dir, n);
    let before = bins_text(v, dir, n - 1);
    let none = Seq::<char>::empty();
    if k < n - 1 {
        lemma_bins(v, dir, n - 1, k);
        lemma_shows_in(
            all,
            none,
            before,
            crate::canonical::bin_line(v[n - 1], dir),
            crate::canonical::bin_line(v[k], dir),
        );
    } else {
        lemma_shows(all, before, crate::canonical::bin_line(v[k], dir), none);
    }
}

/// The text shows each binary: its names, its path below the package's directory and
/// the features that it requires.
pub proof fn texts_show_the_binaries(p: PackageView, k: int)
    requires
        0 <= k < p.bins.len(),
    ensures
        shows(
            manifest_text(p),
            "bin = { name = "@ + quoted(p.bins[k].name) + ", crate_name = "@ + quoted(
                p.bins[k].crate_name,
            ) + ", path = "@ + quoted(relative_to(p.bins[k].path, p.dir))
                + ", required_features = "@ + quoted_list(p.bins[k].required_features) + " }\n"@,
        ),
{
    lemma_bins(p.bins, p.dir, p.bins.len() as int, k);
    lemma_parts(p, crate::canonical::bin_line(p.bins[k], p.dir));
}

proof fn lemma_tests(v: Seq<TestView>, dir: Seq<char>, n: int, k: int)
    requires
        0 <= k < n <= v.len(),
    ensures
        shows(tests_text(v, dir, n), crate::canonical::test_line(v[k], dir)),
    decreases n,
{
    let all = tests_text(v, dir, n);
    let before = tests_text(v, dir, n - 1);
    let none = Seq::<char>::empty();
    if k < n - 1 {
        lemma_tests(v, dir, n - 1, k);
        lemma_shows_in(
            all,
            none,
            before,
            crate::canonical::test_line(v[n - 1], dir),
            crate::canonical::test_line(v[k], dir),
        );
    } else {
        lemma_shows(all, before, crate::canonical::test_line(v[k], dir), none);
    }
}

/// The text shows each test: its name, its path below the package's directory, how it
/// is run and the features that it requires.
pub proof fn texts_show_the_tests(p: PackageView, k: int)
    requires
        0 <= k < p.tests.len(),
    ensures
        shows(
            manifest_text(p),
            "test = { name = "@ + quoted(p.tests[k].name) + ", path = "@ + quoted(
                relative_to(p.tests[k].path, p.dir),
            ) + ", harness = "@ + truth(p.tests[k].harness) + ", doc = "@ + truth(p.tests[k].doc)
                + ", cache_test_result = "@ + truth(p.tests[k].cache_test_result)
                + ", required_features = "@ + quoted_list(p.tests[k].required_features) + " }\n"@,
        ),
{
    lemma_tests(p.tests, p.dir, p.tests.len() as int, k);
    lemma_parts(p, crate::canonical::test_line(p.tests[k], p.dir));
}

/// The line that shows a dependency.
pub open spec fn shown_edge(d: DepView) -> Seq<char> {
    "dep = { extern = "@ + quoted(d.extern_name) + ", package = "@ + quoted(d.package.name)
        + ", version = "@ + quoted(version_text(d.package.version)) + ", optional = "@ + truth(
        d.optional,
    ) + ", default_features = "@ + truth(d.default_features) + ", features = "@ + quoted_list(
        d.features,
    ) + " }\n"@
}

proof fn lemma_deps(v: Seq<DepView>, n: int, k: int)
    requires
        0 <= k < n <= v.len(),
    ensures
        shows(deps_text(v, n), shown_edge(v[k])),
    decreases n,
{
    let all = deps_text(v, n);
    let before = deps_text(v, n - 1);
    let none = Seq::<char>::empty();
    assert(crate::canonical::dep_line(v[k]) == shown_edge(v[k]));
    if k < n - 1 {
        lemma_deps(v, n - 1, k);
        lemma_shows_in(all, none, before, crate::canonical::dep_line(v[n - 1]), shown_edge(v[k]));
    } else {
        lemma_shows(all, before, shown_edge(v[k]), none);
    }
}

/// The text shows every dependency of each kind, with its package and its features.
pub proof fn texts_show_the_dependencies(p: PackageView, k: int)
    ensures
        0 <= k < p.deps.len() ==> shows(manifest_text(p), shown_edge(p.deps[k])),
        0 <= k < p.build_deps.len() ==> shows(manifest_text(p), shown_edge(p.build_deps[k])),
        0 <= k < p.dev_deps.len() ==> shows(manifest_text(p), shown_edge(p.dev_deps[k])),
{
    if 0 <= k < p.deps.len() {
        lemma_deps(p.deps, p.deps.len() as int, k);
        lemma_parts(p, shown_edge(p.deps[k]));
    }
    if 0 <= k < p.build_deps.len() {
        lemma_deps(p.build_deps, p.build_deps.len() as int, k);
        lemma_parts(p, shown_edge(p.build_deps[k]));
    }
    if 0 <= k < p.dev_deps.len() {
        lemma_deps(p.dev_deps, p.dev_deps.len() as int, k);
        lemma_parts(p, shown_edge(p.dev_deps[k]));
    }
}

} // verus!
