//! The canonical text of a package, which its digest is taken of.

use vstd::prelude::*;
use vstd::string::*;
use crate::model::{
    crate_type_text, deps_view, edition_text, env_view, features_view, BinTarget, BinView, CrateType, Dep,
    DepView, LibTarget, LibView, Package, PackageView, TestTarget, TestView,
};
use crate::paths::{components, components_spec, counts, joined, kept};
use crate::strmap::{ascending, ascending_of, lemma_ascending_unique, StrMap};
use crate::text::{
    cat3, cat5, join, join_spec, lemma_split_nonempty, lemma_split_push, lemma_split_single,
    owned, push_string, push_text, quote, quote_list, quoted, quoted_list, same, split,
    split_spec, starts, starts_with, texts,
};
use crate::version::version_text;

verus! {

// ---- Relative paths ----------------------------------------------------------------------

/// The position behind the next `k` segments that count, from a position on.
pub open spec fn behind(segments: Seq<Seq<char>>, at: int, k: int) -> int
    decreases segments.len() - at,
{
    if k <= 0 || at < 0 || at >= segments.len() {
        at
    } else if counts(segments[at], at == 0) {
        behind(segments, at + 1, k - 1)
    } else {
        behind(segments, at + 1, k)
    }
}

/// Segments without those at the front that do not count.
pub open spec fn trim_front(segments: Seq<Seq<char>>) -> Seq<Seq<char>>
    decreases segments.len(),
{
    if segments.len() > 0 && !counts(segments[0], false) {
        trim_front(segments.skip(1))
    } else {
        segments
    }
}

/// Segments without those at the back that do not count.
pub open spec fn trim_back(segments: Seq<Seq<char>>) -> Seq<Seq<char>>
    decreases segments.len(),
{
    if segments.len() > 0 && !counts(segments.last(), false) {
        trim_back(segments.drop_last())
    } else {
        segments
    }
}

/// A path without what does not count at its back.
pub open spec fn bare(path: Seq<char>) -> Seq<char> {
    let t = trim_back(split_spec(path, '/'));
    if t.len() > 0 {
        join_spec(t, "/"@)
    } else if components_spec(path).len() > 0 {
        components_spec(path)[0]
    } else {
        Seq::empty()
    }
}

/// What a path is below a directory, where it lies there by its components.
pub open spec fn stripped(path: Seq<char>, dir: Seq<char>) -> Option<Seq<char>> {
    let c = components_spec(path);
    let d = components_spec(dir);
    if d.len() > c.len() || c.take(d.len() as int) != d {
        None
    } else if d.len() == 0 {
        Some(bare(path))
    } else {
        let segments = split_spec(path, '/');
        let k: int = if starts(path, "/"@) {
            d.len() - 1
        } else {
            d.len() as int
        };
        Some(join_spec(trim_back(trim_front(segments.skip(behind(segments, 0, k)))), "/"@))
    }
}

/// A path relative to a directory; as it is where it lies elsewhere.
pub open spec fn relative_to(path: Seq<char>, dir: Seq<char>) -> Seq<char> {
    match stripped(path, dir) {
        Some(p) => p,
        None => path,
    }
}

fn segment_counts(s: &str, first: bool) -> (r: bool)
    ensures
        r == counts(s@, first),
{
    !same(s, "") && (!same(s, ".") || first)
}

/// The segments from `from` to `to`, without those at either end that do not
/// count, as a path.
fn trimmed(segments: &Vec<String>, from: usize) -> (r: String)
    requires
        from <= segments@.len(),
    ensures
        r@ == join_spec(trim_back(trim_front(texts(segments@).skip(from as int))), "/"@),
{
    let ghost all = texts(segments@);
    let ghost start = all.skip(from as int);
    let mut a: usize = from;
    while a < segments.len() && !segment_counts(&segments[a], false)
        invariant
            from <= a <= segments@.len(),
            all == texts(segments@),
            all.len() == segments@.len(),
            trim_front(start) == trim_front(all.skip(a as int)),
        decreases segments@.len() - a,
    {
        assert(all[a as int] == segments@[a as int]@);
        assert(all.skip(a as int)[0] == all[a as int]);
        assert(all.skip(a as int).skip(1) =~= all.skip(a as int + 1));
        a += 1;
    }
    let ghost front = all.skip(a as int);
    proof {
        if a < segments@.len() {
            assert(all[a as int] == segments@[a as int]@);
            assert(front[0] == all[a as int]);
        }
        assert(trim_front(start) == front);
    }
    let mut b: usize = segments.len();
    assert(all.subrange(a as int, b as int) =~= front);
    while b > a && !segment_counts(&segments[b - 1], false)
        invariant
            a <= b <= segments@.len(),
            all == texts(segments@),
            all.len() == segments@.len(),
            trim_back(front) == trim_back(all.subrange(a as int, b as int)),
        decreases b,
    {
        let ghost part = all.subrange(a as int, b as int);
        assert(all[b - 1] == segments@[b - 1]@);
        assert(part.last() == all[b - 1]);
        assert(part.drop_last() =~= all.subrange(a as int, b - 1));
        b -= 1;
    }
    let ghost part = all.subrange(a as int, b as int);
    proof {
        if b > a {
            assert(all[b - 1] == segments@[b - 1]@);
            assert(part.last() == all[b - 1]);
        }
        assert(trim_back(front) == part);
    }
    let mut out: Vec<String> = Vec::new();
    let mut i: usize = a;
    assert(texts(out@) =~= all.subrange(a as int, a as int));
    while i < b
        invariant
            a <= i <= b <= segments@.len(),
            all == texts(segments@),
            texts(out@) == all.subrange(a as int, i as int),
        decreases b - i,
    {
        push_text(&mut out, &segments[i]);
        i += 1;
        assert(texts(out@) =~= all.subrange(a as int, i as int));
    }
    join(&out, "/")
}

/// A path without what does not count at its back.
fn without_back(path: &str) -> (r: String)
    ensures
        r@ == bare(path@),
{
    let segments = split(path, '/');
    let ghost all = texts(segments@);
    let mut b: usize = segments.len();
    assert(all.take(b as int) =~= all);
    while b > 0 && !segment_counts(&segments[b - 1], false)
        invariant
            b <= segments@.len(),
            all == texts(segments@),
            all.len() == segments@.len(),
            trim_back(all) == trim_back(all.take(b as int)),
        decreases b,
    {
        assert(all[b - 1] == segments@[b - 1]@);
        assert(all.take(b as int).last() == all[b - 1]);
        assert(all.take(b as int).drop_last() =~= all.take(b - 1));
        b -= 1;
    }
    proof {
        if b > 0 {
            assert(all[b - 1] == segments@[b - 1]@);
            assert(all.take(b as int).last() == all[b - 1]);
        }
        assert(trim_back(all) == all.take(b as int));
    }
    if b == 0 {
        let c = components(path);
        if c.len() == 0 {
            let r = owned("");
            proof {
                reveal_strlit("");
                assert(r@ =~= Seq::<char>::empty());
                assert(components_spec(path@).len() == 0);
            }
            return r;
        }
        assert(texts(c@)[0] == c@[0]@);
        return c[0].clone();
    }
    let mut out: Vec<String> = Vec::new();
    let mut i: usize = 0;
    assert(texts(out@) =~= all.take(0));
    while i < b
        invariant
            i <= b <= segments@.len(),
            all == texts(segments@),
            texts(out@) == all.take(i as int),
        decreases b - i,
    {
        push_text(&mut out, &segments[i]);
        i += 1;
        assert(texts(out@) =~= all.take(i as int));
    }
    join(&out, "/")
}

/// A path relative to a directory; as it is where it lies elsewhere.
pub fn relative(path: &str, dir: &str) -> (r: String)
    ensures
        r@ == relative_to(path@, dir@),
{
    let c = components(path);
    let d = components(dir);
    let ghost x = texts(c@);
    let ghost y = texts(d@);
    assert(x.len() == c@.len() && y.len() == d@.len());
    if d.len() > c.len() {
        return owned(path);
    }
    let mut i: usize = 0;
    while i < d.len()
        invariant
            i <= d@.len() <= c@.len(),
            x == texts(c@),
            y == texts(d@),
            x == components_spec(path@),
            y == components_spec(dir@),
            forall|k: int| 0 <= k < i ==> x[k] == y[k],
        decreases d@.len() - i,
    {
        assert(x[i as int] == c@[i as int]@);
        assert(y[i as int] == d@[i as int]@);
        if !same(&c[i], &d[i]) {
            assert(x.take(y.len() as int)[i as int] != y[i as int]);
            return owned(path);
        }
        i += 1;
    }
    assert(x.take(y.len() as int) =~= y);
    if d.len() == 0 {
        return without_back(path);
    }
    let segments = split(path, '/');
    let ghost all = texts(segments@);
    let mut left: usize = if starts_with(path, "/") {
        d.len() - 1
    } else {
        d.len()
    };
    let ghost k: int = left as int;
    let mut at: usize = 0;
    while left > 0 && at < segments.len()
        invariant
            at <= segments@.len(),
            all == texts(segments@),
            all.len() == segments@.len(),
            behind(all, 0, k) == behind(all, at as int, left as int),
        decreases segments@.len() - at,
    {
        assert(all[at as int] == segments@[at as int]@);
        if segment_counts(&segments[at], at == 0) {
            left -= 1;
        }
        at += 1;
    }
    trimmed(&segments, at)
}

// ---- The text ----------------------------------------------------------------------------

/// A truth value as text.
pub open spec fn bool_text(b: bool) -> Seq<char> {
    if b {
        "true"@
    } else {
        "false"@
    }
}

fn write_bool(b: bool) -> (r: &'static str)
    ensures
        r@ == bool_text(b),
{
    if b {
        "true"
    } else {
        "false"
    }
}

/// The lines of a package's own fields.
pub open spec fn head_text(p: PackageView) -> Seq<char> {
    "[package]\nname = "@ + quoted(p.name) + "\nversion = "@ + quoted(p.version)
        + "\nedition = "@ + quoted(edition_text(p.edition)) + "\n"@ + (match p.build_script {
        Some(script) => "build_script = "@ + quoted(relative_to(script, p.dir)) + "\n"@,
        None => Seq::empty(),
    }) + "rustflags = "@ + quoted_list(p.rustflags) + "\n"@
}

/// The lines of the first `n` variables.
pub open spec fn env_lines(names: Seq<Seq<char>>, env: Map<Seq<char>, Seq<char>>, n: int) -> Seq<
    char,
>
    decreases n,
{
    if n <= 0 {
        Seq::empty()
    } else {
        env_lines(names, env, n - 1) + ("  "@ + quoted(names[n - 1]) + " = "@ + quoted(
            env[names[n - 1]],
        ) + "\n"@)
    }
}

/// The lines of the environment, none where it is empty.
pub open spec fn env_text(env: Map<Seq<char>, Seq<char>>) -> Seq<char> {
    let names = ascending_of(env.dom());
    if names.len() == 0 {
        Seq::empty()
    } else {
        "env = [\n"@ + env_lines(names, env, names.len() as int) + "]\n"@
    }
}

/// The line of a feature.
pub open spec fn feature_line(name: Seq<char>, refs: Seq<Seq<char>>) -> Seq<char> {
    "  "@ + quoted(name) + " = "@ + quoted_list(refs)
}

/// The lines of the features.
pub open spec fn features_text(features: Map<Seq<char>, Seq<Seq<char>>>) -> Seq<char> {
    let names = ascending_of(features.dom());
    let lines = names.map_values(|name: Seq<char>| feature_line(name, features[name]));
    "features = [\n"@ + join_spec(lines, "\n"@) + "\n]\n"@
}

/// The names of crate types.
pub open spec fn crate_type_names(v: Seq<CrateType>) -> Seq<Seq<char>> {
    v.map_values(|t: CrateType| crate_type_text(t))
}

/// The lines of the library.
pub open spec fn lib_text(lib: Option<LibView>, dir: Seq<char>) -> Seq<char> {
    match lib {
        None => Seq::empty(),
        Some(lib) => "lib = {\n  crate_name = "@ + quoted(
            match lib.name {
                Some(name) => name,
                None => ""@,
            },
        ) + ",\n  crate_types = "@ + quoted_list(crate_type_names(lib.crate_types))
            + ",\n  proc_macro = "@ + bool_text(lib.proc_macro) + ",\n  path = "@ + quoted(
            relative_to(lib.path, dir),
        ) + ",\n}\n"@,
    }
}

/// The line of a binary.
pub open spec fn bin_line(b: BinView, dir: Seq<char>) -> Seq<char> {
    "bin = { name = "@ + quoted(b.name) + ", crate_name = "@ + quoted(b.crate_name) + ", path = "@
        + quoted(relative_to(b.path, dir)) + ", required_features = "@ + quoted_list(
        b.required_features,
    ) + " }\n"@
}

/// The lines of the first `n` binaries.
pub open spec fn bins_text(v: Seq<BinView>, dir: Seq<char>, n: int) -> Seq<char>
    decreases n,
{
    if n <= 0 {
        Seq::empty()
    } else {
        bins_text(v, dir, n - 1) + bin_line(v[n - 1], dir)
    }
}

/// The line of a test.
pub open spec fn test_line(t: TestView, dir: Seq<char>) -> Seq<char> {
    "test = { name = "@ + quoted(t.name) + ", path = "@ + quoted(relative_to(t.path, dir))
        + ", harness = "@ + bool_text(t.harness) + ", doc = "@ + bool_text(t.doc)
        + ", cache_test_result = "@ + bool_text(t.cache_test_result) + ", required_features = "@
        + quoted_list(t.required_features) + " }\n"@
}

/// The lines of the first `n` tests.
pub open spec fn tests_text(v: Seq<TestView>, dir: Seq<char>, n: int) -> Seq<char>
    decreases n,
{
    if n <= 0 {
        Seq::empty()
    } else {
        tests_text(v, dir, n - 1) + test_line(v[n - 1], dir)
    }
}

/// The line of a dependency.
pub open spec fn dep_line(d: DepView) -> Seq<char> {
    "dep = { extern = "@ + quoted(d.extern_name) + ", package = "@ + quoted(d.package.name)
        + ", version = "@ + quoted(version_text(d.package.version)) + ", optional = "@ + bool_text(
        d.optional,
    ) + ", default_features = "@ + bool_text(d.default_features) + ", features = "@ + quoted_list(
        d.features,
    ) + " }\n"@
}

/// The lines of the first `n` dependencies.
pub open spec fn deps_text(v: Seq<DepView>, n: int) -> Seq<char>
    decreases n,
{
    if n <= 0 {
        Seq::empty()
    } else {
        deps_text(v, n - 1) + dep_line(v[n - 1])
    }
}

/// The canonical text of a package.
pub open spec fn manifest_text(p: PackageView) -> Seq<char> {
    head_text(p) + env_text(p.env) + features_text(p.features) + lib_text(p.lib, p.dir)
        + bins_text(p.bins, p.dir, p.bins.len() as int) + tests_text(
        p.tests,
        p.dir,
        p.tests.len() as int,
    ) + deps_text(p.deps, p.deps.len() as int) + deps_text(
        p.build_deps,
        p.build_deps.len() as int,
    ) + deps_text(p.dev_deps, p.dev_deps.len() as int)
}

fn write_head(p: &Package) -> (r: String)
    ensures
        r@ == head_text(p@),
{
    let mut out = cat3("[package]\nname = ", &quote(&p.name), "\nversion = ");
    out.append(&quote(&p.version));
    out.append("\nedition = ");
    out.append(&quote(p.edition.to_rustc()));
    out.append("\n");
    let ghost before = out@;
    if let Some(script) = &p.build_script {
        let line = cat3("build_script = ", &quote(&relative(script, &p.dir)), "\n");
        out.append(&line);
    }
    proof {
        let script: Seq<char> = match p@.build_script {
            Some(script) => "build_script = "@ + quoted(relative_to(script, p@.dir)) + "\n"@,
            None => Seq::empty(),
        };
        assert(out@ =~= before + script);
    }
    out.append("rustflags = ");
    out.append(&quote_list(&p.rustflags));
    out.append("\n");
    out
}

proof fn lemma_names<V>(m: &StrMap<V>)
    requires
        ascending(m.keys()),
    ensures
        m.keys() == ascending_of(m@.dom()),
{
    vstd::seq_lib::seq_to_set_is_finite(m.keys());
    assert(m@.dom() =~= m.keys().to_set());
    crate::strmap::lemma_ascending_of(m@.dom());
    lemma_ascending_unique(m.keys(), ascending_of(m@.dom()));
}

fn write_env(env: &StrMap<String>) -> (r: String)
    ensures
        r@ == env_text(env_view(env@)),
{
    let n = env.len();
    let ghost names = env.keys();
    let ghost v = env_view(env@);
    proof {
        lemma_names(env);
        assert(v.dom() =~= env@.dom());
    }
    let mut lines = owned("");
    proof {
        reveal_strlit("");
        assert(lines@ =~= Seq::<char>::empty());
    }
    if n == 0 {
        return lines;
    }
    let mut i: usize = 0;
    while i < n
        invariant
            i <= n,
            n == names.len(),
            names == env.keys(),
            v == env_view(env@),
            lines@ == env_lines(names, v, i as int),
        decreases n - i,
    {
        let key = env.key(i);
        let value = env.value(i);
        assert(names[i as int] == key@);
        assert(v[key@] == value@);
        let line = cat5("  ", &quote(key), " = ", &quote(value), "\n");
        lines.append(&line);
        i += 1;
    }
    cat3("env = [\n", &lines, "]\n")
}

fn write_features(features: &StrMap<Vec<String>>) -> (r: String)
    ensures
        r@ == features_text(features_view(features@)),
{
    let n = features.len();
    let ghost names = features.keys();
    let ghost v = features_view(features@);
    let ghost all = names.map_values(|name: Seq<char>| feature_line(name, v[name]));
    proof {
        lemma_names(features);
        assert(v.dom() =~= features@.dom());
    }
    let mut lines: Vec<String> = Vec::new();
    let mut i: usize = 0;
    assert(texts(lines@) =~= all.take(0));
    while i < n
        invariant
            i <= n,
            n == names.len(),
            names == features.keys(),
            v == features_view(features@),
            all == names.map_values(|name: Seq<char>| feature_line(name, v[name])),
            texts(lines@) == all.take(i as int),
        decreases n - i,
    {
        let key = features.key(i);
        let refs = features.value(i);
        assert(names[i as int] == key@);
        assert(v[key@] == texts(refs@));
        let mut line = cat3("  ", &quote(key), " = ");
        line.append(&quote_list(refs));
        assert(line@ == feature_line(key@, texts(refs@)));
        push_string(&mut lines, line);
        i += 1;
        assert(texts(lines@) =~= all.take(i as int));
    }
    assert(all.take(n as int) =~= all);
    cat3("features = [\n", &join(&lines, "\n"), "\n]\n")
}

fn crate_type_list(v: &Vec<CrateType>) -> (r: Vec<String>)
    ensures
        texts(r@) == crate_type_names(v@),
{
    let mut out: Vec<String> = Vec::new();
    let ghost all = crate_type_names(v@);
    let mut i: usize = 0;
    assert(texts(out@) =~= all.take(0));
    while i < v.len()
        invariant
            i <= v@.len(),
            all == crate_type_names(v@),
            texts(out@) == all.take(i as int),
        decreases v@.len() - i,
    {
        push_text(&mut out, v[i].to_rustc());
        i += 1;
        assert(texts(out@) =~= all.take(i as int));
    }
    assert(all.take(v@.len() as int) =~= all);
    out
}

/// What a library target that there may be is.
pub open spec fn lib_view(lib: Option<LibTarget>) -> Option<LibView> {
    match lib {
        Some(l) => Some(l@),
        None => None,
    }
}

fn write_lib(lib: &Option<LibTarget>, dir: &str) -> (r: String)
    ensures
        r@ == lib_text(lib_view(*lib), dir@),
{
    match lib {
        None => {
            let r = owned("");
            proof {
                reveal_strlit("");
                assert(r@ =~= Seq::<char>::empty());
            }
            r
        },
        Some(lib) => {
            let name = match &lib.name {
                Some(name) => quote(name),
                None => quote(""),
            };
            let mut out = cat3("lib = {\n  crate_name = ", &name, ",\n  crate_types = ");
            out.append(&quote_list(&crate_type_list(&lib.crate_types)));
            out.append(",\n  proc_macro = ");
            out.append(write_bool(lib.proc_macro));
            out.append(",\n  path = ");
            out.append(&quote(&relative(&lib.path, dir)));
            out.append(",\n}\n");
            out
        },
    }
}

fn write_bin(b: &BinTarget, dir: &str) -> (r: String)
    ensures
        r@ == bin_line(b@, dir@),
{
    let mut out = cat3("bin = { name = ", &quote(&b.name), ", crate_name = ");
    out.append(&quote(&b.crate_name));
    out.append(", path = ");
    out.append(&quote(&relative(&b.path, dir)));
    out.append(", required_features = ");
    out.append(&quote_list(&b.required_features));
    out.append(" }\n");
    out
}

fn write_test(t: &TestTarget, dir: &str) -> (r: String)
    ensures
        r@ == test_line(t@, dir@),
{
    let mut out = cat3("test = { name = ", &quote(&t.name), ", path = ");
    out.append(&quote(&relative(&t.path, dir)));
    out.append(", harness = ");
    out.append(write_bool(t.harness));
    out.append(", doc = ");
    out.append(write_bool(t.doc));
    out.append(", cache_test_result = ");
    out.append(write_bool(t.cache_test_result));
    out.append(", required_features = ");
    out.append(&quote_list(&t.required_features));
    out.append(" }\n");
    out
}

fn write_dep(d: &Dep) -> (r: String)
    ensures
        r@ == dep_line(d@),
{
    let mut out = cat3("dep = { extern = ", &quote(&d.extern_name), ", package = ");
    out.append(&quote(&d.package.name));
    out.append(", version = ");
    out.append(&quote(&d.package.version.to_text()));
    out.append(", optional = ");
    out.append(write_bool(d.optional));
    out.append(", default_features = ");
    out.append(write_bool(d.default_features));
    out.append(", features = ");
    out.append(&quote_list(&d.features));
    out.append(" }\n");
    out
}

fn append_deps(out: &mut String, v: &Vec<Dep>)
    ensures
        final(out)@ == old(out)@ + deps_text(deps_view(v@), v@.len() as int),
{
    let ghost before = out@;
    let ghost all = deps_view(v@);
    let mut i: usize = 0;
    assert(out@ =~= before + deps_text(all, 0));
    while i < v.len()
        invariant
            i <= v@.len(),
            all == deps_view(v@),
            out@ == before + deps_text(all, i as int),
        decreases v@.len() - i,
    {
        assert(all[i as int] == v@[i as int]@);
        let line = write_dep(&v[i]);
        out.append(&line);
        i += 1;
        assert(out@ =~= before + deps_text(all, i as int));
    }
}

impl Package {
    /// A deterministic, label-independent rendering of the package's manifest
    /// contribution.
    ///
    /// Native targets capture this instead of the raw manifest file: renaming a
    /// target's table never changes it as long as the stable fields stay
    /// unchanged. Paths render relative to the package directory: absolute host
    /// paths never enter a digest. Dependency edges render as their resolved
    /// identities, never as labels.
    pub fn canonical_manifest(&self) -> (r: String)
        ensures
            r@ == manifest_text(self@),
    {
        let mut out = write_head(self);
        out.append(&write_env(&self.env));
        out.append(&write_features(&self.features));
        out.append(&write_lib(&self.lib, &self.dir));
        let ghost start = out@;
        let ghost bins = self@.bins;
        let mut i: usize = 0;
        assert(out@ =~= start + bins_text(bins, self.dir@, 0));
        while i < self.bins.len()
            invariant
                i <= self.bins@.len(),
                bins == self@.bins,
                out@ == start + bins_text(bins, self.dir@, i as int),
            decreases self.bins@.len() - i,
        {
            assert(bins[i as int] == self.bins@[i as int]@);
            let line = write_bin(&self.bins[i], &self.dir);
            out.append(&line);
            i += 1;
            assert(out@ =~= start + bins_text(bins, self.dir@, i as int));
        }
        let ghost start = out@;
        let ghost tests = self@.tests;
        let mut k: usize = 0;
        assert(out@ =~= start + tests_text(tests, self.dir@, 0));
        while k < self.tests.len()
            invariant
                k <= self.tests@.len(),
                tests == self@.tests,
                out@ == start + tests_text(tests, self.dir@, k as int),
            decreases self.tests@.len() - k,
        {
            assert(tests[k as int] == self.tests@[k as int]@);
            let line = write_test(&self.tests[k], &self.dir);
            out.append(&line);
            k += 1;
            assert(out@ =~= start + tests_text(tests, self.dir@, k as int));
        }
        append_deps(&mut out, &self.deps);
        append_deps(&mut out, &self.build_deps);
        append_deps(&mut out, &self.dev_deps);
        out
    }
}

// ---- Laws --------------------------------------------------------------------------------

/// The parts of two texts with a separator between them are the parts of both.
proof fn lemma_split_cat(a: Seq<char>, b: Seq<char>)
    ensures
        split_spec(a + "/"@ + b, '/') == split_spec(a, '/') + split_spec(b, '/'),
    decreases b.len(),
{
    reveal_strlit("/");
    let s = a + "/"@ + b;
    if b.contains('/') {
        b.index_of_last_ensures('/');
        let i = b.index_of_last('/')->0;
        lemma_split_push(b, '/', i);
        let at = a.len() + 1 + i;
        assert forall|j: int| at < j < s.len() implies s[j] != '/' by {
            assert(s[j] == b[j - a.len() - 1]);
        }
        lemma_split_push(s, '/', at);
        lemma_split_cat(a, b.take(i));
        assert(s.take(at) =~= a + "/"@ + b.take(i));
        assert(s.skip(at + 1) =~= b.skip(i + 1));
        assert(split_spec(s, '/') =~= split_spec(a, '/') + split_spec(b, '/'));
    } else {
        lemma_split_single(b, '/');
        assert forall|j: int| a.len() < j < s.len() implies s[j] != '/' by {
            assert(s[j] == b[j - a.len() - 1]);
        }
        assert(s[a.len() as int] == '/');
        lemma_split_push(s, '/', a.len() as int);
        assert(s.take(a.len() as int) =~= a);
        assert(s.skip(a.len() as int + 1) =~= b);
        assert(split_spec(s, '/') =~= split_spec(a, '/') + split_spec(b, '/'));
    }
}

/// The segments that count of `a` and then `b` begin with those of `a`.
proof fn lemma_kept_prefix(a: Seq<Seq<char>>, b: Seq<Seq<char>>)
    requires
        a.len() > 0,
    ensures
        kept(a).len() <= kept(a + b).len(),
        kept(a + b).take(kept(a).len() as int) == kept(a),
    decreases b.len(),
{
    if b.len() == 0 {
        assert(a + b =~= a);
        assert(kept(a).take(kept(a).len() as int) =~= kept(a));
    } else {
        lemma_kept_prefix(a, b.drop_last());
        assert((a + b).drop_last() =~= a + b.drop_last());
        let c = kept(a + b.drop_last());
        assert(kept(a + b) == c || kept(a + b) == c.push(b.last()));
        assert(kept(a + b).take(kept(a).len() as int) =~= c.take(kept(a).len() as int));
    }
}

/// The number of segments that count from a position to the end of `a`.
spec fn left_in(a: Seq<Seq<char>>, at: int) -> int
    decreases a.len() - at,
{
    if at < 0 || at >= a.len() {
        0
    } else {
        left_in(a, at + 1) + (if counts(a[at], at == 0) {
            1int
        } else {
            0int
        })
    }
}

proof fn lemma_left_nonnegative(a: Seq<Seq<char>>, at: int)
    ensures
        left_in(a, at) >= 0,
    decreases a.len() - at,
{
    if 0 <= at < a.len() {
        lemma_left_nonnegative(a, at + 1);
    }
}

proof fn lemma_left_push(a: Seq<Seq<char>>, x: Seq<char>, at: int)
    requires
        0 <= at <= a.len(),
    ensures
        left_in(a.push(x), at) == left_in(a, at) + (if counts(x, a.len() == 0) {
            1int
        } else {
            0int
        }),
    decreases a.len() - at,
{
    if at < a.len() {
        lemma_left_push(a, x, at + 1);
        assert(a.push(x)[at] == a[at]);
    } else {
        assert(left_in(a.push(x), at + 1) == 0);
    }
}

proof fn lemma_kept_len(a: Seq<Seq<char>>)
    ensures
        kept(a).len() == left_in(a, 0),
    decreases a.len(),
{
    if a.len() > 0 {
        lemma_kept_len(a.drop_last());
        lemma_left_push(a.drop_last(), a.last(), 0);
        assert(a.drop_last().push(a.last()) =~= a);
    }
}

/// Behind the segments of `a` that count, nothing of `a` counts.
proof fn lemma_behind(a: Seq<Seq<char>>, b: Seq<Seq<char>>, at: int)
    requires
        0 <= at <= a.len(),
    ensures
        ({
            let j = behind(a + b, at, left_in(a, at));
            &&& at <= j <= a.len()
            &&& forall|i: int| j <= i < a.len() ==> !counts(#[trigger] a[i], i == 0)
        }),
    decreases a.len() - at,
{
    lemma_left_nonnegative(a, at);
    if at < a.len() {
        assert((a + b)[at] == a[at]);
        lemma_left_nonnegative(a, at + 1);
        if left_in(a, at) > 0 {
            lemma_behind(a, b, at + 1);
        } else {
            lemma_none_left(a, at);
        }
    }
}

proof fn lemma_none_left(a: Seq<Seq<char>>, at: int)
    requires
        0 <= at <= a.len(),
        left_in(a, at) == 0,
    ensures
        forall|i: int| at <= i < a.len() ==> !counts(#[trigger] a[i], i == 0),
    decreases a.len() - at,
{
    if at < a.len() {
        lemma_left_nonnegative(a, at + 1);
        lemma_none_left(a, at + 1);
    }
}

proof fn lemma_trim_front_cat(x: Seq<Seq<char>>, y: Seq<Seq<char>>)
    requires
        forall|i: int| 0 <= i < x.len() ==> !counts(#[trigger] x[i], false),
    ensures
        trim_front(x + y) == trim_front(y),
    decreases x.len(),
{
    if x.len() == 0 {
        assert(x + y =~= y);
    } else {
        assert((x + y)[0] == x[0]);
        assert((x + y).skip(1) =~= x.skip(1) + y);
        assert forall|i: int| 0 <= i < x.skip(1).len() implies !counts(
            #[trigger] x.skip(1)[i],
            false,
        ) by {
            assert(x.skip(1)[i] == x[i + 1]);
        }
        lemma_trim_front_cat(x.skip(1), y);
    }
}

/// A path below a directory is rendered without the directory: what is rendered
/// is the same for every directory.
pub proof fn paths_render_below_their_directory(dir: Seq<char>, path: Seq<char>)
    requires
        dir.len() > 0,
        !starts(path, "/"@),
    ensures
        relative_to(joined(dir, path), dir) == join_spec(
            trim_back(trim_front(split_spec(path, '/'))),
            "/"@,
        ),
{
    reveal_strlit("/");
    reveal_strlit("");
    reveal_strlit(".");
    let whole = joined(dir, path);
    let body = if dir.last() == '/' {
        dir.drop_last()
    } else {
        dir
    };
    assert(whole =~= body + "/"@ + path);
    let a = split_spec(body, '/');
    let b = split_spec(path, '/');
    lemma_split_cat(body, path);
    lemma_split_nonempty(body, '/');
    let segments = split_spec(whole, '/');
    assert(segments == a + b);
    if dir.last() == '/' {
        lemma_split_push(dir, '/', dir.len() - 1);
        assert(dir.take(dir.len() - 1) =~= body);
        assert(dir.skip(dir.len() as int) =~= Seq::<char>::empty());
        let d = split_spec(dir, '/');
        assert(d == a.push(Seq::<char>::empty()));
        assert(d.drop_last() =~= a);
        assert(""@ =~= Seq::<char>::empty());
        assert(kept(d) == kept(a));
    }
    assert(kept(split_spec(dir, '/')) == kept(a));
    lemma_absolute(whole);
    lemma_absolute(dir);
    assert(whole[0] == dir[0]);
    lemma_kept_prefix(a, b);
    let c = components_spec(whole);
    let d = components_spec(dir);
    assert(c.take(d.len() as int) =~= d);
    lemma_kept_len(a);
    lemma_behind(a, b, 0);
    let k = kept(a).len() as int;
    let j = behind(segments, 0, k);
    assert(segments.skip(j) =~= a.skip(j) + b);
    assert forall|i: int| 0 <= i < a.skip(j).len() implies !counts(
        #[trigger] a.skip(j)[i],
        false,
    ) by {
        assert(a.skip(j)[i] == a[j + i]);
        assert(!counts(a[j + i], j + i == 0));
    }
    lemma_trim_front_cat(a.skip(j), b);
    if d.len() == 0 {
        assert(!starts(dir, "/"@));
        assert(kept(a).len() == 0);
        assert(!counts(a[0], true));
        lemma_split_head(body);
    }
}

/// A package with its targets' paths below a directory.
pub open spec fn placed(p: PackageView, dir: Seq<char>) -> PackageView {
    PackageView {
        dir,
        build_script: match p.build_script {
            Some(path) => Some(joined(dir, path)),
            None => None,
        },
        lib: match p.lib {
            Some(lib) => Some(LibView { path: joined(dir, lib.path), ..lib }),
            None => None,
        },
        bins: p.bins.map_values(|b: BinView| BinView { path: joined(dir, b.path), ..b }),
        tests: p.tests.map_values(|t: TestView| TestView { path: joined(dir, t.path), ..t }),
        ..p
    }
}

/// Whether the paths of a package's targets are relative.
pub open spec fn relative_targets(p: PackageView) -> bool {
    &&& p.build_script is Some ==> !starts(p.build_script->0, "/"@)
    &&& p.lib is Some ==> !starts(p.lib->0.path, "/"@)
    &&& forall|i: int| 0 <= i < p.bins.len() ==> !starts((#[trigger] p.bins[i]).path, "/"@)
    &&& forall|i: int| 0 <= i < p.tests.len() ==> !starts((#[trigger] p.tests[i]).path, "/"@)
}

proof fn lemma_bins_placed(p: PackageView, a: Seq<char>, b: Seq<char>, n: int)
    requires
        a.len() > 0,
        b.len() > 0,
        relative_targets(p),
        0 <= n <= p.bins.len(),
    ensures
        bins_text(placed(p, a).bins, a, n) == bins_text(placed(p, b).bins, b, n),
    decreases n,
{
    if n > 0 {
        lemma_bins_placed(p, a, b, n - 1);
        paths_render_below_their_directory(a, p.bins[n - 1].path);
        paths_render_below_their_directory(b, p.bins[n - 1].path);
    }
}

proof fn lemma_tests_placed(p: PackageView, a: Seq<char>, b: Seq<char>, n: int)
    requires
        a.len() > 0,
        b.len() > 0,
        relative_targets(p),
        0 <= n <= p.tests.len(),
    ensures
        tests_text(placed(p, a).tests, a, n) == tests_text(placed(p, b).tests, b, n),
    decreases n,
{
    if n > 0 {
        lemma_tests_placed(p, a, b, n - 1);
        paths_render_below_their_directory(a, p.tests[n - 1].path);
        paths_render_below_their_directory(b, p.tests[n - 1].path);
    }
}

/// Host paths never enter a canonical text: a package has the same one in every
/// directory.
pub proof fn manifests_hold_no_host_paths(p: PackageView, a: Seq<char>, b: Seq<char>)
    requires
        a.len() > 0,
        b.len() > 0,
        relative_targets(p),
    ensures
        manifest_text(placed(p, a)) == manifest_text(placed(p, b)),
{
    if p.build_script is Some {
        paths_render_below_their_directory(a, p.build_script->0);
        paths_render_below_their_directory(b, p.build_script->0);
    }
    if p.lib is Some {
        paths_render_below_their_directory(a, p.lib->0.path);
        paths_render_below_their_directory(b, p.lib->0.path);
    }
    lemma_bins_placed(p, a, b, p.bins.len() as int);
    lemma_tests_placed(p, a, b, p.tests.len() as int);
}

/// A canonical text does not depend on the identity under which a package is
/// keyed, nor on anything but the fields that it shows.
pub proof fn manifests_show_stable_fields_only(p: PackageView, q: PackageView)
    requires
        p.name == q.name,
        p.version == q.version,
        p.edition == q.edition,
        p.dir == q.dir,
        p.build_script == q.build_script,
        p.rustflags == q.rustflags,
        p.env == q.env,
        p.features == q.features,
        p.lib == q.lib,
        p.bins == q.bins,
        p.tests == q.tests,
        p.deps == q.deps,
        p.build_deps == q.build_deps,
        p.dev_deps == q.dev_deps,
    ensures
        manifest_text(p) == manifest_text(q),
{
}

/// A path is absolute where its first character is a slash.
proof fn lemma_absolute(s: Seq<char>)
    ensures
        starts(s, "/"@) <==> s.len() > 0 && s[0] == '/',
{
    reveal_strlit("/");
    if starts(s, "/"@) {
        assert(s[0] == "/"@[0]);
    }
    if s.len() > 0 && s[0] == '/' {
        assert(s.take(1) =~= "/"@);
        assert(s.subrange(0, 1) =~= "/"@);
    }
}

/// The first segment of a relative path that is not empty is not empty.
proof fn lemma_split_head(s: Seq<char>)
    requires
        s.len() > 0,
        s[0] != '/',
    ensures
        split_spec(s, '/')[0].len() > 0,
    decreases s.len(),
{
    if s.contains('/') {
        s.index_of_last_ensures('/');
        let i = s.index_of_last('/')->0;
        lemma_split_push(s, '/', i);
        assert(i > 0);
        assert(s.take(i)[0] == s[0]);
        lemma_split_nonempty(s.take(i), '/');
        lemma_split_head(s.take(i));
    } else {
        lemma_split_single(s, '/');
    }
}

} // verus!
