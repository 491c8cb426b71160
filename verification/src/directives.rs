//! Build-script directives.
//!
//! Build scripts communicate with the compiler through `cargo:` lines on
//! stdout. Both the legacy `cargo:` and namespaced `cargo::` spellings are
//! accepted for the known directives. Any other `cargo::key=value` line is a
//! script failure; a legacy `cargo:KEY=VALUE` line whose key is not a known
//! directive is the legacy metadata form. The namespaced form is
//! `cargo::metadata=KEY=VALUE`.

use vstd::prelude::*;
use vstd::string::*;
use crate::text::{
    cat, cat3, lines, lines_spec, owned, push_string, push_text, same, slice, space, split_once,
    split_once_spec, starts, starts_with, strip_prefix, strip_prefix_spec, texts, to_chars,
    trim, trim_spec, trim_start, trim_start_spec, is_space,
};

verus! {

/// A parsed set of build-script directives.
#[derive(Clone, Debug)]
pub struct Directives {
    /// `cargo:rustc-cfg=...`: cfg flags.
    pub cfgs: Vec<String>,
    /// `cargo:rustc-env=K=V`: environment for this package's compilation.
    pub env: Vec<(String, String)>,
    /// `cargo::metadata=K=V` or legacy `cargo:K=V`: metadata exported to direct
    /// dependents when this package declares `links`.
    pub metadata: Vec<(String, String)>,
    /// `cargo:rustc-link-lib=...`: native libraries, with an optional kind
    /// prefix (`static:`, `dylib:`, `framework:`).
    pub link_libs: Vec<(Option<String>, String)>,
    /// `cargo:rustc-link-search=...`: native search paths.
    pub link_search: Vec<String>,
    /// `cargo:rustc-flags=...`: raw flags (whitespace-split).
    pub raw_flags: Vec<String>,
    /// `cargo:rustc-link-arg=...`: link args for every consuming target.
    pub link_args: Vec<String>,
    /// `cargo:rustc-link-arg-bins=...`: link args for binary targets.
    pub link_arg_bins: Vec<String>,
    /// `cargo:rustc-link-arg-tests=...`: link args for test targets.
    pub link_arg_tests: Vec<String>,
    /// `cargo:rustc-link-arg-examples=...`: link args for example targets.
    pub link_arg_examples: Vec<String>,
    /// `cargo:rustc-cdylib-link-arg=...`: link args for cdylib libraries.
    pub cdylib_link_args: Vec<String>,
    /// `cargo:rustc-metadata=...`: extra metadata appended to the crate metadata
    /// hash.
    pub extra_metadata: Vec<String>,
    /// `cargo:rustc-check-cfg=...`: check-cfg declarations.
    pub check_cfgs: Vec<String>,
    /// `cargo:rerun-if-changed=...`: paths that narrow the build-script run
    /// action's inputs (resolved against the package dir).
    pub rerun_if_changed: Vec<String>,
    /// `cargo:rerun-if-env-changed=...`: environment variables that trigger a
    /// rerun when their values change.
    pub rerun_if_env_changed: Vec<String>,
    /// `cargo:warning=...`: surfaced to the user.
    pub warnings: Vec<String>,
    /// `cargo:error=...`: build failure.
    pub errors: Vec<String>,
}

/// What a set of directives holds.
pub struct DirectivesView {
    pub cfgs: Seq<Seq<char>>,
    pub env: Seq<(Seq<char>, Seq<char>)>,
    pub metadata: Seq<(Seq<char>, Seq<char>)>,
    pub link_libs: Seq<(Option<Seq<char>>, Seq<char>)>,
    pub link_search: Seq<Seq<char>>,
    pub raw_flags: Seq<Seq<char>>,
    pub link_args: Seq<Seq<char>>,
    pub link_arg_bins: Seq<Seq<char>>,
    pub link_arg_tests: Seq<Seq<char>>,
    pub link_arg_examples: Seq<Seq<char>>,
    pub cdylib_link_args: Seq<Seq<char>>,
    pub extra_metadata: Seq<Seq<char>>,
    pub check_cfgs: Seq<Seq<char>>,
    pub rerun_if_changed: Seq<Seq<char>>,
    pub rerun_if_env_changed: Seq<Seq<char>>,
    pub warnings: Seq<Seq<char>>,
    pub errors: Seq<Seq<char>>,
}

/// What pairs of strings hold.
pub open spec fn pairs(v: Seq<(String, String)>) -> Seq<(Seq<char>, Seq<char>)> {
    v.map_values(|p: (String, String)| (p.0@, p.1@))
}

/// What link libraries hold.
pub open spec fn libs(v: Seq<(Option<String>, String)>) -> Seq<(Option<Seq<char>>, Seq<char>)> {
    v.map_values(|p: (Option<String>, String)| (crate::text::opt_view(p.0), p.1@))
}

impl View for Directives {
    type V = DirectivesView;

    open spec fn view(&self) -> DirectivesView {
        DirectivesView {
            cfgs: texts(self.cfgs@),
            env: pairs(self.env@),
            metadata: pairs(self.metadata@),
            link_libs: libs(self.link_libs@),
            link_search: texts(self.link_search@),
            raw_flags: texts(self.raw_flags@),
            link_args: texts(self.link_args@),
            link_arg_bins: texts(self.link_arg_bins@),
            link_arg_tests: texts(self.link_arg_tests@),
            link_arg_examples: texts(self.link_arg_examples@),
            cdylib_link_args: texts(self.cdylib_link_args@),
            extra_metadata: texts(self.extra_metadata@),
            check_cfgs: texts(self.check_cfgs@),
            rerun_if_changed: texts(self.rerun_if_changed@),
            rerun_if_env_changed: texts(self.rerun_if_env_changed@),
            warnings: texts(self.warnings@),
            errors: texts(self.errors@),
        }
    }
}

/// No directives.
pub open spec fn no_directives() -> DirectivesView {
    DirectivesView {
        cfgs: Seq::empty(),
        env: Seq::empty(),
        metadata: Seq::empty(),
        link_libs: Seq::empty(),
        link_search: Seq::empty(),
        raw_flags: Seq::empty(),
        link_args: Seq::empty(),
        link_arg_bins: Seq::empty(),
        link_arg_tests: Seq::empty(),
        link_arg_examples: Seq::empty(),
        cdylib_link_args: Seq::empty(),
        extra_metadata: Seq::empty(),
        check_cfgs: Seq::empty(),
        rerun_if_changed: Seq::empty(),
        rerun_if_env_changed: Seq::empty(),
        warnings: Seq::empty(),
        errors: Seq::empty(),
    }
}

impl Default for Directives {
    fn default() -> (r: Directives)
        ensures
            r@ == no_directives(),
    {
        let r = Directives {
            cfgs: Vec::new(),
            env: Vec::new(),
            metadata: Vec::new(),
            link_libs: Vec::new(),
            link_search: Vec::new(),
            raw_flags: Vec::new(),
            link_args: Vec::new(),
            link_arg_bins: Vec::new(),
            link_arg_tests: Vec::new(),
            link_arg_examples: Vec::new(),
            cdylib_link_args: Vec::new(),
            extra_metadata: Vec::new(),
            check_cfgs: Vec::new(),
            rerun_if_changed: Vec::new(),
            rerun_if_env_changed: Vec::new(),
            warnings: Vec::new(),
            errors: Vec::new(),
        };
        proof {
            let none = Seq::<Seq<char>>::empty();
            assert(texts(r.cfgs@) =~= none);
            assert(r@.env =~= no_directives().env);
            assert(r@.metadata =~= no_directives().metadata);
            assert(r@.link_libs =~= no_directives().link_libs);
        }
        r
    }
}

/// A `--cfg` value without surrounding white space and without one pair of
/// quotes around it.
pub open spec fn unquoted(value: Seq<char>) -> Seq<char> {
    let t = trim_spec(value);
    if t.len() >= 2 && ((t[0] == '"' && t.last() == '"') || (t[0] == '\'' && t.last() == '\'')) {
        t.subrange(1, t.len() - 1)
    } else {
        t
    }
}

/// Strips quotes from a `--cfg` value (`"..."` or `'...'`).
pub fn unquote(value: &str) -> (r: String)
    ensures
        r@ == unquoted(value@),
{
    let trimmed = trim(value);
    let v = to_chars(trimmed.as_str());
    let n = v.len();
    if n >= 2 && ((v[0] == '"' && v[n - 1] == '"') || (v[0] == '\'' && v[n - 1] == '\'')) {
        slice(&v, 1, n - 1)
    } else {
        trimmed
    }
}

/// A link library with its kind, where it is prefixed with one.
pub open spec fn link_lib_of(value: Seq<char>) -> (Option<Seq<char>>, Seq<char>) {
    if let Some(rest) = strip_prefix_spec(value, "static:"@) {
        (Some("static"@), rest)
    } else if let Some(rest) = strip_prefix_spec(value, "dylib:"@) {
        (Some("dylib"@), rest)
    } else if let Some(rest) = strip_prefix_spec(value, "framework:"@) {
        (Some("framework"@), rest)
    } else {
        (None, value)
    }
}

/// Splits an optional link-lib kind prefix: `static:foo` gives `(static, foo)`.
pub fn parse_link_lib(value: &str) -> (r: (Option<String>, String))
    ensures
        (crate::text::opt_view(r.0), r.1@) == link_lib_of(value@),
{
    if let Some(rest) = strip_prefix(value, "static:") {
        return (Some(owned("static")), rest);
    }
    if let Some(rest) = strip_prefix(value, "dylib:") {
        return (Some(owned("dylib")), rest);
    }
    if let Some(rest) = strip_prefix(value, "framework:") {
        return (Some(owned("framework")), rest);
    }
    (None, owned(value))
}

/// How many characters stand before the first white space, from a position on.
pub open spec fn word_end(s: Seq<char>, from: int) -> int
    decreases s.len() - from,
{
    if from < 0 || from >= s.len() || is_space(s[from]) {
        from
    } else {
        word_end(s, from + 1)
    }
}

/// Where the first character that is no white space stands, from a position on.
pub open spec fn word_start(s: Seq<char>, from: int) -> int
    decreases s.len() - from,
{
    if from < 0 || from >= s.len() || !is_space(s[from]) {
        from
    } else {
        word_start(s, from + 1)
    }
}

proof fn lemma_word_bounds(s: Seq<char>, from: int)
    requires
        0 <= from <= s.len(),
    ensures
        from <= word_end(s, from) <= s.len(),
        from <= word_start(s, from) <= s.len(),
        word_start(s, from) < s.len() ==> word_end(s, word_start(s, from)) > word_start(s, from),
        word_end(s, from) < s.len() ==> is_space(s[word_end(s, from)]),
    decreases s.len() - from,
{
    if from < s.len() {
        lemma_word_bounds(s, from + 1);
        if !is_space(s[from]) {
            reveal_with_fuel(word_end, 2);
        }
    }
}

/// The words of a text from a position on: the runs of characters between its
/// white space.
pub open spec fn words_from(s: Seq<char>, from: int) -> Seq<Seq<char>>
    decreases s.len() - from,
    via words_from_decreases
{
    if from < 0 || from > s.len() {
        Seq::empty()
    } else {
        let a = word_start(s, from);
        if a >= s.len() {
            Seq::empty()
        } else {
            let b = word_end(s, a);
            seq![s.subrange(a, b)] + words_from(s, b)
        }
    }
}

#[via_fn]
proof fn words_from_decreases(s: Seq<char>, from: int) {
    if 0 <= from <= s.len() {
        lemma_word_bounds(s, from);
        lemma_word_bounds(s, word_start(s, from));
    }
}

/// Appends the words of a text.
fn push_words(out: &mut Vec<String>, s: &str)
    ensures
        texts(final(out)@) == texts(old(out)@) + words_from(s@, 0),
{
    let v = to_chars(s);
    let ghost start = texts(out@);
    let mut at: usize = 0;
    assert(start + words_from(s@, 0) =~= texts(out@) + words_from(s@, 0));
    while at < v.len()
        invariant
            at <= v@.len(),
            v@ == s@,
            start + words_from(s@, 0) == texts(out@) + words_from(s@, at as int),
        decreases v@.len() - at,
    {
        let ghost from = at as int;
        proof {
            lemma_word_bounds(s@, from);
        }
        let mut a: usize = at;
        while a < v.len() && space(v[a])
            invariant
                at <= a <= v@.len(),
                v@ == s@,
                word_start(s@, at as int) == word_start(s@, a as int),
            decreases v@.len() - a,
        {
            a += 1;
        }
        if a >= v.len() {
            at = a;
            assert(words_from(s@, from) =~= Seq::<Seq<char>>::empty());
            assert(words_from(s@, at as int) =~= Seq::<Seq<char>>::empty());
        } else {
            let mut b: usize = a;
            while b < v.len() && !space(v[b])
                invariant
                    a <= b <= v@.len(),
                    v@ == s@,
                    word_end(s@, a as int) == word_end(s@, b as int),
                decreases v@.len() - b,
            {
                b += 1;
            }
            let ghost before = texts(out@);
            push_string(out, slice(&v, a, b));
            proof {
                assert(words_from(s@, from) == seq![s@.subrange(a as int, b as int)] + words_from(
                    s@,
                    b as int,
                ));
                assert(before + words_from(s@, from) =~= texts(out@) + words_from(s@, b as int));
            }
            at = b;
        }
    }
    proof {
        assert(words_from(s@, s@.len() as int) =~= Seq::<Seq<char>>::empty());
        assert(texts(out@) + Seq::<Seq<char>>::empty() =~= texts(out@));
    }
}

/// What a directive adds.
pub open spec fn with_directive(
    d: DirectivesView,
    key: Seq<char>,
    value: Seq<char>,
    namespaced: bool,
) -> DirectivesView {
    if key == "rustc-cfg"@ {
        DirectivesView { cfgs: d.cfgs.push(unquoted(value)), ..d }
    } else if key == "rustc-env"@ {
        match split_once_spec(value, '=') {
            Some(pair) => DirectivesView { env: d.env.push(pair), ..d },
            None => d,
        }
    } else if key == "metadata"@ {
        match split_once_spec(value, '=') {
            Some(pair) => DirectivesView { metadata: d.metadata.push(pair), ..d },
            None => DirectivesView {
                errors: d.errors.push(
                    "build-script directive `cargo::metadata` requires `KEY=VALUE`"@,
                ),
                ..d
            },
        }
    } else if key == "rustc-link-lib"@ {
        DirectivesView { link_libs: d.link_libs.push(link_lib_of(value)), ..d }
    } else if key == "rustc-link-search"@ {
        DirectivesView { link_search: d.link_search.push(value), ..d }
    } else if key == "rustc-flags"@ {
        DirectivesView { raw_flags: d.raw_flags + words_from(value, 0), ..d }
    } else if key == "rustc-link-arg"@ {
        DirectivesView { link_args: d.link_args.push(value), ..d }
    } else if key == "rustc-link-arg-bins"@ {
        DirectivesView { link_arg_bins: d.link_arg_bins.push(value), ..d }
    } else if key == "rustc-link-arg-tests"@ {
        DirectivesView { link_arg_tests: d.link_arg_tests.push(value), ..d }
    } else if key == "rustc-link-arg-examples"@ {
        DirectivesView { link_arg_examples: d.link_arg_examples.push(value), ..d }
    } else if key == "rustc-cdylib-link-arg"@ || key == "rustc-link-arg-cdylib"@ {
        DirectivesView { cdylib_link_args: d.cdylib_link_args.push(value), ..d }
    } else if key == "rustc-metadata"@ {
        DirectivesView { extra_metadata: d.extra_metadata.push(value), ..d }
    } else if key == "rustc-check-cfg"@ {
        DirectivesView { check_cfgs: d.check_cfgs.push(value), ..d }
    } else if key == "rerun-if-changed"@ {
        DirectivesView { rerun_if_changed: d.rerun_if_changed.push(value), ..d }
    } else if key == "rerun-if-env-changed"@ {
        DirectivesView { rerun_if_env_changed: d.rerun_if_env_changed.push(value), ..d }
    } else if key == "warning"@ {
        DirectivesView { warnings: d.warnings.push(value), ..d }
    } else if key == "error"@ {
        DirectivesView { errors: d.errors.push(value), ..d }
    } else if namespaced {
        DirectivesView {
            errors: d.errors.push("unsupported build-script directive `cargo::"@ + key + "`"@),
            ..d
        }
    } else {
        DirectivesView { metadata: d.metadata.push((key, value)), ..d }
    }
}

/// What stands behind the `cargo:` or `cargo::` of a line, where it begins with
/// one after white space.
pub open spec fn directive_body(line: Seq<char>) -> Option<Seq<char>> {
    let t = trim_start_spec(line);
    match strip_prefix_spec(t, "cargo::"@) {
        Some(body) => Some(body),
        None => strip_prefix_spec(t, "cargo:"@),
    }
}

/// What a line of output adds: nothing unless it is a directive with a key and
/// a value.
pub open spec fn with_line(d: DirectivesView, line: Seq<char>) -> DirectivesView {
    match directive_body(line) {
        None => d,
        Some(body) => match split_once_spec(body, '=') {
            None => d,
            Some((key, value)) => with_directive(
                d,
                key,
                value,
                starts(trim_start_spec(line), "cargo::"@),
            ),
        },
    }
}

/// What lines of output add, one after another.
pub open spec fn with_lines(d: DirectivesView, text: Seq<Seq<char>>) -> DirectivesView
    decreases text.len(),
{
    if text.len() == 0 {
        d
    } else {
        with_line(with_lines(d, text.drop_last()), text.last())
    }
}

/// The directives in a build script's output.
pub open spec fn directives_in(stdout: Seq<char>) -> DirectivesView {
    with_lines(no_directives(), lines_spec(stdout))
}

fn push_pair(out: &mut Vec<(String, String)>, key: String, value: String)
    ensures
        pairs(final(out)@) == pairs(old(out)@).push((key@, value@)),
{
    let ghost before = out@;
    out.push((key, value));
    assert(pairs(out@) =~= pairs(before).push((key@, value@)));
}

fn add_directive(out: &mut Directives, key: &str, value: &str, namespaced: bool)
    ensures
        final(out)@ == with_directive(old(out)@, key@, value@, namespaced),
{
    if same(key, "rustc-cfg") {
        push_string(&mut out.cfgs, unquote(value));
    } else if same(key, "rustc-env") {
        if let Some((k, v)) = split_once(value, '=') {
            push_pair(&mut out.env, k, v);
        }
    } else if same(key, "metadata") {
        match split_once(value, '=') {
            Some((k, v)) => push_pair(&mut out.metadata, k, v),
            None => push_text(
                &mut out.errors,
                "build-script directive `cargo::metadata` requires `KEY=VALUE`",
            ),
        }
    } else if same(key, "rustc-link-lib") {
        let ghost before = out.link_libs@;
        let lib = parse_link_lib(value);
        out.link_libs.push(lib);
        assert(libs(out.link_libs@) =~= libs(before).push(link_lib_of(value@)));
    } else if same(key, "rustc-link-search") {
        push_text(&mut out.link_search, value);
    } else if same(key, "rustc-flags") {
        push_words(&mut out.raw_flags, value);
    } else if same(key, "rustc-link-arg") {
        push_text(&mut out.link_args, value);
    } else if same(key, "rustc-link-arg-bins") {
        push_text(&mut out.link_arg_bins, value);
    } else if same(key, "rustc-link-arg-tests") {
        push_text(&mut out.link_arg_tests, value);
    } else if same(key, "rustc-link-arg-examples") {
        push_text(&mut out.link_arg_examples, value);
    } else if same(key, "rustc-cdylib-link-arg") || same(key, "rustc-link-arg-cdylib") {
        push_text(&mut out.cdylib_link_args, value);
    } else if same(key, "rustc-metadata") {
        push_text(&mut out.extra_metadata, value);
    } else if same(key, "rustc-check-cfg") {
        push_text(&mut out.check_cfgs, value);
    } else if same(key, "rerun-if-changed") {
        push_text(&mut out.rerun_if_changed, value);
    } else if same(key, "rerun-if-env-changed") {
        push_text(&mut out.rerun_if_env_changed, value);
    } else if same(key, "warning") {
        push_text(&mut out.warnings, value);
    } else if same(key, "error") {
        push_text(&mut out.errors, value);
    } else if namespaced {
        push_string(
            &mut out.errors,
            cat3("unsupported build-script directive `cargo::", key, "`"),
        );
    } else {
        push_pair(&mut out.metadata, owned(key), owned(value));
    }
}

/// Parses build-script stdout (which may also contain compiler diagnostics or
/// program output; only `cargo:` lines are interpreted).
pub fn parse_directives(stdout: &str) -> (r: Directives)
    ensures
        r@ == directives_in(stdout@),
{
    let mut out = Directives::default();
    let all = lines(stdout);
    let ghost text = texts(all@);
    let mut i: usize = 0;
    assert(text.take(0) =~= Seq::<Seq<char>>::empty());
    while i < all.len()
        invariant
            i <= all@.len(),
            text == texts(all@),
            text == lines_spec(stdout@),
            out@ == with_lines(no_directives(), text.take(i as int)),
        decreases all@.len() - i,
    {
        let line = all[i].as_str();
        proof {
            let t = text.take(i as int + 1);
            assert(t.drop_last() =~= text.take(i as int));
            assert(t.last() == line@);
        }
        let trimmed = trim_start(line);
        let namespaced = starts_with(trimmed.as_str(), "cargo::");
        let body = match strip_prefix(trimmed.as_str(), "cargo::") {
            Some(b) => Some(b),
            None => strip_prefix(trimmed.as_str(), "cargo:"),
        };
        if let Some(b) = body {
            if let Some((key, value)) = split_once(b.as_str(), '=') {
                add_directive(&mut out, key.as_str(), value.as_str(), namespaced);
            }
        }
        i += 1;
    }
    assert(text.take(text.len() as int) =~= text);
    out
}

/// Lines that are no directives change nothing, wherever they stand.
pub proof fn other_lines_are_ignored(d: DirectivesView, line: Seq<char>)
    requires
        directive_body(line) is None,
    ensures
        with_line(d, line) == d,
{
}

/// The directives of two outputs, one after the other, are those of the first
/// and then those of the second.
pub proof fn directives_accumulate(d: DirectivesView, a: Seq<Seq<char>>, b: Seq<Seq<char>>)
    ensures
        with_lines(d, a + b) == with_lines(with_lines(d, a), b),
    decreases b.len(),
{
    if b.len() == 0 {
        assert(a + b =~= a);
    } else {
        assert((a + b).drop_last() =~= a + b.drop_last());
        assert((a + b).last() == b.last());
        directives_accumulate(d, a, b.drop_last());
    }
}

/// Whether a key is that of a directive.
pub open spec fn known_directive(key: Seq<char>) -> bool {
    ||| key == "rustc-cfg"@
    ||| key == "rustc-env"@
    ||| key == "metadata"@
    ||| key == "rustc-link-lib"@
    ||| key == "rustc-link-search"@
    ||| key == "rustc-flags"@
    ||| key == "rustc-link-arg"@
    ||| key == "rustc-link-arg-bins"@
    ||| key == "rustc-link-arg-tests"@
    ||| key == "rustc-link-arg-examples"@
    ||| key == "rustc-cdylib-link-arg"@
    ||| key == "rustc-link-arg-cdylib"@
    ||| key == "rustc-metadata"@
    ||| key == "rustc-check-cfg"@
    ||| key == "rerun-if-changed"@
    ||| key == "rerun-if-env-changed"@
    ||| key == "warning"@
    ||| key == "error"@
}

/// An unknown key fails the script in its namespaced spelling and is metadata
/// for dependents in its legacy spelling; a known key means the same in both.
pub proof fn spellings_differ_on_unknown_keys_only(d: DirectivesView, key: Seq<char>, value: Seq<char>)
    ensures
        known_directive(key) ==> with_directive(d, key, value, true) == with_directive(
            d,
            key,
            value,
            false,
        ),
        !known_directive(key) ==> with_directive(d, key, value, true) == (DirectivesView {
            errors: d.errors.push("unsupported build-script directive `cargo::"@ + key + "`"@),
            ..d
        }),
        !known_directive(key) ==> with_directive(d, key, value, false) == (DirectivesView {
            metadata: d.metadata.push((key, value)),
            ..d
        }),
{
}

/// A link search argument: relative paths resolve against the package root (the
/// input root, where the source tree is mounted); absolute paths pass verbatim.
pub open spec fn search_arg(exec_root: Seq<char>, value: Seq<char>) -> Seq<char> {
    match split_once_spec(value, '=') {
        Some((kind, path)) => if starts(path, "/"@) {
            kind + "="@ + path
        } else {
            kind + "="@ + exec_root + "/in/"@ + path
        },
        None => if starts(value, "/"@) {
            value
        } else {
            exec_root + "/in/"@ + value
        },
    }
}

/// Writes a link search argument.
pub fn link_search_arg(exec_root: &str, value: &str) -> (r: String)
    ensures
        r@ == search_arg(exec_root@, value@),
{
    match split_once(value, '=') {
        Some((kind, path)) => {
            let mut out = cat(kind.as_str(), "=");
            if !starts_with(path.as_str(), "/") {
                out.append(exec_root);
                out.append("/in/");
            }
            out.append(path.as_str());
            out
        },
        None => if starts_with(value, "/") {
            owned(value)
        } else {
            cat3(exec_root, "/in/", value)
        },
    }
}

} // verus!
