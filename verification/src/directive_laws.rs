//! What a build script says by its output.

use vstd::prelude::*;
use vstd::string::*;
use crate::directives::{
    directive_body, directives_in, link_lib_of, search_arg, unquoted, with_directive, with_line,
    with_lines, word_end, word_start, words_from, DirectivesView,
};
use crate::text::{is_space, lines_spec, starts, trim_start_spec};
use crate::text_laws::{blank, texts_split_once, trimmed_starts};

verus! {

/// Whether a line says a value under a key: `cargo:KEY=VALUE` or
/// `cargo::KEY=VALUE`, with or without white space before it.
pub open spec fn line_says(
    line: Seq<char>,
    key: Seq<char>,
    value: Seq<char>,
    namespaced: bool,
) -> bool {
    &&& !key.contains('=')
    &&& !namespaced ==> (key.len() == 0 || key[0] != ':')
    &&& exists|space: Seq<char>| #[trigger]
        blank(space) && line == space + (if namespaced {
            "cargo::"@
        } else {
            "cargo:"@
        }) + key + "="@ + value
}

proof fn lemma_line(line: Seq<char>, key: Seq<char>, value: Seq<char>, namespaced: bool)
    requires
        line_says(line, key, value, namespaced),
    ensures
        forall|d: DirectivesView| #[trigger]
            with_line(d, line) == with_directive(d, key, value, namespaced),
{
    reveal_strlit("cargo::");
    reveal_strlit("cargo:");
    reveal_strlit("=");
    let head = if namespaced {
        "cargo::"@
    } else {
        "cargo:"@
    };
    let space = choose|space: Seq<char>| #[trigger]
        blank(space) && line == space + head + key + "="@ + value;
    let rest = head + key + "="@ + value;
    assert(line =~= space + rest);
    assert(rest[0] == 'c');
    trimmed_starts(space, rest);
    let t = trim_start_spec(line);
    assert(t == rest);
    let body = key + "="@ + value;
    assert("="@ =~= seq!['=']);
    texts_split_once(body, '=', key, value);
    assert(body =~= key + seq!['='] + value);
    if namespaced {
        assert(t.take(7) =~= "cargo::"@);
        assert(t.skip(7) =~= body);
    } else {
        assert(t.take(6) =~= "cargo:"@);
        assert(t.skip(6) =~= body);
        if starts(t, "cargo::"@) {
            assert(t.take(7)[6] == ':');
            assert(body[0] == t[6]);
            if key.len() > 0 {
                assert(key[0] == body[0]);
            } else {
                assert(body[0] == '=');
            }
        }
    }
    assert(directive_body(line) == Some(body));
}

/// Whether one list of directives has all that another has, in its place.
pub open spec fn extends(a: DirectivesView, b: DirectivesView) -> bool {
    &&& prefix(a.cfgs, b.cfgs)
    &&& prefix(a.env, b.env)
    &&& prefix(a.metadata, b.metadata)
    &&& prefix(a.link_libs, b.link_libs)
    &&& prefix(a.link_search, b.link_search)
    &&& prefix(a.raw_flags, b.raw_flags)
    &&& prefix(a.link_args, b.link_args)
    &&& prefix(a.link_arg_bins, b.link_arg_bins)
    &&& prefix(a.link_arg_tests, b.link_arg_tests)
    &&& prefix(a.link_arg_examples, b.link_arg_examples)
    &&& prefix(a.cdylib_link_args, b.cdylib_link_args)
    &&& prefix(a.extra_metadata, b.extra_metadata)
    &&& prefix(a.check_cfgs, b.check_cfgs)
    &&& prefix(a.rerun_if_changed, b.rerun_if_changed)
    &&& prefix(a.rerun_if_env_changed, b.rerun_if_env_changed)
    &&& prefix(a.warnings, b.warnings)
    &&& prefix(a.errors, b.errors)
}

/// Whether a list begins with another.
pub open spec fn prefix<A>(a: Seq<A>, b: Seq<A>) -> bool {
    a.len() <= b.len() && forall|k: int| 0 <= k < a.len() ==> #[trigger] b[k] == a[k]
}

proof fn lemma_line_extends(d: DirectivesView, line: Seq<char>)
    ensures
        extends(d, with_line(d, line)),
{
}

proof fn lemma_extends_on(a: DirectivesView, b: DirectivesView, c: DirectivesView)
    requires
        extends(a, b),
        extends(b, c),
    ensures
        extends(a, c),
{
}

/// Every line of a script's output counts, and none is taken back: what the
/// directives come to has all that a line says of those before it.
pub proof fn every_line_counts(d: DirectivesView, text: Seq<Seq<char>>, k: int)
    requires
        0 <= k < text.len(),
    ensures
        extends(with_line(with_lines(d, text.take(k)), text[k]), with_lines(d, text)),
    decreases text.len(),
{
    let less = text.drop_last();
    let before = with_lines(d, less);
    lemma_line_extends(before, text.last());
    if k == text.len() - 1 {
        assert(text.take(k) =~= less);
    } else {
        every_line_counts(d, less, k);
        assert(less.take(k) =~= text.take(k));
        assert(less[k] == text[k]);
        lemma_extends_on(
            with_line(with_lines(d, text.take(k)), text[k]),
            before,
            with_lines(d, text),
        );
    }
}

/// Whether only lists that directives may add to have changed.
pub open spec fn adds(d: DirectivesView, r: DirectivesView, key: Seq<char>) -> bool {
    &&& key != "rustc-cfg"@ ==> r.cfgs == d.cfgs
    &&& key != "rustc-env"@ ==> r.env == d.env
    &&& key != "rustc-link-lib"@ ==> r.link_libs == d.link_libs
    &&& key != "rustc-link-search"@ ==> r.link_search == d.link_search
    &&& key != "rustc-flags"@ ==> r.raw_flags == d.raw_flags
    &&& key != "rustc-link-arg"@ ==> r.link_args == d.link_args
    &&& key != "rustc-link-arg-bins"@ ==> r.link_arg_bins == d.link_arg_bins
    &&& key != "rustc-link-arg-tests"@ ==> r.link_arg_tests == d.link_arg_tests
    &&& key != "rustc-link-arg-examples"@ ==> r.link_arg_examples == d.link_arg_examples
    &&& key != "rustc-cdylib-link-arg"@ && key != "rustc-link-arg-cdylib"@ ==> r.cdylib_link_args
        == d.cdylib_link_args
    &&& key != "rustc-metadata"@ ==> r.extra_metadata == d.extra_metadata
    &&& key != "rustc-check-cfg"@ ==> r.check_cfgs == d.check_cfgs
    &&& key != "rerun-if-changed"@ ==> r.rerun_if_changed == d.rerun_if_changed
    &&& key != "rerun-if-env-changed"@ ==> r.rerun_if_env_changed == d.rerun_if_env_changed
    &&& key != "warning"@ ==> r.warnings == d.warnings
}

proof fn lemma_keys()
    ensures
        "rustc-cfg"@.len() == 9,
        "rustc-env"@.len() == 9,
        "rustc-cfg"@[6] == 'c',
        "rustc-env"@[6] == 'e',
        "metadata"@.len() == 8,
        "rustc-link-lib"@.len() == 14,
        "rustc-link-arg"@.len() == 14,
        "rustc-link-lib"@[11] == 'l',
        "rustc-link-arg"@[11] == 'a',
        "rustc-metadata"@.len() == 14,
        "rustc-metadata"@[6] == 'm',
        "rustc-link-lib"@[6] == 'l',
        "rustc-link-arg"@[6] == 'l',
        "rustc-link-search"@.len() == 17,
        "rustc-flags"@.len() == 11,
        "rustc-link-arg-bins"@.len() == 19,
        "rustc-link-arg-tests"@.len() == 20,
        "rerun-if-env-changed"@.len() == 20,
        "rustc-link-arg-tests"@[1] == 'u',
        "rerun-if-env-changed"@[1] == 'e',
        "rustc-link-arg-examples"@.len() == 23,
        "rustc-cdylib-link-arg"@.len() == 21,
        "rustc-link-arg-cdylib"@.len() == 21,
        "rustc-check-cfg"@.len() == 15,
        "rerun-if-changed"@.len() == 16,
        "warning"@.len() == 7,
        "error"@.len() == 5,
{
    reveal_strlit("rustc-cfg");
    reveal_strlit("rustc-env");
    reveal_strlit("metadata");
    reveal_strlit("rustc-link-lib");
    reveal_strlit("rustc-link-arg");
    reveal_strlit("rustc-metadata");
    reveal_strlit("rustc-link-search");
    reveal_strlit("rustc-flags");
    reveal_strlit("rustc-link-arg-bins");
    reveal_strlit("rustc-link-arg-tests");
    reveal_strlit("rerun-if-env-changed");
    reveal_strlit("rustc-link-arg-examples");
    reveal_strlit("rustc-cdylib-link-arg");
    reveal_strlit("rustc-link-arg-cdylib");
    reveal_strlit("rustc-check-cfg");
    reveal_strlit("rerun-if-changed");
    reveal_strlit("warning");
    reveal_strlit("error");
}

/// What a line of output says is added to the list that its key is for, in either
/// spelling, and to no other.
pub proof fn lines_say_what_their_key_is_for(
    d: DirectivesView,
    line: Seq<char>,
    key: Seq<char>,
    value: Seq<char>,
    namespaced: bool,
)
    requires
        line_says(line, key, value, namespaced),
    ensures
        ({
            let r = with_line(d, line);
            &&& adds(d, r, key)
            &&& key == "rustc-cfg"@ ==> r.cfgs == d.cfgs.push(unquoted(value))
            &&& key == "rustc-link-lib"@ ==> r.link_libs == d.link_libs.push(link_lib_of(value))
            &&& key == "rustc-link-search"@ ==> r.link_search == d.link_search.push(value)
            &&& key == "rustc-flags"@ ==> r.raw_flags == d.raw_flags + words_from(value, 0)
            &&& key == "rustc-link-arg"@ ==> r.link_args == d.link_args.push(value)
            &&& key == "rustc-link-arg-bins"@ ==> r.link_arg_bins == d.link_arg_bins.push(value)
            &&& key == "rustc-link-arg-tests"@ ==> r.link_arg_tests == d.link_arg_tests.push(value)
            &&& key == "rustc-link-arg-examples"@ ==> r.link_arg_examples
                == d.link_arg_examples.push(value)
            &&& key == "rustc-cdylib-link-arg"@ || key == "rustc-link-arg-cdylib"@
                ==> r.cdylib_link_args == d.cdylib_link_args.push(value)
            &&& key == "rustc-metadata"@ ==> r.extra_metadata == d.extra_metadata.push(value)
            &&& key == "rustc-check-cfg"@ ==> r.check_cfgs == d.check_cfgs.push(value)
            &&& key == "rerun-if-changed"@ ==> r.rerun_if_changed == d.rerun_if_changed.push(value)
            &&& key == "rerun-if-env-changed"@ ==> r.rerun_if_env_changed
                == d.rerun_if_env_changed.push(value)
            &&& key == "warning"@ ==> r.warnings == d.warnings.push(value)
            &&& key == "error"@ ==> r.errors == d.errors.push(value)
        }),
{
    lemma_line(line, key, value, namespaced);
    lemma_keys();
    assert(with_line(d, line) == with_directive(d, key, value, namespaced));
}

/// A variable for the compiler, and metadata for dependents, are a name and a value
/// around the first `=`; without one a variable counts for nothing and metadata
/// fails the script.
pub proof fn pairs_are_split_at_their_first_equals(
    d: DirectivesView,
    line: Seq<char>,
    key: Seq<char>,
    name: Seq<char>,
    value: Seq<char>,
    namespaced: bool,
)
    requires
        !name.contains('='),
        key == "rustc-env"@ || key == "metadata"@,
    ensures
        line_says(line, key, name + seq!['='] + value, namespaced) ==> {
            let r = with_line(d, line);
            &&& key == "rustc-env"@ ==> r.env == d.env.push((name, value)) && r.metadata
                == d.metadata
            &&& key == "metadata"@ ==> r.metadata == d.metadata.push((name, value)) && r.env
                == d.env
            &&& r.errors == d.errors
        },
        line_says(line, key, name, namespaced) ==> {
            let r = with_line(d, line);
            &&& r.env == d.env && r.metadata == d.metadata
            &&& key == "rustc-env"@ ==> r.errors == d.errors
            &&& key == "metadata"@ ==> r.errors.len() == d.errors.len() + 1
        },
{
    lemma_keys();
    texts_split_once(name, '=', name, value);
    if line_says(line, key, name + seq!['='] + value, namespaced) {
        lemma_line(line, key, name + seq!['='] + value, namespaced);
        assert(with_line(d, line) == with_directive(
            d,
            key,
            name + seq!['='] + value,
            namespaced,
        ));
    }
    if line_says(line, key, name, namespaced) {
        lemma_line(line, key, name, namespaced);
        assert(with_line(d, line) == with_directive(d, key, name, namespaced));
    }
}

/// A line of another form says nothing: one that does not begin with `cargo:`, or
/// has no `=` behind it.
pub proof fn other_output_says_nothing(d: DirectivesView, space: Seq<char>, rest: Seq<char>)
    requires
        blank(space),
        rest.len() > 0 ==> !is_space(rest[0]),
        !starts(rest, "cargo:"@) || !rest.contains('='),
    ensures
        with_line(d, space + rest) == d,
{
    reveal_strlit("cargo::");
    reveal_strlit("cargo:");
    trimmed_starts(space, rest);
    if starts(rest, "cargo::"@) {
        assert(rest.take(6) =~= rest.take(7).take(6));
        assert(rest.take(7).take(6) =~= "cargo:"@);
        let body = rest.skip(7);
        texts_split_once(body, '=', Seq::empty(), Seq::empty());
        if body.contains('=') {
            let k = choose|k: int| 0 <= k < body.len() && body[k] == '=';
            assert(rest[7 + k] == '=');
        }
    } else if starts(rest, "cargo:"@) {
        let body = rest.skip(6);
        texts_split_once(body, '=', Seq::empty(), Seq::empty());
        if body.contains('=') {
            let k = choose|k: int| 0 <= k < body.len() && body[k] == '=';
            assert(rest[6 + k] == '=');
        }
    }
}

/// A cfg loses one pair of quotes around it, and white space outside them.
pub proof fn cfgs_lose_their_quotes(a: Seq<char>, s: Seq<char>, b: Seq<char>, quote: char)
    requires
        blank(a),
        blank(b),
        quote == '"' || quote == '\'',
    ensures
        unquoted(a + (seq![quote] + s + seq![quote]) + b) == s,
        s.len() > 0 && !is_space(s[0]) && !is_space(s.last()) && s[0] != '"' && s[0] != '\''
            ==> unquoted(a + s + b) == s,
{
    let q = seq![quote] + s + seq![quote];
    assert(!is_space(quote));
    assert(q[0] == quote && q.last() == quote);
    crate::text_laws::trimmed_texts(a, q, b);
    assert(q.subrange(1, q.len() - 1) =~= s);
    if s.len() > 0 && !is_space(s[0]) && !is_space(s.last()) {
        crate::text_laws::trimmed_texts(a, s, b);
    }
}

/// A library's kind stands before its name: `static:`, `dylib:` or `framework:`;
/// any other name is a library of no stated kind.
pub proof fn libraries_are_named_with_their_kind(name: Seq<char>, value: Seq<char>)
    ensures
        link_lib_of("static:"@ + name) == (Some("static"@), name),
        link_lib_of("dylib:"@ + name) == (Some("dylib"@), name),
        link_lib_of("framework:"@ + name) == (Some("framework"@), name),
        !starts(value, "static:"@) && !starts(value, "dylib:"@) && !starts(value, "framework:"@)
            ==> link_lib_of(value) == (None::<Seq<char>>, value),
{
    reveal_strlit("static:");
    reveal_strlit("dylib:");
    reveal_strlit("framework:");
    let a = "static:"@ + name;
    let b = "dylib:"@ + name;
    let c = "framework:"@ + name;
    assert(a.take(7) =~= "static:"@ && a.skip(7) =~= name);
    assert(b.take(6) =~= "dylib:"@ && b.skip(6) =~= name);
    assert(c.take(10) =~= "framework:"@ && c.skip(10) =~= name);
    if starts(b, "static:"@) {
        assert(b.take(7)[0] == 's');
    }
    if starts(c, "static:"@) {
        assert(c.take(7)[0] == 's');
    }
    if starts(c, "dylib:"@) {
        assert(c.take(6)[0] == 'd');
    }
}

/// A search path is passed on as it is where it is absolute, and is below the
/// action's input root where it is relative; a kind before it is kept.
pub proof fn search_paths_lie_in_the_input_root(
    root: Seq<char>,
    kind: Seq<char>,
    path: Seq<char>,
)
    requires
        !kind.contains('='),
    ensures
        starts(path, "/"@) ==> search_arg(root, kind + "="@ + path) == kind + "="@ + path,
        !starts(path, "/"@) ==> search_arg(root, kind + "="@ + path) == kind + "="@ + root
            + "/in/"@ + path,
        !path.contains('=') && starts(path, "/"@) ==> search_arg(root, path) == path,
        !path.contains('=') && !starts(path, "/"@) ==> search_arg(root, path) == root + "/in/"@
            + path,
{
    reveal_strlit("=");
    assert("="@ =~= seq!['=']);
    texts_split_once(path, '=', kind, path);
}

// ---- Words ------------------------------------------------------------------------

proof fn lemma_word(s: Seq<char>, from: int, to: int)
    requires
        0 <= from <= to <= s.len(),
        forall|k: int| from <= k < to ==> !is_space(#[trigger] s[k]),
        to < s.len() ==> is_space(s[to]),
    ensures
        word_end(s, from) == to,
    decreases to - from,
{
    if from < to {
        assert(!is_space(s[from]));
        lemma_word(s, from + 1, to);
    }
}

proof fn lemma_gap(s: Seq<char>, from: int, to: int)
    requires
        0 <= from <= to <= s.len(),
        forall|k: int| from <= k < to ==> is_space(#[trigger] s[k]),
        to < s.len() ==> !is_space(s[to]),
    ensures
        word_start(s, from) == to,
    decreases to - from,
{
    if from < to {
        assert(is_space(s[from]));
        lemma_gap(s, from + 1, to);
    }
}

/// Flags are the words of their text: the first word, behind any white space, and
/// then those of the rest.
pub proof fn flags_are_words(s: Seq<char>, from: int, a: int, b: int)
    requires
        0 <= from <= a < b <= s.len(),
        forall|k: int| from <= k < a ==> is_space(#[trigger] s[k]),
        forall|k: int| a <= k < b ==> !is_space(#[trigger] s[k]),
        b < s.len() ==> is_space(s[b]),
    ensures
        words_from(s, from) == seq![s.subrange(a, b)] + words_from(s, b),
{
    assert(!is_space(s[a]));
    lemma_gap(s, from, a);
    lemma_word(s, a, b);
}

/// White space has no words.
pub proof fn white_space_has_no_words(s: Seq<char>, from: int)
    requires
        0 <= from <= s.len(),
        forall|k: int| from <= k < s.len() ==> is_space(#[trigger] s[k]),
    ensures
        words_from(s, from).len() == 0,
{
    lemma_gap(s, from, s.len() as int);
}

/// A script that says nothing has no directives.
pub proof fn silence_says_nothing()
    ensures
        ({
            let d = directives_in(Seq::empty());
            d.cfgs.len() == 0 && d.env.len() == 0 && d.metadata.len() == 0 && d.link_libs.len() == 0
                && d.link_search.len() == 0 && d.raw_flags.len() == 0 && d.link_args.len() == 0
                && d.extra_metadata.len() == 0 && d.check_cfgs.len() == 0
                && d.rerun_if_changed.len() == 0 && d.rerun_if_env_changed.len() == 0
                && d.warnings.len() == 0 && d.errors.len() == 0
        }),
{
    let none = Seq::<char>::empty();
    crate::text_laws::texts_have_their_lines(none, none);
    assert(lines_spec(none) =~= Seq::<Seq<char>>::empty());
}

/// Directives are read line by line: what the first line says, and then what the
/// rest of the output says.
pub proof fn output_is_read_by_lines(a: Seq<char>, b: Seq<char>, d: DirectivesView)
    requires
        !a.contains('\n'),
        a.len() == 0 || a.last() != '\r',
    ensures
        with_lines(d, lines_spec(a + seq!['\n'] + b)) == with_lines(
            with_line(d, a),
            lines_spec(b),
        ),
{
    crate::text_laws::texts_have_their_lines(a, b);
    crate::directives::directives_accumulate(d, seq![a], lines_spec(b));
    assert(seq![a].drop_last() =~= Seq::<Seq<char>>::empty());
    assert(with_lines(d, seq![a].drop_last()) == d);
    assert(with_lines(d, seq![a]) == with_line(d, a));
}

} // verus!
