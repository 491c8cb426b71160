//! What actions hold.

use vstd::prelude::*;
use vstd::string::*;
use crate::actions::{
    action_of, bin_mounts, compile_action, crate_args, direct_parts, further_mounts, link_args_of,
    native_args, native_mounts, over, own_directives, own_output, paired, rustc_args, unit_env,
    with_directives, with_env, with_extra, with_flags, with_libs, with_searches, with_sources,
    ActionInputs, ActionView, Applied, NetworkPolicy,
};
use crate::digest::Digest;
use crate::directives::{directives_in, search_arg, DirectivesView};
use crate::model::edition_text;
use crate::plan::{pairs_view, CompileUnit, Role, Unit, UnitKind};
use crate::strmap::{ascending_of, lemma_ascending_of};
use crate::text::{join_spec, opt_view, texts};
use crate::unit_laws::in_turn;
use crate::units::{dep_specs_view, DepSpecView, PlanFault};

verus! {

// ---- Lists ------------------------------------------------------------------------

/// Whether a list begins with another.
spec fn begins(list: Seq<Seq<char>>, with: Seq<Seq<char>>) -> bool {
    with.len() <= list.len() && list.take(with.len() as int) == with
}

pub(crate) proof fn lemma_in_turn(a: Seq<Seq<char>>, b: Seq<Seq<char>>, x: Seq<char>, y: Seq<char>)
    ensures
        in_turn(a, x, y) ==> in_turn(a + b, x, y),
        in_turn(b, x, y) ==> in_turn(a + b, x, y),
{
    if in_turn(a, x, y) {
        let k = choose|k: int|
            0 <= k < a.len() - 1 && #[trigger] a[k] == x && a[k + 1] == y;
        assert((a + b)[k] == x && (a + b)[k + 1] == y);
    }
    if in_turn(b, x, y) {
        let k = choose|k: int|
            0 <= k < b.len() - 1 && #[trigger] b[k] == x && b[k + 1] == y;
        assert((a + b)[a.len() + k] == x && (a + b)[a.len() + k + 1] == y);
    }
}

proof fn lemma_begins(a: Seq<Seq<char>>, b: Seq<Seq<char>>)
    requires
        begins(b, a),
    ensures
        forall|x: Seq<char>, y: Seq<char>| #[trigger] in_turn(a, x, y) ==> in_turn(b, x, y),
        forall|x: Seq<char>| #[trigger] a.contains(x) ==> b.contains(x),
        b == a + b.skip(a.len() as int),
{
    let rest = b.skip(a.len() as int);
    assert(b =~= a + rest);
    assert forall|x: Seq<char>, y: Seq<char>| #[trigger] in_turn(a, x, y) implies in_turn(
        b,
        x,
        y,
    ) by {
        lemma_in_turn(a, rest, x, y);
    }
    assert forall|x: Seq<char>| #[trigger] a.contains(x) implies b.contains(x) by {
        let k = choose|k: int| 0 <= k < a.len() && a[k] == x;
        assert(b[k] == x);
    }
}

proof fn lemma_begins_on(a: Seq<Seq<char>>, b: Seq<Seq<char>>, c: Seq<Seq<char>>)
    requires
        begins(b, a),
        begins(c, b),
    ensures
        begins(c, a),
{
    assert(c.take(a.len() as int) =~= b.take(a.len() as int)) by {
        assert forall|k: int| 0 <= k < a.len() implies c[k] == b[k] by {
            assert(c.take(b.len() as int)[k] == b[k]);
        }
    }
}

proof fn lemma_begins_plus(a: Seq<Seq<char>>, b: Seq<Seq<char>>)
    ensures
        begins(a + b, a),
{
    assert((a + b).take(a.len() as int) =~= a);
}

proof fn lemma_paired(flag: Seq<char>, prefix: Seq<char>, values: Seq<Seq<char>>)
    ensures
        forall|k: int|
            0 <= k < values.len() ==> in_turn(
                paired(flag, prefix, values),
                flag,
                prefix + #[trigger] values[k],
            ),
    decreases values.len(),
{
    if values.len() > 0 {
        let less = values.drop_last();
        lemma_paired(flag, prefix, less);
        let all = paired(flag, prefix, values);
        let before = paired(flag, prefix, less);
        lemma_begins_plus(before, seq![flag, prefix + values.last()]);
        assert(all =~= before + seq![flag, prefix + values.last()]);
        lemma_begins(before, all);
        assert forall|k: int| 0 <= k < values.len() implies in_turn(
            all,
            flag,
            prefix + #[trigger] values[k],
        ) by {
            if k < less.len() {
                assert(less[k] == values[k]);
            } else {
                let n = before.len() as int;
                assert(all[n] == flag && all[n + 1] == prefix + values[k]);
            }
        }
    }
}

// ---- Directives -------------------------------------------------------------------

/// How rustc is told of a library.
pub open spec fn lib_text(kind: Option<Seq<char>>, lib: Seq<char>) -> Seq<char> {
    match kind {
        Some(k) => k + "="@ + lib,
        None => lib,
    }
}

/// Whether the arguments hold all that has been applied.
spec fn told(a: Applied, root: Seq<char>) -> bool {
    &&& forall|l: (Option<Seq<char>>, Seq<char>)| #[trigger]
        a.libs.contains(l) ==> in_turn(a.args, "-l"@, lib_text(l.0, l.1))
    &&& forall|s: Seq<char>| #[trigger]
        a.searches.contains(s) ==> in_turn(a.args, "-L"@, search_arg(root, s))
    &&& forall|f: Seq<char>| #[trigger] a.flags.contains(f) ==> a.args.contains(f)
}

/// Whether one has all that another has.
spec fn more(a: Applied, b: Applied) -> bool {
    &&& begins(b.args, a.args)
    &&& a.libs.subset_of(b.libs)
    &&& a.searches.subset_of(b.searches)
    &&& a.flags.subset_of(b.flags)
    &&& begins(b.extra, a.extra)
}

proof fn lemma_more_on(a: Applied, b: Applied, c: Applied)
    requires
        more(a, b),
        more(b, c),
    ensures
        more(a, c),
{
    lemma_begins_on(a.args, b.args, c.args);
    lemma_begins_on(a.extra, b.extra, c.extra);
}

proof fn lemma_more_same(a: Applied)
    ensures
        more(a, a),
{
    assert(a.args.take(a.args.len() as int) =~= a.args);
    assert(a.extra.take(a.extra.len() as int) =~= a.extra);
}

proof fn lemma_libs(a: Applied, root: Seq<char>, libs: Seq<(Option<Seq<char>>, Seq<char>)>, n: int)
    requires
        told(a, root),
        0 <= n <= libs.len(),
    ensures
        told(with_libs(a, libs, n), root),
        more(a, with_libs(a, libs, n)),
        with_libs(a, libs, n).env == a.env,
        forall|k: int| 0 <= k < n ==> with_libs(a, libs, n).libs.contains(#[trigger] libs[k]),
    decreases n,
{
    if n <= 0 {
        lemma_more_same(a);
    } else {
        lemma_libs(a, root, libs, n - 1);
        let b = with_libs(a, libs, n - 1);
        let c = with_libs(a, libs, n);
        let (kind, lib) = libs[n - 1];
        if !b.libs.contains((kind, lib)) {
            let text = lib_text(kind, lib);
            assert(c.args =~= b.args + seq!["-l"@, text]);
            lemma_begins_plus(b.args, seq!["-l"@, text]);
            lemma_begins(b.args, c.args);
            assert(c.args[b.args.len() as int] == "-l"@ && c.args[b.args.len() as int + 1] == text);
            assert(in_turn(c.args, "-l"@, text));
            lemma_more_same(b);
            lemma_more_on(a, b, c);
        }
        assert(c.libs.contains(libs[n - 1]));
    }
}

proof fn lemma_searches(a: Applied, root: Seq<char>, searches: Seq<Seq<char>>, n: int)
    requires
        told(a, root),
        0 <= n <= searches.len(),
    ensures
        told(with_searches(a, root, searches, n), root),
        more(a, with_searches(a, root, searches, n)),
        with_searches(a, root, searches, n).env == a.env,
        forall|k: int|
            0 <= k < n ==> with_searches(a, root, searches, n).searches.contains(
                #[trigger] searches[k],
            ),
    decreases n,
{
    if n <= 0 {
        lemma_more_same(a);
    } else {
        lemma_searches(a, root, searches, n - 1);
        let b = with_searches(a, root, searches, n - 1);
        let c = with_searches(a, root, searches, n);
        let s = searches[n - 1];
        if !b.searches.contains(s) {
            let text = search_arg(root, s);
            assert(c.args =~= b.args + seq!["-L"@, text]);
            lemma_begins_plus(b.args, seq!["-L"@, text]);
            lemma_begins(b.args, c.args);
            assert(c.args[b.args.len() as int] == "-L"@ && c.args[b.args.len() as int + 1] == text);
            assert(in_turn(c.args, "-L"@, text));
            lemma_more_same(b);
            lemma_more_on(a, b, c);
        }
        assert(c.searches.contains(searches[n - 1]));
    }
}

proof fn lemma_flags(a: Applied, root: Seq<char>, flags: Seq<Seq<char>>, n: int)
    requires
        told(a, root),
        0 <= n <= flags.len(),
    ensures
        told(with_flags(a, flags, n), root),
        more(a, with_flags(a, flags, n)),
        with_flags(a, flags, n).env == a.env,
        forall|k: int| 0 <= k < n ==> with_flags(a, flags, n).flags.contains(#[trigger] flags[k]),
    decreases n,
{
    if n <= 0 {
        lemma_more_same(a);
    } else {
        lemma_flags(a, root, flags, n - 1);
        let b = with_flags(a, flags, n - 1);
        let c = with_flags(a, flags, n);
        let f = flags[n - 1];
        if !b.flags.contains(f) {
            assert(c.args =~= b.args + seq![f]);
            lemma_begins_plus(b.args, seq![f]);
            lemma_begins(b.args, c.args);
            assert(c.args[b.args.len() as int] == f);
            lemma_more_same(b);
            lemma_more_on(a, b, c);
        }
        assert(c.flags.contains(flags[n - 1]));
    }
}

proof fn lemma_extra(a: Applied, values: Seq<Seq<char>>, n: int)
    requires
        0 <= n <= values.len(),
    ensures
        ({
            let b = with_extra(a, values, n);
            &&& b.args == a.args && b.env == a.env && b.libs == a.libs && b.searches == a.searches
                && b.flags == a.flags
            &&& begins(b.extra, a.extra)
            &&& forall|k: int| 0 <= k < n ==> b.extra.contains(#[trigger] values[k])
        }),
    decreases n,
{
    if n <= 0 {
        lemma_more_same(a);
    } else {
        lemma_extra(a, values, n - 1);
        let b = with_extra(a, values, n - 1);
        let c = with_extra(a, values, n);
        if !b.extra.contains(values[n - 1]) {
            assert(c.extra =~= b.extra + seq![values[n - 1]]);
            lemma_begins_plus(b.extra, seq![values[n - 1]]);
            lemma_begins(b.extra, c.extra);
            lemma_begins_on(a.extra, b.extra, c.extra);
            assert(c.extra[b.extra.len() as int] == values[n - 1]);
        }
        assert(c.extra.contains(values[n - 1]));
    }
}

/// Whether a crate type is linked into a file of its own.
pub open spec fn is_linked(crate_type: Seq<char>) -> bool {
    crate_type == "bin"@ || crate_type == "test"@ || crate_type == "cdylib"@ || crate_type
        == "staticlib"@
}

/// Whether the arguments of an action hold what a build script says to the linker
/// and to the compiler.
pub open spec fn heeds(
    arguments: Seq<Seq<char>>,
    root: Seq<char>,
    d: DirectivesView,
    crate_type: Seq<char>,
    role: Role,
) -> bool {
    &&& forall|k: int|
        0 <= k < d.link_libs.len() ==> in_turn(
            arguments,
            "-l"@,
            lib_text((#[trigger] d.link_libs[k]).0, d.link_libs[k].1),
        )
    &&& forall|k: int|
        0 <= k < d.link_search.len() ==> in_turn(
            arguments,
            "-L"@,
            search_arg(root, #[trigger] d.link_search[k]),
        )
    &&& forall|k: int|
        0 <= k < d.raw_flags.len() ==> arguments.contains(#[trigger] d.raw_flags[k])
    &&& is_linked(crate_type) ==> forall|k: int|
        0 <= k < d.link_args.len() ==> in_turn(
            arguments,
            "-C"@,
            "link-arg="@ + #[trigger] d.link_args[k],
        )
    &&& role == Role::Bin ==> forall|k: int|
        0 <= k < d.link_arg_bins.len() ==> in_turn(
            arguments,
            "-C"@,
            "link-arg="@ + #[trigger] d.link_arg_bins[k],
        )
    &&& role == Role::Example ==> forall|k: int|
        0 <= k < d.link_arg_examples.len() ==> in_turn(
            arguments,
            "-C"@,
            "link-arg="@ + #[trigger] d.link_arg_examples[k],
        )
    &&& role == Role::Test || role == Role::UnitTest ==> forall|k: int|
        0 <= k < d.link_arg_tests.len() ==> in_turn(
            arguments,
            "-C"@,
            "link-arg="@ + #[trigger] d.link_arg_tests[k],
        )
    &&& role == Role::Library && crate_type == "cdylib"@ ==> forall|k: int|
        0 <= k < d.cdylib_link_args.len() ==> in_turn(
            arguments,
            "-C"@,
            "link-arg="@ + #[trigger] d.cdylib_link_args[k],
        )
    &&& forall|k: int|
        0 <= k < d.check_cfgs.len() ==> in_turn(
            arguments,
            "--check-cfg"@,
            #[trigger] d.check_cfgs[k],
        )
}

proof fn lemma_heeds_more(
    a: Seq<Seq<char>>,
    b: Seq<Seq<char>>,
    root: Seq<char>,
    d: DirectivesView,
    crate_type: Seq<char>,
    role: Role,
)
    requires
        heeds(a, root, d, crate_type, role),
        begins(b, a),
    ensures
        heeds(b, root, d, crate_type, role),
{
    lemma_begins(a, b);
}

proof fn lemma_directives(
    a: Applied,
    root: Seq<char>,
    d: DirectivesView,
    crate_type: Seq<char>,
    role: Role,
)
    requires
        told(a, root),
    ensures
        ({
            let b = with_directives(a, root, d, crate_type, role);
            &&& told(b, root)
            &&& more(a, b)
            &&& heeds(b.args, root, d, crate_type, role)
            &&& forall|k: int|
                0 <= k < d.extra_metadata.len() ==> b.extra.contains(#[trigger] d.extra_metadata[k])
            &&& b.env == with_env(a.env, d.env, d.env.len() as int)
        }),
{
    let libs = with_libs(a, d.link_libs, d.link_libs.len() as int);
    lemma_libs(a, root, d.link_libs, d.link_libs.len() as int);
    let searches = with_searches(libs, root, d.link_search, d.link_search.len() as int);
    lemma_searches(libs, root, d.link_search, d.link_search.len() as int);
    let flags = with_flags(searches, d.raw_flags, d.raw_flags.len() as int);
    lemma_flags(searches, root, d.raw_flags, d.raw_flags.len() as int);
    lemma_more_on(a, libs, searches);
    lemma_more_on(a, searches, flags);
    lemma_more_on(libs, searches, flags);
    let links = link_args_of(d, crate_type, role);
    let linked = paired("-C"@, "link-arg="@, links);
    let checked = paired("--check-cfg"@, ""@, d.check_cfgs);
    let args = flags.args + linked + checked;
    let mid = Applied { args, ..flags };
    lemma_extra(mid, d.extra_metadata, d.extra_metadata.len() as int);
    let b = with_directives(a, root, d, crate_type, role);
    assert(b.args == args);
    lemma_begins_plus(flags.args, linked);
    lemma_begins_plus(flags.args + linked, checked);
    lemma_begins_on(flags.args, flags.args + linked, args);
    lemma_begins(flags.args, args);
    lemma_begins_on(a.args, flags.args, args);
    lemma_begins_on(a.extra, mid.extra, b.extra);
    lemma_paired("-C"@, "link-arg="@, links);
    lemma_paired("--check-cfg"@, ""@, d.check_cfgs);
    assert forall|k: int| 0 <= k < links.len() implies in_turn(
        args,
        "-C"@,
        "link-arg="@ + #[trigger] links[k],
    ) by {
        lemma_in_turn(flags.args, linked, "-C"@, "link-arg="@ + links[k]);
        lemma_in_turn(flags.args + linked, checked, "-C"@, "link-arg="@ + links[k]);
    }
    let first = if is_linked(crate_type) {
        d.link_args
    } else {
        Seq::empty()
    };
    let second = links.skip(first.len() as int);
    assert(links =~= first + second);
    assert forall|x: Seq<char>| #[trigger] first.contains(x) || second.contains(x) implies in_turn(
        args,
        "-C"@,
        "link-arg="@ + x,
    ) by {
        if first.contains(x) {
            let k = choose|k: int| 0 <= k < first.len() && first[k] == x;
            assert(links[k] == x);
        } else {
            let k = choose|k: int| 0 <= k < second.len() && second[k] == x;
            assert(links[first.len() + k] == x);
        }
    }
    if role == Role::Bin {
        assert(second =~= d.link_arg_bins);
        assert forall|k: int| 0 <= k < d.link_arg_bins.len() implies in_turn(
            args,
            "-C"@,
            "link-arg="@ + #[trigger] d.link_arg_bins[k],
        ) by {
            assert(second.contains(second[k]));
            assert(first.contains(second[k]) || second.contains(second[k]));
        }
    }
    if role == Role::Example {
        assert(second =~= d.link_arg_examples);
        assert forall|k: int| 0 <= k < d.link_arg_examples.len() implies in_turn(
            args,
            "-C"@,
            "link-arg="@ + #[trigger] d.link_arg_examples[k],
        ) by {
            assert(second.contains(second[k]));
            assert(first.contains(second[k]) || second.contains(second[k]));
        }
    }
    if role == Role::Test || role == Role::UnitTest {
        assert(second =~= d.link_arg_tests);
        assert forall|k: int| 0 <= k < d.link_arg_tests.len() implies in_turn(
            args,
            "-C"@,
            "link-arg="@ + #[trigger] d.link_arg_tests[k],
        ) by {
            assert(second.contains(second[k]));
            assert(first.contains(second[k]) || second.contains(second[k]));
        }
    }
    if role == Role::Library && crate_type == "cdylib"@ {
        assert(second =~= d.cdylib_link_args);
        assert forall|k: int| 0 <= k < d.cdylib_link_args.len() implies in_turn(
            args,
            "-C"@,
            "link-arg="@ + #[trigger] d.cdylib_link_args[k],
        ) by {
            assert(second.contains(second[k]));
            assert(first.contains(second[k]) || second.contains(second[k]));
        }
    }
    if is_linked(crate_type) {
        assert forall|k: int| 0 <= k < d.link_args.len() implies in_turn(
            args,
            "-C"@,
            "link-arg="@ + #[trigger] d.link_args[k],
        ) by {
            assert(first.contains(first[k]));
            assert(first.contains(first[k]) || second.contains(first[k]));
        }
    }
    reveal_strlit("");
    assert forall|k: int| 0 <= k < d.check_cfgs.len() implies in_turn(
        args,
        "--check-cfg"@,
        #[trigger] d.check_cfgs[k],
    ) by {
        lemma_in_turn(flags.args + linked, checked, "--check-cfg"@, ""@ + d.check_cfgs[k]);
        assert(""@ + d.check_cfgs[k] =~= d.check_cfgs[k]);
    }
    assert forall|k: int| 0 <= k < d.link_libs.len() implies in_turn(
        args,
        "-l"@,
        lib_text((#[trigger] d.link_libs[k]).0, d.link_libs[k].1),
    ) by {
        assert(libs.libs.contains(d.link_libs[k]));
        assert(flags.libs.contains(d.link_libs[k]));
    }
    assert forall|k: int| 0 <= k < d.link_search.len() implies in_turn(
        args,
        "-L"@,
        search_arg(root, #[trigger] d.link_search[k]),
    ) by {
        assert(searches.searches.contains(d.link_search[k]));
        assert(flags.searches.contains(d.link_search[k]));
    }
    assert forall|k: int| 0 <= k < d.raw_flags.len() implies args.contains(
        #[trigger] d.raw_flags[k],
    ) by {
        assert(flags.flags.contains(d.raw_flags[k]));
    }
}

// ---- Compilations -----------------------------------------------------------------

/// Whether directives set a variable.
pub open spec fn sets_var(d: DirectivesView, key: Seq<char>) -> bool {
    exists|k: int| 0 <= k < d.env.len() && (#[trigger] d.env[k]).0 == key
}

proof fn lemma_env_kept(
    env: Map<Seq<char>, Seq<char>>,
    pairs: Seq<(Seq<char>, Seq<char>)>,
    n: int,
    key: Seq<char>,
)
    requires
        0 <= n <= pairs.len(),
        forall|k: int| 0 <= k < n ==> (#[trigger] pairs[k]).0 != key,
    ensures
        with_env(env, pairs, n).contains_key(key) == env.contains_key(key),
        env.contains_key(key) ==> with_env(env, pairs, n)[key] == env[key],
    decreases n,
{
    if n > 0 {
        lemma_env_kept(env, pairs, n - 1, key);
        assert(pairs[n - 1].0 != key);
    }
}

proof fn lemma_env_last(
    env: Map<Seq<char>, Seq<char>>,
    pairs: Seq<(Seq<char>, Seq<char>)>,
    n: int,
    k: int,
)
    requires
        0 <= k < n <= pairs.len(),
        forall|j: int| k < j < n ==> (#[trigger] pairs[j]).0 != pairs[k].0,
    ensures
        with_env(env, pairs, n).contains_key(pairs[k].0),
        with_env(env, pairs, n)[pairs[k].0] == pairs[k].1,
    decreases n,
{
    if k < n - 1 {
        lemma_env_last(env, pairs, n - 1, k);
        assert(pairs[n - 1].0 != pairs[k].0);
    }
}

/// The directives of a build script whose output is known.
pub open spec fn said(i: ActionInputs<'_>, run: Seq<char>) -> DirectivesView {
    directives_in(i.completed.stdout@[run]@)
}

/// Whether a build script that a compilation hears sets a variable.
pub open spec fn script_sets(i: ActionInputs<'_>, c: CompileUnit, key: Seq<char>) -> bool {
    ||| c.build_script matches Some(id) && i.completed.stdout@.contains_key(id@) && sets_var(
        said(i, id@),
        key,
    )
    ||| exists|k: int|
        0 <= k < c.directive_sources@.len() && i.completed.stdout@.contains_key(
            (#[trigger] c.directive_sources@[k])@,
        ) && sets_var(said(i, c.directive_sources@[k]@), key)
}

proof fn lemma_sources(
    a: Applied,
    i: ActionInputs<'_>,
    sources: Seq<Seq<char>>,
    own: Option<Seq<char>>,
    crate_type: Seq<char>,
    role: Role,
    n: int,
)
    requires
        told(a, i.exec_root@),
        0 <= n <= sources.len(),
    ensures
        ({
            let b = with_sources(a, i, sources, own, crate_type, role, n);
            &&& told(b, i.exec_root@)
            &&& more(a, b)
            &&& forall|k: int|
                0 <= k < n && own != Some(#[trigger] sources[k])
                    && i.completed.stdout@.contains_key(sources[k]) ==> heeds(
                    b.args,
                    i.exec_root@,
                    said(i, sources[k]),
                    crate_type,
                    role,
                )
        }),
    decreases n,
{
    if n <= 0 {
        lemma_more_same(a);
    } else {
        lemma_sources(a, i, sources, own, crate_type, role, n - 1);
        let b = with_sources(a, i, sources, own, crate_type, role, n - 1);
        let c = with_sources(a, i, sources, own, crate_type, role, n);
        let source = sources[n - 1];
        if own != Some(source) && i.completed.stdout@.contains_key(source) {
            let d = said(i, source);
            lemma_directives(b, i.exec_root@, d, crate_type, role);
            lemma_more_on(a, b, c);
            assert forall|k: int|
                0 <= k < n && own != Some(#[trigger] sources[k])
                    && i.completed.stdout@.contains_key(sources[k]) implies heeds(
                c.args,
                i.exec_root@,
                said(i, sources[k]),
                crate_type,
                role,
            ) by {
                if k < n - 1 {
                    lemma_heeds_more(
                        b.args,
                        c.args,
                        i.exec_root@,
                        said(i, sources[k]),
                        crate_type,
                        role,
                    );
                }
            }
        }
    }
}

proof fn lemma_sources_env(
    a: Applied,
    i: ActionInputs<'_>,
    sources: Seq<Seq<char>>,
    own: Option<Seq<char>>,
    crate_type: Seq<char>,
    role: Role,
    n: int,
    key: Seq<char>,
)
    requires
        told(a, i.exec_root@),
        0 <= n <= sources.len(),
        forall|k: int|
            0 <= k < n && i.completed.stdout@.contains_key(#[trigger] sources[k]) ==> !sets_var(
                said(i, sources[k]),
                key,
            ),
    ensures
        ({
            let b = with_sources(a, i, sources, own, crate_type, role, n);
            b.env.contains_key(key) == a.env.contains_key(key) && (a.env.contains_key(key)
                ==> b.env[key] == a.env[key])
        }),
    decreases n,
{
    if n > 0 {
        lemma_sources_env(a, i, sources, own, crate_type, role, n - 1, key);
        lemma_sources(a, i, sources, own, crate_type, role, n - 1);
        let b = with_sources(a, i, sources, own, crate_type, role, n - 1);
        let source = sources[n - 1];
        if own != Some(source) && i.completed.stdout@.contains_key(source) {
            let d = said(i, source);
            lemma_directives(b, i.exec_root@, d, crate_type, role);
            assert(!sets_var(said(i, sources[n - 1]), key));
            assert forall|k: int| 0 <= k < d.env.len() implies (#[trigger] d.env[k]).0 != key by {}
            lemma_env_kept(b.env, d.env, d.env.len() as int, key);
        }
    }
}

/// Whether mounts end with others.
spec fn ends_with(mounts: Seq<(Seq<char>, Digest)>, with: Seq<(Seq<char>, Digest)>) -> bool {
    with.len() <= mounts.len() && mounts.skip(mounts.len() - with.len()) == with
}

/// What a compilation starts with before any script is heard.
spec fn begun(i: ActionInputs<'_>, c: CompileUnit) -> Applied {
    let deps = dep_specs_view(c.deps@);
    let cc = pairs_view(c.cc@);
    let bins = pairs_view(c.bins@);
    Applied {
        args: direct_parts(i, deps, deps.len() as int)->Ok_0.1 + native_args(
            i,
            cc,
            cc.len() as int,
        ),
        env: match own_output(i, c)->Ok_0 {
            Some(_) => unit_env(i, bins).insert("OUT_DIR"@, i.exec_root@ + "/in/build_out"@),
            None => unit_env(i, bins),
        },
        libs: Set::empty(),
        searches: Set::empty(),
        flags: Set::empty(),
        extra: Seq::empty(),
    }
}

/// What a compilation has when all scripts have been heard.
spec fn heard(i: ActionInputs<'_>, c: CompileUnit) -> Applied {
    let sources = texts(c.directive_sources@);
    with_directives(
        with_sources(
            begun(i, c),
            i,
            sources,
            opt_view(c.build_script),
            c.crate_type@,
            c.role,
            sources.len() as int,
        ),
        i.exec_root@,
        own_directives(i, c),
        c.crate_type@,
        c.role,
    )
}

proof fn lemma_compile(i: ActionInputs<'_>, c: CompileUnit, a: ActionView)
    requires
        compile_action(i, c) == Ok::<ActionView, PlanFault>(a),
    ensures
        own_output(i, c) is Ok,
        own_directives(i, c).errors.len() == 0,
        direct_parts(i, dep_specs_view(c.deps@), c.deps@.len() as int) is Ok,
        further_mounts(
            i,
            dep_specs_view(c.deps@),
            ascending_of(c.transitive@),
            ascending_of(c.transitive@).len() as int,
        ) is Ok,
        bin_mounts(i, pairs_view(c.bins@), c.bins@.len() as int) is Ok,
        a.arguments == heard(i, c).args + paired("--cfg"@, ""@, own_directives(i, c).cfgs)
            + rustc_args(i, c, heard(i, c).extra),
        a.environment == heard(i, c).env,
        begins(a.arguments, heard(i, c).args),
        begins(heard(i, c).args, begun(i, c).args),
        told(begun(i, c), i.exec_root@),
        ends_with(a.mounts, native_mounts(i, pairs_view(c.cc@), c.cc@.len() as int)),
{
    assert(pairs_view(c.cc@).len() == c.cc@.len());
    let tail = native_mounts(i, pairs_view(c.cc@), c.cc@.len() as int);
    assert(a.mounts.skip(a.mounts.len() - tail.len()) =~= tail);
    let deps = dep_specs_view(c.deps@);
    assert(deps.len() == c.deps@.len());
    assert(pairs_view(c.bins@).len() == c.bins@.len());
    let start = begun(i, c);
    let sources = texts(c.directive_sources@);
    lemma_sources(
        start,
        i,
        sources,
        opt_view(c.build_script),
        c.crate_type@,
        c.role,
        sources.len() as int,
    );
    let others = with_sources(
        start,
        i,
        sources,
        opt_view(c.build_script),
        c.crate_type@,
        c.role,
        sources.len() as int,
    );
    lemma_directives(others, i.exec_root@, own_directives(i, c), c.crate_type@, c.role);
    lemma_more_on(start, others, heard(i, c));
    let cfgs = paired("--cfg"@, ""@, own_directives(i, c).cfgs);
    lemma_begins_plus(heard(i, c).args, cfgs);
    lemma_begins_plus(heard(i, c).args + cfgs, rustc_args(i, c, heard(i, c).extra));
    lemma_begins_on(heard(i, c).args, heard(i, c).args + cfgs, a.arguments);
}

/// A compilation heeds its own build script: every cfg that the script names is
/// passed by `--cfg`, and so is all that it says to the linker and the compiler.
/// Its warnings are handed on. Its variables win over all others, the last of one
/// name over those before it.
pub proof fn compilations_heed_their_script(
    i: ActionInputs<'_>,
    u: Unit,
    c: CompileUnit,
    a: ActionView,
    run: String,
)
    requires
        u.kind == UnitKind::Compile(c),
        action_of(i, u) == Ok::<ActionView, PlanFault>(a),
        c.build_script == Some(run),
        i.completed.stdout@.contains_key(run@),
    ensures
        forall|k: int|
            0 <= k < said(i, run@).cfgs.len() ==> in_turn(
                a.arguments,
                "--cfg"@,
                #[trigger] said(i, run@).cfgs[k],
            ),
        heeds(a.arguments, i.exec_root@, said(i, run@), c.crate_type@, c.role),
        a.warnings == said(i, run@).warnings,
        said(i, run@).errors.len() == 0,
        forall|k: int|
            0 <= k < said(i, run@).env.len() && (forall|j: int|
                k < j < said(i, run@).env.len() ==> (#[trigger] said(i, run@).env[j]).0 != said(
                    i,
                    run@,
                ).env[k].0) ==> a.environment.contains_key((#[trigger] said(i, run@).env[k]).0)
                && a.environment[said(i, run@).env[k].0] == said(i, run@).env[k].1,
{
    lemma_compile(i, c, a);
    let d = said(i, run@);
    assert(own_directives(i, c) == d);
    let start = begun(i, c);
    let sources = texts(c.directive_sources@);
    let n = sources.len() as int;
    lemma_sources(start, i, sources, opt_view(c.build_script), c.crate_type@, c.role, n);
    let others = with_sources(
        start,
        i,
        sources,
        opt_view(c.build_script),
        c.crate_type@,
        c.role,
        n,
    );
    lemma_directives(others, i.exec_root@, d, c.crate_type@, c.role);
    let all = heard(i, c);
    lemma_heeds_more(all.args, a.arguments, i.exec_root@, d, c.crate_type@, c.role);
    let cfgs = paired("--cfg"@, ""@, d.cfgs);
    lemma_paired("--cfg"@, ""@, d.cfgs);
    reveal_strlit("");
    assert forall|k: int| 0 <= k < d.cfgs.len() implies in_turn(
        a.arguments,
        "--cfg"@,
        #[trigger] d.cfgs[k],
    ) by {
        assert(""@ + d.cfgs[k] =~= d.cfgs[k]);
        lemma_in_turn(all.args, cfgs, "--cfg"@, d.cfgs[k]);
        lemma_in_turn(all.args + cfgs, rustc_args(i, c, all.extra), "--cfg"@, d.cfgs[k]);
    }
    assert forall|k: int|
        0 <= k < d.env.len() && (forall|j: int|
            k < j < d.env.len() ==> (#[trigger] d.env[j]).0 != d.env[k].0) implies (
    a.environment.contains_key((#[trigger] d.env[k]).0) && a.environment[d.env[k].0]
        == d.env[k].1) by {
        lemma_env_last(others.env, d.env, d.env.len() as int, k);
    }
}

/// A compilation heeds the build scripts of its dependencies: what these say to the
/// linker and the compiler is passed on.
pub proof fn compilations_heed_scripts_of_dependencies(
    i: ActionInputs<'_>,
    u: Unit,
    c: CompileUnit,
    a: ActionView,
    k: int,
)
    requires
        u.kind == UnitKind::Compile(c),
        action_of(i, u) == Ok::<ActionView, PlanFault>(a),
        0 <= k < c.directive_sources@.len(),
        i.completed.stdout@.contains_key(c.directive_sources@[k]@),
    ensures
        heeds(
            a.arguments,
            i.exec_root@,
            said(i, c.directive_sources@[k]@),
            c.crate_type@,
            c.role,
        ),
{
    lemma_compile(i, c, a);
    let sources = texts(c.directive_sources@);
    let run = c.directive_sources@[k];
    assert(sources[k] == run@);
    if opt_view(c.build_script) == Some(run@) {
        compilations_heed_their_script(i, u, c, a, c.build_script->0);
    } else {
        let n = sources.len() as int;
        let start = begun(i, c);
        lemma_sources(start, i, sources, opt_view(c.build_script), c.crate_type@, c.role, n);
        let others = with_sources(
            start,
            i,
            sources,
            opt_view(c.build_script),
            c.crate_type@,
            c.role,
            n,
        );
        assert(heeds(others.args, i.exec_root@, said(i, sources[k]), c.crate_type@, c.role));
        lemma_directives(others, i.exec_root@, own_directives(i, c), c.crate_type@, c.role);
        lemma_begins_on(others.args, heard(i, c).args, a.arguments);
        lemma_heeds_more(
            others.args,
            a.arguments,
            i.exec_root@,
            said(i, run@),
            c.crate_type@,
            c.role,
        );
    }
}

/// A build script that reports an error fails the compilation, with the first.
pub proof fn errors_of_scripts_fail_their_compilation(
    i: ActionInputs<'_>,
    u: Unit,
    c: CompileUnit,
    run: String,
)
    requires
        u.kind == UnitKind::Compile(c),
        c.build_script == Some(run),
        i.completed.outputs@.contains_key(run@),
        i.completed.stdout@.contains_key(run@),
        said(i, run@).errors.len() > 0,
    ensures
        action_of(i, u) == Err::<ActionView, PlanFault>(
            PlanFault::Message(
                "build script for "@ + c.crate_name@ + " failed: "@ + said(i, run@).errors[0],
            ),
        ),
{
}

/// A variable that no script sets is the one that the unit itself has: where its
/// package has a script, `OUT_DIR` is where that left its output.
pub proof fn other_variables_are_the_units_own(
    i: ActionInputs<'_>,
    u: Unit,
    c: CompileUnit,
    a: ActionView,
    key: Seq<char>,
)
    requires
        u.kind == UnitKind::Compile(c),
        action_of(i, u) == Ok::<ActionView, PlanFault>(a),
        !script_sets(i, c, key),
    ensures
        key != "OUT_DIR"@ || c.build_script is None ==> (a.environment.contains_key(key)
            <==> unit_env(i, pairs_view(c.bins@)).contains_key(key)) && (a.environment.contains_key(
            key,
        ) ==> a.environment[key] == unit_env(i, pairs_view(c.bins@))[key]),
        key == "OUT_DIR"@ && c.build_script is Some ==> a.environment.contains_key(key)
            && a.environment[key] == i.exec_root@ + "/in/build_out"@,
{
    lemma_compile(i, c, a);
    let sources = texts(c.directive_sources@);
    let n = sources.len() as int;
    let start = begun(i, c);
    lemma_sources(start, i, sources, opt_view(c.build_script), c.crate_type@, c.role, n);
    let others = with_sources(
        start,
        i,
        sources,
        opt_view(c.build_script),
        c.crate_type@,
        c.role,
        n,
    );
    let d = own_directives(i, c);
    lemma_directives(others, i.exec_root@, d, c.crate_type@, c.role);
    assert forall|k: int|
        0 <= k < n && i.completed.stdout@.contains_key(#[trigger] sources[k]) implies !sets_var(
        said(i, sources[k]),
        key,
    ) by {
        assert(sources[k] == c.directive_sources@[k]@);
        assert(i.completed.stdout@.contains_key(c.directive_sources@[k]@));
    }
    lemma_sources_env(
        start,
        i,
        sources,
        opt_view(c.build_script),
        c.crate_type@,
        c.role,
        n,
        key,
    );
    assert forall|k: int| 0 <= k < d.env.len() implies (#[trigger] d.env[k]).0 != key by {
        if d.env[k].0 == key {
            assert(sets_var(d, key));
        }
    }
    lemma_env_kept(others.env, d.env, d.env.len() as int, key);
}

proof fn lemma_direct_parts(i: ActionInputs<'_>, deps: Seq<DepSpecView>, n: int)
    requires
        0 <= n <= deps.len(),
    ensures
        direct_parts(i, deps, n) matches Ok((mounts, args)) ==> {
            &&& forall|k: int|
                0 <= k < n && (#[trigger] deps[k]) is Rust ==> in_turn(
                    args,
                    "--extern"@,
                    deps[k]->extern_name + "="@ + i.exec_root@ + "/in/deps/"@ + deps[k]->file,
                ) && i.completed.outputs@.contains_key(deps[k]->action) && mounts.contains(
                    ("deps"@, i.completed.outputs@[deps[k]->action]),
                )
        },
    decreases n,
{
    if n > 0 {
        lemma_direct_parts(i, deps, n - 1);
        if direct_parts(i, deps, n) is Ok {
            let (m0, a0) = direct_parts(i, deps, n - 1)->Ok_0;
            let (m1, a1) = direct_parts(i, deps, n)->Ok_0;
            assert forall|k: int| 0 <= k < n && (#[trigger] deps[k]) is Rust implies in_turn(
                a1,
                "--extern"@,
                deps[k]->extern_name + "="@ + i.exec_root@ + "/in/deps/"@ + deps[k]->file,
            ) && i.completed.outputs@.contains_key(deps[k]->action) && m1.contains(
                ("deps"@, i.completed.outputs@[deps[k]->action]),
            ) by {
                let text = deps[k]->extern_name + "="@ + i.exec_root@ + "/in/deps/"@
                    + deps[k]->file;
                let last = ("deps"@, i.completed.outputs@[deps[k]->action]);
                if k < n - 1 {
                    if deps[n - 1] is Rust {
                        let next = deps[n - 1]->extern_name + "="@ + i.exec_root@ + "/in/deps/"@
                            + deps[n - 1]->file;
                        assert(a1 =~= a0 + seq!["--extern"@, next]);
                        lemma_in_turn(a0, seq!["--extern"@, next], "--extern"@, text);
                        let x = choose|x: int| 0 <= x < m0.len() && m0[x] == last;
                        assert(m1[x] == last);
                    }
                } else {
                    let x = a0.len() as int;
                    assert(a1[x] == "--extern"@ && a1[x + 1] == text);
                    assert(m1[m0.len() as int] == last);
                }
            }
        }
    }
}

/// Each direct dependency is named by `--extern`, with the file that it is, and
/// mounted where that file is looked for.
pub proof fn direct_dependencies_are_named(
    i: ActionInputs<'_>,
    u: Unit,
    c: CompileUnit,
    a: ActionView,
    k: int,
)
    requires
        u.kind == UnitKind::Compile(c),
        action_of(i, u) == Ok::<ActionView, PlanFault>(a),
        0 <= k < c.deps@.len(),
        c.deps@[k]@ is Rust,
    ensures
        in_turn(
            a.arguments,
            "--extern"@,
            c.deps@[k]@->extern_name + "="@ + i.exec_root@ + "/in/deps/"@ + c.deps@[k]@->file,
        ),
        i.completed.outputs@.contains_key(c.deps@[k]@->action),
        a.mounts.contains(("deps"@, i.completed.outputs@[c.deps@[k]@->action])),
{
    lemma_compile(i, c, a);
    let deps = dep_specs_view(c.deps@);
    let n = deps.len() as int;
    assert(deps[k] == c.deps@[k]@);
    lemma_direct_parts(i, deps, n);
    let (mounts, args) = direct_parts(i, deps, n)->Ok_0;
    let text = deps[k]->extern_name + "="@ + i.exec_root@ + "/in/deps/"@ + deps[k]->file;
    lemma_in_turn(
        args,
        native_args(i, pairs_view(c.cc@), c.cc@.len() as int),
        "--extern"@,
        text,
    );
    assert(pairs_view(c.cc@).len() == c.cc@.len());
    lemma_begins(begun(i, c).args, heard(i, c).args);
    lemma_begins(heard(i, c).args, a.arguments);
    let tree = ("deps"@, i.completed.outputs@[deps[k]->action]);
    let x = choose|x: int| 0 <= x < mounts.len() && mounts[x] == tree;
    let before: int = if own_output(i, c)->Ok_0 is Some {
        2
    } else {
        1
    };
    assert(a.mounts[before + x] == tree);
}

proof fn lemma_further_mounts(
    i: ActionInputs<'_>,
    deps: Seq<DepSpecView>,
    ids: Seq<Seq<char>>,
    n: int,
    k: int,
)
    requires
        0 <= k < n <= ids.len(),
        further_mounts(i, deps, ids, n) is Ok,
        forall|x: int| 0 <= x < deps.len() && (#[trigger] deps[x]) is Rust ==> deps[x]->action != ids[k],
    ensures
        i.completed.outputs@.contains_key(ids[k]),
        further_mounts(i, deps, ids, n)->Ok_0.contains(
            ("deps"@, i.completed.outputs@[ids[k]]),
        ),
    decreases n,
{
    let before = further_mounts(i, deps, ids, n - 1)->Ok_0;
    let after = further_mounts(i, deps, ids, n)->Ok_0;
    let tree = ("deps"@, i.completed.outputs@[ids[k]]);
    if k < n - 1 {
        lemma_further_mounts(i, deps, ids, n - 1, k);
        let x = choose|x: int| 0 <= x < before.len() && before[x] == tree;
        assert(after[x] == tree);
    } else {
        assert(after[before.len() as int] == tree);
    }
}

/// Every crate that a compilation links, directly or through others, is mounted
/// where rustc looks for dependencies.
pub proof fn linked_crates_are_mounted(
    i: ActionInputs<'_>,
    u: Unit,
    c: CompileUnit,
    a: ActionView,
    id: Seq<char>,
)
    requires
        u.kind == UnitKind::Compile(c),
        action_of(i, u) == Ok::<ActionView, PlanFault>(a),
        c.transitive@.finite(),
        c.transitive@.contains(id),
    ensures
        i.completed.outputs@.contains_key(id),
        a.mounts.contains(("deps"@, i.completed.outputs@[id])),
{
    lemma_compile(i, c, a);
    let deps = dep_specs_view(c.deps@);
    let ids = ascending_of(c.transitive@);
    lemma_ascending_of(c.transitive@);
    assert(ids.contains(id));
    let k = choose|k: int| 0 <= k < ids.len() && ids[k] == id;
    if exists|x: int| 0 <= x < deps.len() && (#[trigger] deps[x]) is Rust && deps[x]->action == id {
        let x = choose|x: int|
            0 <= x < deps.len() && (#[trigger] deps[x]) is Rust && deps[x]->action == id;
        assert(deps[x] == c.deps@[x]@);
        direct_dependencies_are_named(i, u, c, a, x);
    } else {
        lemma_further_mounts(i, deps, ids, ids.len() as int, k);
        let more = further_mounts(i, deps, ids, ids.len() as int)->Ok_0;
        let tree = ("deps"@, i.completed.outputs@[id]);
        let y = choose|y: int| 0 <= y < more.len() && more[y] == tree;
        let mounts = direct_parts(i, deps, deps.len() as int)->Ok_0.0;
        let before: int = if own_output(i, c)->Ok_0 is Some {
            2
        } else {
            1
        };
        assert(a.mounts[before + mounts.len() + y] == tree);
    }
}

proof fn lemma_natives(i: ActionInputs<'_>, cc: Seq<(Seq<char>, Seq<char>)>, n: int)
    requires
        0 <= n <= cc.len(),
    ensures
        forall|k: int|
            #![trigger cc[k]]
            0 <= k < n ==> in_turn(
                native_args(i, cc, n),
                "-L"@,
                "native="@ + i.exec_root@ + "/in/cc/"@ + cc[k].0,
            ) && in_turn(native_args(i, cc, n), "-l"@, cc[k].1) && native_mounts(
                i,
                cc,
                n,
            ).contains(("cc/"@ + cc[k].0, i.natives@[cc[k].0])),
    decreases n,
{
    if n > 0 {
        lemma_natives(i, cc, n - 1);
        let a0 = native_args(i, cc, n - 1);
        let a1 = native_args(i, cc, n);
        let m0 = native_mounts(i, cc, n - 1);
        let m1 = native_mounts(i, cc, n);
        let path = "native="@ + i.exec_root@ + "/in/cc/"@ + cc[n - 1].0;
        let new = seq!["-L"@, path, "-l"@, cc[n - 1].1];
        assert(a1 =~= a0 + new);
        assert forall|k: int|
            #![trigger cc[k]]
            0 <= k < n implies in_turn(
            a1,
            "-L"@,
            "native="@ + i.exec_root@ + "/in/cc/"@ + cc[k].0,
        ) && in_turn(a1, "-l"@, cc[k].1) && m1.contains(
            ("cc/"@ + cc[k].0, i.natives@[cc[k].0]),
        ) by {
            let tree = ("cc/"@ + cc[k].0, i.natives@[cc[k].0]);
            if k < n - 1 {
                lemma_in_turn(a0, new, "-L"@, "native="@ + i.exec_root@ + "/in/cc/"@ + cc[k].0);
                lemma_in_turn(a0, new, "-l"@, cc[k].1);
                let x = choose|x: int| 0 <= x < m0.len() && m0[x] == tree;
                assert(m1[x] == tree);
            } else {
                let x = a0.len() as int;
                assert(a1[x] == "-L"@ && a1[x + 1] == path);
                assert(a1[x + 2] == "-l"@ && a1[x + 3] == cc[k].1);
                assert(m1[m0.len() as int] == tree);
            }
        }
    }
}

/// Each native import that a compilation links is mounted under its name, looked
/// for there, and linked by its link name.
pub proof fn native_imports_are_linked(
    i: ActionInputs<'_>,
    u: Unit,
    c: CompileUnit,
    a: ActionView,
    k: int,
)
    requires
        u.kind == UnitKind::Compile(c),
        action_of(i, u) == Ok::<ActionView, PlanFault>(a),
        0 <= k < c.cc@.len(),
    ensures
        in_turn(a.arguments, "-L"@, "native="@ + i.exec_root@ + "/in/cc/"@ + c.cc@[k].0@),
        in_turn(a.arguments, "-l"@, c.cc@[k].1@),
        a.mounts.contains(("cc/"@ + c.cc@[k].0@, i.natives@[c.cc@[k].0@])),
{
    lemma_compile(i, c, a);
    let deps = dep_specs_view(c.deps@);
    let first = direct_parts(i, deps, deps.len() as int)->Ok_0.1;
    lemma_begins_on(begun(i, c).args, heard(i, c).args, a.arguments);
    lemma_native_linked(i, c.cc@, first, a.arguments, a.mounts, k);
}

#[verifier::rlimit(40)]
proof fn lemma_native_linked(
    i: ActionInputs<'_>,
    list: Seq<(String, String)>,
    first: Seq<Seq<char>>,
    args: Seq<Seq<char>>,
    mounts: Seq<(Seq<char>, Digest)>,
    k: int,
)
    requires
        0 <= k < list.len(),
        begins(args, first + native_args(i, pairs_view(list), list.len() as int)),
        ends_with(mounts, native_mounts(i, pairs_view(list), list.len() as int)),
    ensures
        in_turn(args, "-L"@, "native="@ + i.exec_root@ + "/in/cc/"@ + list[k].0@),
        in_turn(args, "-l"@, list[k].1@),
        mounts.contains(("cc/"@ + list[k].0@, i.natives@[list[k].0@])),
{
    let cc = pairs_view(list);
    let n = cc.len() as int;
    assert(cc[k] == (list[k].0@, list[k].1@));
    lemma_natives(i, cc, n);
    let natives = native_args(i, cc, n);
    lemma_in_turn(first, natives, "-L"@, "native="@ + i.exec_root@ + "/in/cc/"@ + cc[k].0);
    lemma_in_turn(first, natives, "-l"@, cc[k].1);
    lemma_begins(first + natives, args);
    let m = native_mounts(i, cc, n);
    let tree = ("cc/"@ + cc[k].0, i.natives@[cc[k].0]);
    let x = choose|x: int| 0 <= x < m.len() && m[x] == tree;
    let at = mounts.len() - m.len();
    assert(mounts.skip(at)[x] == tree);
    assert(mounts[at + x] == tree);
}

/// A compilation runs rustc on its package's sources, writes one file, is cached,
/// and reaches nothing outside; what its package's script left is mounted beside
/// the sources.
pub proof fn compilations_are_sealed(i: ActionInputs<'_>, u: Unit, c: CompileUnit, a: ActionView)
    requires
        u.kind == UnitKind::Compile(c),
        action_of(i, u) == Ok::<ActionView, PlanFault>(a),
    ensures
        a.executable is Rustc,
        a.outputs.len() == 1,
        a.outputs[0] == c.output@,
        a.cached,
        a.network == NetworkPolicy::Deny,
        a.bundle == i.bundle,
        a.working_directory == "."@,
        a.platform == i.host_triple@,
        a.mounts[0] == ("."@, i.source_tree),
        c.build_script matches Some(run) ==> i.completed.outputs@.contains_key(run@)
            && a.mounts[1] == ("build_out"@, i.completed.outputs@[run@]),
{
    lemma_compile(i, c, a);
}

/// What rustc is told to compile: the crate's name and type, its edition and its
/// metadata, what it writes and where it finds dependencies, then all flags of the
/// profile, of the package and of its features, and the crate root last.
pub proof fn rustc_is_told_what_to_compile(
    i: ActionInputs<'_>,
    u: Unit,
    c: CompileUnit,
    a: ActionView,
)
    requires
        u.kind == UnitKind::Compile(c),
        action_of(i, u) == Ok::<ActionView, PlanFault>(a),
    ensures
        in_turn(a.arguments, "--crate-name"@, c.crate_name@),
        c.crate_type@ == "test"@ ==> a.arguments.contains("--test"@),
        c.crate_type@ != "test"@ ==> in_turn(a.arguments, "--crate-type"@, c.crate_type@),
        c.crate_type@ == "proc-macro"@ ==> in_turn(a.arguments, "--extern"@, "proc_macro"@),
        c.is_proc_macro && (c.role == Role::Test || c.role == Role::UnitTest) ==> in_turn(
            a.arguments,
            "--extern"@,
            "proc_macro"@,
        ),
        i.target matches Some(triple) ==> !c.host ==> in_turn(
            a.arguments,
            "--target"@,
            triple@,
        ),
        in_turn(
            a.arguments,
            "--edition"@,
            match c.edition {
                crate::model::Edition::E2015 => "2015"@,
                crate::model::Edition::E2018 => "2018"@,
                crate::model::Edition::E2021 => "2021"@,
                crate::model::Edition::E2024 => "2024"@,
            },
        ),
        exists|extra: Seq<char>| in_turn(
            a.arguments,
            "-C"@,
            "metadata="@ + c.meta@ + #[trigger] join_spec(seq![extra], ""@),
        ),
        in_turn(a.arguments, "-o"@, i.exec_root@ + "/out/"@ + c.output@),
        in_turn(a.arguments, "-L"@, "dependency="@ + i.exec_root@ + "/in/deps"@),
        forall|k: int|
            #![trigger c.profile_flags@[k]]
            0 <= k < c.profile_flags@.len() - 1 ==> in_turn(
                a.arguments,
                c.profile_flags@[k]@,
                c.profile_flags@[k + 1]@,
            ),
        forall|k: int|
            #![trigger c.extra_flags@[k]]
            0 <= k < c.extra_flags@.len() - 1 ==> in_turn(
                a.arguments,
                c.extra_flags@[k]@,
                c.extra_flags@[k + 1]@,
            ),
        c.extra_flags@.len() > 0 ==> a.arguments.contains(c.extra_flags@[0]@),
        forall|k: int|
            #![trigger c.feature_cfgs@[k]]
            0 <= k < c.feature_cfgs@.len() - 1 ==> in_turn(
                a.arguments,
                c.feature_cfgs@[k]@,
                c.feature_cfgs@[k + 1]@,
            ),
        a.arguments.len() > 0,
        a.arguments.last() == c.crate_root@,
{
    lemma_compile(i, c, a);
    lemma_rustc_args(
        i,
        c,
        heard(i, c).args + paired("--cfg"@, ""@, own_directives(i, c).cfgs),
        heard(i, c).extra,
        a.arguments,
    );
}

#[verifier::rlimit(60)]
proof fn lemma_rustc_args(
    i: ActionInputs<'_>,
    c: CompileUnit,
    head: Seq<Seq<char>>,
    more: Seq<Seq<char>>,
    args: Seq<Seq<char>>,
)
    requires
        args == head + rustc_args(i, c, more),
    ensures
        in_turn(args, "--crate-name"@, c.crate_name@),
        c.crate_type@ == "test"@ ==> args.contains("--test"@),
        c.crate_type@ != "test"@ ==> in_turn(args, "--crate-type"@, c.crate_type@),
        c.crate_type@ == "proc-macro"@ ==> in_turn(args, "--extern"@, "proc_macro"@),
        c.is_proc_macro && (c.role == Role::Test || c.role == Role::UnitTest) ==> in_turn(
            args,
            "--extern"@,
            "proc_macro"@,
        ),
        i.target matches Some(triple) ==> !c.host ==> in_turn(
            args,
            "--target"@,
            triple@,
        ),
        in_turn(
            args,
            "--edition"@,
            match c.edition {
                crate::model::Edition::E2015 => "2015"@,
                crate::model::Edition::E2018 => "2018"@,
                crate::model::Edition::E2021 => "2021"@,
                crate::model::Edition::E2024 => "2024"@,
            },
        ),
        exists|extra: Seq<char>| in_turn(
            args,
            "-C"@,
            "metadata="@ + c.meta@ + #[trigger] join_spec(seq![extra], ""@),
        ),
        in_turn(args, "-o"@, i.exec_root@ + "/out/"@ + c.output@),
        in_turn(args, "-L"@, "dependency="@ + i.exec_root@ + "/in/deps"@),
        forall|k: int|
            #![trigger c.profile_flags@[k]]
            0 <= k < c.profile_flags@.len() - 1 ==> in_turn(
                args,
                c.profile_flags@[k]@,
                c.profile_flags@[k + 1]@,
            ),
        forall|k: int|
            #![trigger c.extra_flags@[k]]
            0 <= k < c.extra_flags@.len() - 1 ==> in_turn(
                args,
                c.extra_flags@[k]@,
                c.extra_flags@[k + 1]@,
            ),
        c.extra_flags@.len() > 0 ==> args.contains(c.extra_flags@[0]@),
        forall|k: int|
            #![trigger c.feature_cfgs@[k]]
            0 <= k < c.feature_cfgs@.len() - 1 ==> in_turn(
                args,
                c.feature_cfgs@[k]@,
                c.feature_cfgs@[k + 1]@,
            ),
        args.len() > 0,
        args.last() == c.crate_root@,
{
    let h = head.len() as int;
    let extra = join_spec(more, ""@);
    let crate_list = crate_args(i, c);
    let n = crate_list.len() as int;
    let x = h + n;
    assert(args[h] == "--crate-name"@ && args[h + 1] == c.crate_name@);
    if c.crate_type@ == "test"@ {
        assert(args[h + 2] == "--test"@);
    } else {
        assert(args[h + 2] == "--crate-type"@ && args[h + 3] == c.crate_type@);
    }
    let kind: int = if c.crate_type@ == "test"@ {
        3
    } else {
        4
    };
    let macros = c.crate_type@ == "proc-macro"@ || (c.is_proc_macro && (c.role == Role::UnitTest
        || c.role == Role::Test));
    if macros {
        assert(args[h + kind] == "--extern"@ && args[h + kind + 1] == "proc_macro"@);
    }
    if i.target is Some && !c.host {
        let at = h + n - 2;
        assert(args[at] == "--target"@ && args[at + 1] == i.target->0@);
    }
    assert(args[x] == "--edition"@ && args[x + 1] == edition_text(c.edition));
    assert(args[x + 2] == "-C"@ && args[x + 3] == "metadata="@ + c.meta@ + extra);
    assert(join_spec(seq![extra], ""@) == extra);
    assert(in_turn(args, "-C"@, "metadata="@ + c.meta@ + join_spec(seq![extra], ""@)));
    let flags = texts(c.profile_flags@);
    let f = flags.len() as int;
    assert(f == c.profile_flags@.len());
    let y = x + 4 + f;
    assert(args[y] == "-o"@ && args[y + 1] == i.exec_root@ + "/out/"@ + c.output@);
    assert(args[y + 2] == "-L"@ && args[y + 3] == "dependency="@ + i.exec_root@ + "/in/deps"@);
    let own = texts(c.extra_flags@);
    let features = texts(c.feature_cfgs@);
    assert(own.len() == c.extra_flags@.len());
    assert(features.len() == c.feature_cfgs@.len());
    assert forall|k: int|
        #![trigger c.profile_flags@[k]]
        0 <= k < c.profile_flags@.len() - 1 implies in_turn(
        args,
        c.profile_flags@[k]@,
        c.profile_flags@[k + 1]@,
    ) by {
        assert(args[x + 4 + k] == flags[k]);
        assert(args[x + 4 + k + 1] == flags[k + 1]);
    }
    let z = y + 4;
    assert forall|k: int|
        #![trigger c.extra_flags@[k]]
        0 <= k < c.extra_flags@.len() - 1 implies in_turn(
        args,
        c.extra_flags@[k]@,
        c.extra_flags@[k + 1]@,
    ) by {
        assert(args[z + k] == own[k]);
        assert(args[z + k + 1] == own[k + 1]);
    }
    if c.extra_flags@.len() > 0 {
        assert(args[z] == own[0]);
    }
    let w = z + own.len();
    assert forall|k: int|
        #![trigger c.feature_cfgs@[k]]
        0 <= k < c.feature_cfgs@.len() - 1 implies in_turn(
        args,
        c.feature_cfgs@[k]@,
        c.feature_cfgs@[k + 1]@,
    ) by {
        assert(args[w + k] == features[k]);
        assert(args[w + k + 1] == features[k + 1]);
    }
}

/// What is compiled for the execution host is never told of a target, nor is anything
/// where none is set: between the crate's type and its edition there is none.
pub proof fn host_compilations_know_no_target(
    i: ActionInputs<'_>,
    u: Unit,
    c: CompileUnit,
    a: ActionView,
)
    requires
        u.kind == UnitKind::Compile(c),
        action_of(i, u) == Ok::<ActionView, PlanFault>(a),
        c.host || i.target is None,
        !c.is_proc_macro,
        c.crate_type@ != "proc-macro"@,
        c.crate_type@ != "test"@,
    ensures
        exists|k: int|
            0 <= k < a.arguments.len() - 4 && #[trigger] a.arguments[k] == "--crate-name"@
                && a.arguments[k + 1] == c.crate_name@ && a.arguments[k + 2] == "--crate-type"@
                && a.arguments[k + 3] == c.crate_type@ && a.arguments[k + 4] == "--edition"@,
{
    lemma_compile(i, c, a);
    let all = heard(i, c);
    let head = all.args + paired("--cfg"@, ""@, own_directives(i, c).cfgs);
    let h = head.len() as int;
    assert(a.arguments[h] == "--crate-name"@);
    assert(a.arguments[h + 4] == "--edition"@);
}

} // verus!
