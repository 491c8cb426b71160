//! Actions: a unit's arguments, environment and inputs, once the units it
//! depends on have completed.

use vstd::prelude::*;
use vstd::string::*;
use crate::digest::Digest;
use crate::directives::{
    directives_in, link_search_arg, no_directives, parse_directives, search_arg, Directives,
    DirectivesView,
};
use crate::model::{edition_text, env_view, Package};
use crate::plan::{
    pairs_view, CompileUnit, Role, ScriptRun, TestRun, Unit, UnitKind,
};
use crate::strmap::{StrMap, StrSet};
use crate::text::{
    cat, cat3, cat4, cat5, copy_texts, decimal, list_contains, opt_view, owned, push_all,
    push_string, push_text, replace_char, replace_spec, same, texts, to_chars, u64_text,
};
use crate::units::{dep_specs_view, DepSpec, DepSpecView, PlanError, PlanFault};
use crate::version::{semver_parsed, version_result, Version, VersionView, parsed_version};

verus! {

// ---- Directives ----------------------------------------------------------------------

/// Arguments and environment under construction, and what directives have been
/// applied already.
pub struct Applied {
    pub args: Seq<Seq<char>>,
    pub env: Map<Seq<char>, Seq<char>>,
    pub libs: Set<(Option<Seq<char>>, Seq<char>)>,
    pub searches: Set<Seq<char>>,
    pub flags: Set<Seq<char>>,
    pub extra: Seq<Seq<char>>,
}

/// A library is linked once, with its kind where it has one.
pub open spec fn with_libs(a: Applied, libs: Seq<(Option<Seq<char>>, Seq<char>)>, n: int) -> Applied
    decreases n,
{
    if n <= 0 {
        a
    } else {
        let b = with_libs(a, libs, n - 1);
        let (kind, lib) = libs[n - 1];
        if b.libs.contains((kind, lib)) {
            b
        } else {
            Applied {
                args: b.args.push("-l"@).push(
                    match kind {
                        Some(k) => k + "="@ + lib,
                        None => lib,
                    },
                ),
                libs: b.libs.insert((kind, lib)),
                ..b
            }
        }
    }
}

/// A search path is passed once.
pub open spec fn with_searches(a: Applied, exec_root: Seq<char>, searches: Seq<Seq<char>>, n: int) -> Applied
    decreases n,
{
    if n <= 0 {
        a
    } else {
        let b = with_searches(a, exec_root, searches, n - 1);
        let s = searches[n - 1];
        if b.searches.contains(s) {
            b
        } else {
            Applied {
                args: b.args.push("-L"@).push(search_arg(exec_root, s)),
                searches: b.searches.insert(s),
                ..b
            }
        }
    }
}

/// A raw flag is passed once.
pub open spec fn with_flags(a: Applied, flags: Seq<Seq<char>>, n: int) -> Applied
    decreases n,
{
    if n <= 0 {
        a
    } else {
        let b = with_flags(a, flags, n - 1);
        let f = flags[n - 1];
        if b.flags.contains(f) {
            b
        } else {
            Applied { args: b.args.push(f), flags: b.flags.insert(f), ..b }
        }
    }
}

/// Extra metadata counts once.
pub open spec fn with_extra(a: Applied, values: Seq<Seq<char>>, n: int) -> Applied
    decreases n,
{
    if n <= 0 {
        a
    } else {
        let b = with_extra(a, values, n - 1);
        if b.extra.contains(values[n - 1]) {
            b
        } else {
            Applied { extra: b.extra.push(values[n - 1]), ..b }
        }
    }
}

/// Later variables override earlier ones.
pub open spec fn with_env(
    env: Map<Seq<char>, Seq<char>>,
    pairs: Seq<(Seq<char>, Seq<char>)>,
    n: int,
) -> Map<Seq<char>, Seq<char>>
    decreases n,
{
    if n <= 0 {
        env
    } else {
        with_env(env, pairs, n - 1).insert(pairs[n - 1].0, pairs[n - 1].1)
    }
}

/// One pair of arguments per value.
pub open spec fn paired(flag: Seq<char>, prefix: Seq<char>, values: Seq<Seq<char>>) -> Seq<Seq<char>>
    decreases values.len(),
{
    if values.len() == 0 {
        Seq::empty()
    } else {
        paired(flag, prefix, values.drop_last()).push(flag).push(prefix + values.last())
    }
}

/// The link arguments of directives for a crate type and what it is for: only
/// targets that actually link take them, and some are for one kind of target.
pub open spec fn link_args_of(d: DirectivesView, crate_type: Seq<char>, role: Role) -> Seq<
    Seq<char>,
> {
    let links = crate_type == "bin"@ || crate_type == "test"@ || crate_type == "cdylib"@
        || crate_type == "staticlib"@;
    (if links {
        d.link_args
    } else {
        Seq::empty()
    }) + (match role {
        Role::Bin => d.link_arg_bins,
        Role::Script => d.link_arg_bins,
        Role::Example => d.link_arg_examples,
        Role::UnitTest => d.link_arg_tests,
        Role::Test => d.link_arg_tests,
        Role::Library => if crate_type == "cdylib"@ {
            d.cdylib_link_args
        } else {
            Seq::empty()
        },
    })
}

/// What a build script's directives add to a compilation.
pub open spec fn with_directives(
    a: Applied,
    exec_root: Seq<char>,
    d: DirectivesView,
    crate_type: Seq<char>,
    role: Role,
) -> Applied {
    let libs = with_libs(a, d.link_libs, d.link_libs.len() as int);
    let searches = with_searches(libs, exec_root, d.link_search, d.link_search.len() as int);
    let flags = with_flags(searches, d.raw_flags, d.raw_flags.len() as int);
    let args = flags.args + paired("-C"@, "link-arg="@, link_args_of(d, crate_type, role)) + paired(
        "--check-cfg"@,
        ""@,
        d.check_cfgs,
    );
    let extra = with_extra(Applied { args, ..flags }, d.extra_metadata, d.extra_metadata.len() as int);
    Applied { env: with_env(extra.env, d.env, d.env.len() as int), ..extra }
}

/// Arguments and environment under construction.
struct Applying {
    args: Vec<String>,
    env: StrMap<String>,
    libs: Vec<(Option<String>, String)>,
    searches: StrSet,
    flags: StrSet,
    extra: Vec<String>,
}

spec fn lib_set(v: Seq<(Option<String>, String)>) -> Set<(Option<Seq<char>>, Seq<char>)> {
    Set::new(
        |x: (Option<Seq<char>>, Seq<char>)|
            exists|k: int|
                0 <= k < v.len() && opt_view((#[trigger] v[k]).0) == x.0 && v[k].1@ == x.1,
    )
}

impl Applying {
    spec fn state(self) -> Applied {
        Applied {
            args: texts(self.args@),
            env: env_view(self.env@),
            libs: lib_set(self.libs@),
            searches: self.searches@,
            flags: self.flags@,
            extra: texts(self.extra@),
        }
    }
}

fn same_opt(a: &Option<String>, b: &Option<String>) -> (r: bool)
    ensures
        r == (opt_view(*a) == opt_view(*b)),
{
    match (a, b) {
        (Some(x), Some(y)) => same(x.as_str(), y.as_str()),
        (None, None) => true,
        _ => false,
    }
}

fn apply_libs(s: &mut Applying, libs: &Vec<(Option<String>, String)>)
    ensures
        final(s).state() == with_libs(
            old(s).state(),
            crate::directives::libs(libs@),
            libs@.len() as int,
        ),
{
    let ghost a = s.state();
    let ghost all = crate::directives::libs(libs@);
    let mut i: usize = 0;
    while i < libs.len()
        invariant
            i <= libs@.len(),
            all == crate::directives::libs(libs@),
            s.state() == with_libs(a, all, i as int),
        decreases libs@.len() - i,
    {
        let (kind, lib) = (&libs[i].0, &libs[i].1);
        assert(all[i as int] == (opt_view(*kind), lib@));
        let mut seen = false;
        let mut k: usize = 0;
        while k < s.libs.len()
            invariant
                k <= s.libs@.len(),
                seen == exists|x: int|
                    0 <= x < k && opt_view((#[trigger] s.libs@[x]).0) == opt_view(*kind)
                        && s.libs@[x].1@ == lib@,
            decreases s.libs@.len() - k,
        {
            if same_opt(&s.libs[k].0, kind) && same(s.libs[k].1.as_str(), lib.as_str()) {
                seen = true;
            }
            k += 1;
        }
        let ghost before = s.state();
        assert(seen == before.libs.contains((opt_view(*kind), lib@)));
        if !seen {
            let ghost libs_before = s.libs@;
            s.libs.push((crate::text::copy_opt(kind), lib.clone()));
            push_text(&mut s.args, "-l");
            match kind {
                Some(k) => push_string(&mut s.args, cat3(k.as_str(), "=", lib.as_str())),
                None => push_text(&mut s.args, lib.as_str()),
            }
            proof {
                let x = (opt_view(*kind), lib@);
                assert forall|y: (Option<Seq<char>>, Seq<char>)| lib_set(s.libs@).contains(y)
                    <==> before.libs.insert(x).contains(y) by {
                    if lib_set(libs_before).contains(y) {
                        let k = choose|k: int|
                            0 <= k < libs_before.len() && opt_view((#[trigger] libs_before[k]).0)
                                == y.0 && libs_before[k].1@ == y.1;
                        assert(s.libs@[k] == libs_before[k]);
                    }
                    if y == x {
                        let n = libs_before.len() as int;
                        assert(opt_view(s.libs@[n].0) == y.0 && s.libs@[n].1@ == y.1);
                    }
                    if lib_set(s.libs@).contains(y) && y != x {
                        let k = choose|k: int|
                            0 <= k < s.libs@.len() && opt_view((#[trigger] s.libs@[k]).0) == y.0
                                && s.libs@[k].1@ == y.1;
                        assert(k < libs_before.len());
                        assert(libs_before[k] == s.libs@[k]);
                    }
                }
                assert(s.state().libs =~= before.libs.insert(x));
            }
        }
        i += 1;
    }
}

fn apply_searches(s: &mut Applying, exec_root: &str, searches: &Vec<String>)
    ensures
        final(s).state() == with_searches(
            old(s).state(),
            exec_root@,
            texts(searches@),
            searches@.len() as int,
        ),
{
    let ghost a = s.state();
    let ghost all = texts(searches@);
    let mut i: usize = 0;
    while i < searches.len()
        invariant
            i <= searches@.len(),
            all == texts(searches@),
            s.state() == with_searches(a, exec_root@, all, i as int),
        decreases searches@.len() - i,
    {
        assert(all[i as int] == searches@[i as int]@);
        if s.searches.insert(searches[i].clone()) {
            push_text(&mut s.args, "-L");
            push_string(&mut s.args, link_search_arg(exec_root, searches[i].as_str()));
        } else {
            assert(s.searches@ =~= with_searches(a, exec_root@, all, i as int).searches);
        }
        i += 1;
    }
}

fn apply_flags(s: &mut Applying, flags: &Vec<String>)
    ensures
        final(s).state() == with_flags(old(s).state(), texts(flags@), flags@.len() as int),
{
    let ghost a = s.state();
    let ghost all = texts(flags@);
    let mut i: usize = 0;
    while i < flags.len()
        invariant
            i <= flags@.len(),
            all == texts(flags@),
            s.state() == with_flags(a, all, i as int),
        decreases flags@.len() - i,
    {
        assert(all[i as int] == flags@[i as int]@);
        if s.flags.insert(flags[i].clone()) {
            push_text(&mut s.args, flags[i].as_str());
        } else {
            assert(s.flags@ =~= with_flags(a, all, i as int).flags);
        }
        i += 1;
    }
}

fn apply_extra(s: &mut Applying, values: &Vec<String>)
    ensures
        final(s).state() == with_extra(old(s).state(), texts(values@), values@.len() as int),
{
    let ghost a = s.state();
    let ghost all = texts(values@);
    let mut i: usize = 0;
    while i < values.len()
        invariant
            i <= values@.len(),
            all == texts(values@),
            s.state() == with_extra(a, all, i as int),
        decreases values@.len() - i,
    {
        assert(all[i as int] == values@[i as int]@);
        if !list_contains(&s.extra, values[i].as_str()) {
            push_text(&mut s.extra, values[i].as_str());
        }
        i += 1;
    }
}

/// Sets a variable.
fn set_env(env: &mut StrMap<String>, key: String, value: String)
    ensures
        env_view(final(env)@) == env_view(old(env)@).insert(key@, value@),
{
    let ghost before = env@;
    env.insert(key, value);
    assert(env_view(env@) =~= env_view(before).insert(key@, value@));
}

fn apply_env(env: &mut StrMap<String>, pairs: &Vec<(String, String)>)
    ensures
        env_view(final(env)@) == with_env(
            env_view(old(env)@),
            pairs_view(pairs@),
            pairs@.len() as int,
        ),
{
    let ghost start = env_view(env@);
    let ghost all = pairs_view(pairs@);
    let mut i: usize = 0;
    while i < pairs.len()
        invariant
            i <= pairs@.len(),
            all == pairs_view(pairs@),
            env_view(env@) == with_env(start, all, i as int),
        decreases pairs@.len() - i,
    {
        assert(all[i as int] == (pairs@[i as int].0@, pairs@[i as int].1@));
        set_env(env, pairs[i].0.clone(), pairs[i].1.clone());
        i += 1;
    }
}

fn push_paired(args: &mut Vec<String>, flag: &str, prefix: &str, values: &Vec<String>)
    ensures
        texts(final(args)@) == texts(old(args)@) + paired(flag@, prefix@, texts(values@)),
{
    let ghost start = texts(args@);
    let ghost all = texts(values@);
    let mut i: usize = 0;
    assert(start =~= start + paired(flag@, prefix@, all.take(0)));
    while i < values.len()
        invariant
            i <= values@.len(),
            all == texts(values@),
            texts(args@) == start + paired(flag@, prefix@, all.take(i as int)),
        decreases values@.len() - i,
    {
        proof {
            let t = all.take(i as int + 1);
            assert(t.drop_last() =~= all.take(i as int));
            assert(t.last() == values@[i as int]@);
        }
        push_text(args, flag);
        push_string(args, cat(prefix, values[i].as_str()));
        i += 1;
        assert(texts(args@) =~= start + paired(flag@, prefix@, all.take(i as int)));
    }
    assert(all.take(all.len() as int) =~= all);
}

/// Applies a build script's directives to a compilation's arguments and
/// environment. Target-kind-specific link args apply per crate type; libraries,
/// searches, and raw flags are passed once. Environment pairs win over those of
/// scripts applied earlier.
fn apply_directives(
    s: &mut Applying,
    exec_root: &str,
    d: &Directives,
    crate_type: &str,
    role: Role,
)
    ensures
        final(s).state() == with_directives(old(s).state(), exec_root@, d@, crate_type@, role),
{
    let ghost a = s.state();
    apply_libs(s, &d.link_libs);
    apply_searches(s, exec_root, &d.link_search);
    apply_flags(s, &d.raw_flags);
    let ghost flagged = s.state();
    let links = same(crate_type, "bin") || same(crate_type, "test") || same(crate_type, "cdylib")
        || same(crate_type, "staticlib");
    let mut args: Vec<String> = Vec::new();
    assert(texts(args@) =~= Seq::<Seq<char>>::empty());
    if links {
        push_all(&mut args, &d.link_args);
        assert(texts(args@) =~= d@.link_args);
    }
    let ghost first = texts(args@);
    match role {
        Role::Bin => push_all(&mut args, &d.link_arg_bins),
        Role::Script => push_all(&mut args, &d.link_arg_bins),
        Role::Example => push_all(&mut args, &d.link_arg_examples),
        Role::UnitTest => push_all(&mut args, &d.link_arg_tests),
        Role::Test => push_all(&mut args, &d.link_arg_tests),
        Role::Library => {
            if same(crate_type, "cdylib") {
                push_all(&mut args, &d.cdylib_link_args);
            } else {
                assert(first =~= first + Seq::<Seq<char>>::empty());
            }
        },
    }
    assert(texts(args@) == link_args_of(d@, crate_type@, role));
    push_paired(&mut s.args, "-C", "link-arg=", &args);
    push_paired(&mut s.args, "--check-cfg", "", &d.check_cfgs);
    apply_extra(s, &d.extra_metadata);
    let ghost extra = s.state();
    apply_env(&mut s.env, &d.env);
    proof {
        let n = d@.link_libs.len();
        assert(crate::directives::pairs(d.env@) =~= pairs_view(d.env@));
        assert(d@.env.len() == d.env@.len());
        assert(d@.link_search.len() == d.link_search@.len());
        assert(d@.raw_flags.len() == d.raw_flags@.len());
        assert(d@.extra_metadata.len() == d.extra_metadata@.len());
    }
}

/// The own script's variables win over those of transitive ones, which are
/// applied earlier.
pub proof fn later_directives_win(
    a: Applied,
    exec_root: Seq<char>,
    d: DirectivesView,
    crate_type: Seq<char>,
    role: Role,
    k: int,
)
    requires
        0 <= k < d.env.len(),
        forall|j: int| k < j < d.env.len() ==> (#[trigger] d.env[j]).0 != d.env[k].0,
    ensures
        with_directives(a, exec_root, d, crate_type, role).env.contains_key(d.env[k].0),
        with_directives(a, exec_root, d, crate_type, role).env[d.env[k].0] == d.env[k].1,
{
    let libs = with_libs(a, d.link_libs, d.link_libs.len() as int);
    let searches = with_searches(libs, exec_root, d.link_search, d.link_search.len() as int);
    let flags = with_flags(searches, d.raw_flags, d.raw_flags.len() as int);
    let args = flags.args + paired("-C"@, "link-arg="@, link_args_of(d, crate_type, role)) + paired(
        "--check-cfg"@,
        ""@,
        d.check_cfgs,
    );
    let extra = with_extra(Applied { args, ..flags }, d.extra_metadata, d.extra_metadata.len() as int);
    lemma_env_last(extra.env, d.env, d.env.len() as int, k);
}

proof fn lemma_env_last(
    env: Map<Seq<char>, Seq<char>>,
    pairs: Seq<(Seq<char>, Seq<char>)>,
    n: int,
    k: int,
)
    requires
        0 <= k < n <= pairs.len(),
        forall|j: int| k < j < n ==> (#[trigger] pairs[j]).0 != pairs[k].0,
    ensures
        with_env(env, pairs, n).contains_key(pairs[k].0),
        with_env(env, pairs, n)[pairs[k].0] == pairs[k].1,
    decreases n,
{
    if k < n - 1 {
        lemma_env_last(env, pairs, n - 1, k);
        assert(pairs[n - 1].0 != pairs[k].0);
    }
}

// ---- Actions ---------------------------------------------------------------------------

/// What completed units have left.
pub struct Completed {
    /// The output tree of each unit.
    pub outputs: StrMap<Digest>,
    /// The standard output of each unit that has any, as text.
    pub stdout: StrMap<String>,
}

/// What an action runs.
#[derive(Clone, Debug)]
pub enum Executable {
    /// The compiler.
    Rustc,
    /// A file in a tree.
    TreeFile {
        /// The tree.
        tree: Digest,
        /// Path in the tree.
        path: String,
    },
}

/// What an executable is.
pub enum ExecutableView {
    Rustc,
    TreeFile { tree: Digest, path: Seq<char> },
}

impl View for Executable {
    type V = ExecutableView;

    open spec fn view(&self) -> ExecutableView {
        match *self {
            Executable::Rustc => ExecutableView::Rustc,
            Executable::TreeFile { tree, path } => ExecutableView::TreeFile { tree, path: path@ },
        }
    }
}

/// What an action may reach.
#[derive(Clone, Copy, PartialEq, Eq, Structural, Debug)]
pub enum NetworkPolicy {
    /// Nothing.
    Deny,
    /// The network.
    Allow,
}

/// An action, ready to run.
#[derive(Debug)]
pub struct Action {
    /// What it runs.
    pub executable: Executable,
    /// Arguments.
    pub arguments: Vec<String>,
    /// Environment.
    pub environment: StrMap<String>,
    /// The trees that make up the input root, and where.
    pub mounts: Vec<(String, Digest)>,
    /// Output files.
    pub outputs: Vec<String>,
    /// Whether the result may be cached.
    pub cached: bool,
    /// What it may reach: no action reaches the network.
    pub network: NetworkPolicy,
    /// The environment bundle that it runs with.
    pub bundle: Digest,
    /// The directory that it runs in, in the input root.
    pub working_directory: String,
    /// The triple of the host that it runs on.
    pub platform: String,
    /// Warnings of the build script, for the user.
    pub warnings: Vec<String>,
}

/// What an action is.
pub struct ActionView {
    pub executable: ExecutableView,
    pub arguments: Seq<Seq<char>>,
    pub environment: Map<Seq<char>, Seq<char>>,
    pub mounts: Seq<(Seq<char>, Digest)>,
    pub outputs: Seq<Seq<char>>,
    pub cached: bool,
    pub network: NetworkPolicy,
    pub bundle: Digest,
    pub working_directory: Seq<char>,
    pub platform: Seq<char>,
    pub warnings: Seq<Seq<char>>,
}

/// What mounts are.
pub open spec fn mounts_view(v: Seq<(String, Digest)>) -> Seq<(Seq<char>, Digest)> {
    v.map_values(|m: (String, Digest)| (m.0@, m.1))
}

impl View for Action {
    type V = ActionView;

    open spec fn view(&self) -> ActionView {
        ActionView {
            executable: self.executable@,
            arguments: texts(self.arguments@),
            environment: env_view(self.environment@),
            mounts: mounts_view(self.mounts@),
            outputs: texts(self.outputs@),
            cached: self.cached,
            network: self.network,
            bundle: self.bundle,
            working_directory: self.working_directory@,
            platform: self.platform@,
            warnings: texts(self.warnings@),
        }
    }
}

/// What an action depends on besides its unit.
pub struct ActionInputs<'a> {
    /// How arguments and variables name the root that an action runs in.
    pub exec_root: &'a str,
    /// The package's source tree.
    pub source_tree: Digest,
    /// The package.
    pub package: &'a Package,
    /// Workspace-wide environment.
    pub global_env: &'a StrMap<String>,
    /// Environment that the script's run depends on, besides the package's own.
    pub run_env: &'a StrMap<String>,
    /// The tree of each native import.
    pub natives: &'a StrMap<Digest>,
    /// Completed units.
    pub completed: &'a Completed,
    /// The rustc host triple.
    pub host_triple: &'a str,
    /// The triple that is built for, where one is set; else the host's.
    pub target: Option<&'a str>,
    /// The toolchain's environment bundle.
    pub bundle: Digest,
    /// Optimization level.
    pub opt_level: &'a str,
    /// Whether debug info is on.
    pub debug: bool,
    /// The name of the profile.
    pub profile: &'a str,
    /// The path of rustc.
    pub rustc_path: &'a str,
    /// The path of the running program.
    pub program_path: &'a str,
    /// `CARGO_CFG_*` values of the target.
    pub cfgs: &'a Vec<(String, String)>,
    /// `CARGO_CFG_*` values of the host.
    pub host_cfgs: &'a Vec<(String, String)>,
}

/// One environment over another.
pub open spec fn over(
    base: Map<Seq<char>, Seq<char>>,
    top: Map<Seq<char>, Seq<char>>,
) -> Map<Seq<char>, Seq<char>> {
    base.union_prefer_right(top)
}

/// Lays one environment over another.
fn extend_env(env: &mut StrMap<String>, top: &StrMap<String>)
    ensures
        env_view(final(env)@) == over(env_view(old(env)@), env_view(top@)),
{
    let ghost base = env_view(env@);
    let n = top.len();
    let mut i: usize = 0;
    while i < n
        invariant
            i <= n,
            n == top.keys().len(),
            n == top.values().len(),
            top.keys().no_duplicates(),
            forall|k: Seq<char>| #[trigger]
                env_view(env@).contains_key(k) <==> base.contains_key(k) || exists|j: int|
                    0 <= j < i && #[trigger] top.keys()[j] == k,
            forall|j: int|
                0 <= j < i ==> env_view(env@)[#[trigger] top.keys()[j]] == top.values()[j]@,
            forall|k: Seq<char>|
                base.contains_key(k) && !(exists|j: int|
                    0 <= j < i && #[trigger] top.keys()[j] == k) ==> #[trigger] env_view(env@)[k]
                    == base[k],
        decreases n - i,
    {
        let ghost before = env_view(env@);
        let ghost key = top.keys()[i as int];
        set_env(env, top.key(i).clone(), top.value(i).clone());
        proof {
            let now = env_view(env@);
            assert(now == before.insert(key, top.values()[i as int]@));
            assert forall|k: Seq<char>| #[trigger]
                now.contains_key(k) <==> base.contains_key(k) || exists|j: int|
                0 <= j < i + 1 && #[trigger] top.keys()[j] == k by {
                if before.contains_key(k) && !base.contains_key(k) {
                    let j = choose|j: int| 0 <= j < i && #[trigger] top.keys()[j] == k;
                    assert(0 <= j < i + 1 && top.keys()[j] == k);
                }
                if now.contains_key(k) && !before.contains_key(k) {
                    assert(top.keys()[i as int] == k);
                }
            }
            assert forall|j: int| 0 <= j < i + 1 implies now[#[trigger] top.keys()[j]]
                == top.values()[j]@ by {
                if j < i {
                    assert(top.keys()[j] != top.keys()[i as int]);
                }
            }
            assert forall|k: Seq<char>|
                base.contains_key(k) && !(exists|j: int|
                    0 <= j < i + 1 && #[trigger] top.keys()[j] == k) implies #[trigger] now[k]
                == base[k] by {
                assert(top.keys()[i as int] == key);
                assert(k != key);
                assert(!(exists|j: int| 0 <= j < i && #[trigger] top.keys()[j] == k)) by {
                    if exists|j: int| 0 <= j < i && #[trigger] top.keys()[j] == k {
                        let j = choose|j: int| 0 <= j < i && #[trigger] top.keys()[j] == k;
                        assert(0 <= j < i + 1 && top.keys()[j] == k);
                    }
                }
                assert(before[k] == base[k]);
            }
        }
        i += 1;
    }
    proof {
        let now = env_view(env@);
        let want = over(base, env_view(top@));
        assert(now.dom() =~= want.dom());
        assert forall|k: Seq<char>| want.dom().contains(k) implies now[k] == want[k] by {
            if top@.contains_key(k) {
                let j = choose|j: int| 0 <= j < top.keys().len() && top.keys()[j] == k;
                assert(now[top.keys()[j]] == top.values()[j]@);
                assert(top@.contains_key(top.keys()[j]));
            } else {
                assert forall|j: int| 0 <= j < n implies #[trigger] top.keys()[j] != k by {
                    assert(top@.contains_key(top.keys()[j]));
                }
            }
        }
        assert(now =~= want);
    }
}

/// The `CARGO_PKG_VERSION_*` variables of a version.
pub open spec fn version_vars(parsed: Result<VersionView, Seq<char>>) -> Seq<
    (Seq<char>, Seq<char>),
> {
    match parsed {
        Ok(v) => seq![
            ("CARGO_PKG_VERSION_MAJOR"@, decimal(v.major as nat)),
            ("CARGO_PKG_VERSION_MINOR"@, decimal(v.minor as nat)),
            ("CARGO_PKG_VERSION_PATCH"@, decimal(v.patch as nat)),
            ("CARGO_PKG_VERSION_PRE"@, v.pre),
        ],
        Err(_) => Seq::empty(),
    }
}

/// Lists the `CARGO_PKG_VERSION_*` variables (crates use them at compile time);
/// none where the version cannot be read.
pub fn version_env(parsed: Result<Version, String>) -> (r: Vec<(String, String)>)
    ensures
        pairs_view(r@) == version_vars(version_result(parsed)),
{
    let mut out: Vec<(String, String)> = Vec::new();
    if let Ok(v) = parsed {
        out.push((owned("CARGO_PKG_VERSION_MAJOR"), u64_text(v.major)));
        out.push((owned("CARGO_PKG_VERSION_MINOR"), u64_text(v.minor)));
        out.push((owned("CARGO_PKG_VERSION_PATCH"), u64_text(v.patch)));
        out.push((owned("CARGO_PKG_VERSION_PRE"), v.pre));
    }
    assert(pairs_view(out@) =~= version_vars(version_result(parsed)));
    out
}

/// The variables that tell of a package and its manifest.
pub open spec fn package_vars(i: ActionInputs<'_>) -> Seq<(Seq<char>, Seq<char>)> {
    let vars = seq![
        ("CARGO_PKG_NAME"@, i.package.name@),
        ("CARGO_PKG_VERSION"@, i.package.version@),
        ("CARGO_MANIFEST_DIR"@, i.exec_root@ + "/in"@),
        ("CARGO_MANIFEST_PATH"@, i.exec_root@ + "/in/Cargo.toml"@),
    ];
    match i.package.links {
        Some(links) => vars.push(("CARGO_MANIFEST_LINKS"@, links@)),
        None => vars,
    }
}

fn list_package_vars(i: &ActionInputs<'_>) -> (r: Vec<(String, String)>)
    ensures
        pairs_view(r@) == package_vars(*i),
{
    let mut out: Vec<(String, String)> = Vec::new();
    out.push((owned("CARGO_PKG_NAME"), i.package.name.clone()));
    out.push((owned("CARGO_PKG_VERSION"), i.package.version.clone()));
    out.push((owned("CARGO_MANIFEST_DIR"), cat(i.exec_root, "/in")));
    out.push((owned("CARGO_MANIFEST_PATH"), cat(i.exec_root, "/in/Cargo.toml")));
    if let Some(links) = &i.package.links {
        out.push((owned("CARGO_MANIFEST_LINKS"), links.clone()));
    }
    assert(pairs_view(out@) =~= package_vars(*i));
    out
}

/// The environment of every unit of a package: the workspace's, the package's
/// own over it, and what tells of the package and its version on top.
pub open spec fn package_env(i: ActionInputs<'_>) -> Map<Seq<char>, Seq<char>> {
    let own = package_vars(i);
    let vars = version_vars(parsed_version(semver_parsed(i.package.version@)));
    with_env(
        with_env(
            over(env_view(i.global_env@), env_view(i.package.env@)),
            own,
            own.len() as int,
        ),
        vars,
        vars.len() as int,
    )
}

fn make_package_env(i: &ActionInputs<'_>) -> (r: StrMap<String>)
    ensures
        env_view(r@) == package_env(*i),
{
    let mut env: StrMap<String> = StrMap::new();
    assert(env_view(env@) =~= Map::<Seq<char>, Seq<char>>::empty());
    extend_env(&mut env, i.global_env);
    assert(env_view(env@) =~= env_view(i.global_env@));
    extend_env(&mut env, &i.package.env);
    let own = list_package_vars(i);
    assert(pairs_view(own@).len() == own@.len());
    apply_env(&mut env, &own);
    let vars = version_env(Version::parse(i.package.version.as_str()));
    assert(pairs_view(vars@).len() == vars@.len());
    apply_env(&mut env, &vars);
    env
}

/// An ASCII letter in upper case.
pub open spec fn upper(c: char) -> char {
    if 97 <= c as int <= 122 {
        (c as int - 32) as char
    } else {
        c
    }
}

/// A text with its ASCII letters in upper case.
pub open spec fn upper_text(s: Seq<char>) -> Seq<char> {
    s.map_values(|c: char| upper(c))
}

fn upper_char(c: char) -> (r: char)
    ensures
        r == upper(c),
{
    let n: u32 = c as u32;
    if 97 <= n && n <= 122 {
        let b: u8 = (n - 32) as u8;
        b as char
    } else {
        c
    }
}

fn to_upper(s: &str) -> (r: String)
    ensures
        r@ == upper_text(s@),
{
    let v = to_chars(s);
    let mut out = String::new();
    let mut i: usize = 0;
    proof {
        reveal_strlit("");
        assert(out@ =~= upper_text(s@).take(0));
    }
    while i < v.len()
        invariant
            i <= v@.len(),
            v@ == s@,
            out@ == upper_text(s@).take(i as int),
        decreases v@.len() - i,
    {
        out.push(upper_char(v[i]));
        i += 1;
        assert(out@ =~= upper_text(s@).take(i as int));
    }
    assert(upper_text(s@).take(s@.len() as int) =~= upper_text(s@));
    out
}

/// A text as part of a variable's name.
pub open spec fn variable_text(s: Seq<char>) -> Seq<char> {
    replace_spec(upper_text(s), '-', '_')
}

fn to_variable(s: &str) -> (r: String)
    ensures
        r@ == variable_text(s@),
{
    replace_char(to_upper(s).as_str(), '-', '_')
}

/// The variables that tell a build script of the first `n` cfg values.
pub open spec fn with_cfgs(
    env: Map<Seq<char>, Seq<char>>,
    cfgs: Seq<(Seq<char>, Seq<char>)>,
    n: int,
) -> Map<Seq<char>, Seq<char>>
    decreases n,
{
    if n <= 0 {
        env
    } else {
        with_cfgs(env, cfgs, n - 1).insert(
            "CARGO_CFG_"@ + upper_text(cfgs[n - 1].0),
            cfgs[n - 1].1,
        )
    }
}

/// The variables that tell a build script of the first `n` features.
pub open spec fn with_features(env: Map<Seq<char>, Seq<char>>, features: Seq<Seq<char>>, n: int) -> Map<
    Seq<char>,
    Seq<char>,
>
    decreases n,
{
    if n <= 0 {
        env
    } else {
        with_features(env, features, n - 1).insert(
            "CARGO_FEATURE_"@ + variable_text(features[n - 1]),
            "1"@,
        )
    }
}

/// The metadata of a dependency's build script, as the dependents' scripts see
/// it: `DEP_<LINKS>_<KEY>`.
pub open spec fn with_metadata(
    env: Map<Seq<char>, Seq<char>>,
    links: Seq<char>,
    metadata: Seq<(Seq<char>, Seq<char>)>,
    n: int,
) -> Map<Seq<char>, Seq<char>>
    decreases n,
{
    if n <= 0 {
        env
    } else {
        with_metadata(env, links, metadata, n - 1).insert(
            "DEP_"@ + variable_text(links) + "_"@ + variable_text(metadata[n - 1].0),
            metadata[n - 1].1,
        )
    }
}

/// The metadata of the first `n` of these dependencies' build scripts.
pub open spec fn with_links(
    env: Map<Seq<char>, Seq<char>>,
    links: Seq<(Seq<char>, Seq<char>)>,
    completed: Completed,
    n: int,
) -> Map<Seq<char>, Seq<char>>
    decreases n,
{
    if n <= 0 {
        env
    } else {
        let before = with_links(env, links, completed, n - 1);
        let (name, run) = links[n - 1];
        if completed.stdout@.contains_key(run) {
            let metadata = directives_in(completed.stdout@[run]@).metadata;
            with_metadata(before, name, metadata, metadata.len() as int)
        } else {
            before
        }
    }
}

fn set_metadata(env: &mut StrMap<String>, links: &str, metadata: &Vec<(String, String)>)
    ensures
        env_view(final(env)@) == with_metadata(
            env_view(old(env)@),
            links@,
            pairs_view(metadata@),
            metadata@.len() as int,
        ),
{
    let ghost start = env_view(env@);
    let ghost all = pairs_view(metadata@);
    let mut i: usize = 0;
    while i < metadata.len()
        invariant
            i <= metadata@.len(),
            all == pairs_view(metadata@),
            env_view(env@) == with_metadata(start, links@, all, i as int),
        decreases metadata@.len() - i,
    {
        assert(all[i as int] == (metadata@[i as int].0@, metadata@[i as int].1@));
        let key = cat4(
            "DEP_",
            to_variable(links).as_str(),
            "_",
            to_variable(metadata[i].0.as_str()).as_str(),
        );
        set_env(env, key, metadata[i].1.clone());
        i += 1;
    }
}

fn set_links(env: &mut StrMap<String>, links: &Vec<(String, String)>, completed: &Completed)
    ensures
        env_view(final(env)@) == with_links(
            env_view(old(env)@),
            pairs_view(links@),
            *completed,
            links@.len() as int,
        ),
{
    let ghost start = env_view(env@);
    let ghost all = pairs_view(links@);
    let mut i: usize = 0;
    while i < links.len()
        invariant
            i <= links@.len(),
            all == pairs_view(links@),
            env_view(env@) == with_links(start, all, *completed, i as int),
        decreases links@.len() - i,
    {
        assert(all[i as int] == (links@[i as int].0@, links@[i as int].1@));
        if let Some(stdout) = completed.stdout.get(links[i].1.as_str()) {
            let d = parse_directives(stdout.as_str());
            proof {
                assert(crate::directives::pairs(d.metadata@) =~= pairs_view(d.metadata@));
                assert(d@.metadata.len() == d.metadata@.len());
            }
            set_metadata(env, links[i].0.as_str(), &d.metadata);
        }
        i += 1;
    }
}

/// The variables that every build script finds.
pub open spec fn script_vars(i: ActionInputs<'_>, host: bool) -> Seq<(Seq<char>, Seq<char>)> {
    seq![
        ("OUT_DIR"@, i.exec_root@ + "/out"@),
        ("TARGET"@, target_of(i, host)),
        ("HOST"@, i.host_triple@),
        ("OPT_LEVEL"@, i.opt_level@),
        (
            "DEBUG"@,
            if i.debug {
                "true"@
            } else {
                "false"@
            },
        ),
        ("PROFILE"@, i.profile@),
        ("NUM_JOBS"@, "1"@),
        ("RUSTC"@, i.rustc_path@),
        ("CARGO"@, i.program_path@),
    ] + package_vars(i)
}

/// The triple that a build script's package is compiled for.
pub open spec fn target_of(i: ActionInputs<'_>, host: bool) -> Seq<char> {
    match i.target {
        Some(triple) => if host {
            i.host_triple@
        } else {
            triple@
        },
        None => i.host_triple@,
    }
}

fn list_script_vars(i: &ActionInputs<'_>, host: bool) -> (r: Vec<(String, String)>)
    ensures
        pairs_view(r@) == script_vars(*i, host),
{
    let mut out: Vec<(String, String)> = Vec::new();
    out.push((owned("OUT_DIR"), cat(i.exec_root, "/out")));
    let target = match i.target {
        Some(triple) => if host {
            i.host_triple
        } else {
            triple
        },
        None => i.host_triple,
    };
    out.push((owned("TARGET"), owned(target)));
    out.push((owned("HOST"), owned(i.host_triple)));
    out.push((owned("OPT_LEVEL"), owned(i.opt_level)));
    out.push(
        (
            owned("DEBUG"),
            owned(
                if i.debug {
                    "true"
                } else {
                    "false"
                },
            ),
        ),
    );
    out.push((owned("PROFILE"), owned(i.profile)));
    out.push((owned("NUM_JOBS"), owned("1")));
    out.push((owned("RUSTC"), owned(i.rustc_path)));
    out.push((owned("CARGO"), owned(i.program_path)));
    out.push((owned("CARGO_PKG_NAME"), i.package.name.clone()));
    out.push((owned("CARGO_PKG_VERSION"), i.package.version.clone()));
    out.push((owned("CARGO_MANIFEST_DIR"), cat(i.exec_root, "/in")));
    out.push((owned("CARGO_MANIFEST_PATH"), cat(i.exec_root, "/in/Cargo.toml")));
    if let Some(links) = &i.package.links {
        out.push((owned("CARGO_MANIFEST_LINKS"), links.clone()));
    }
    assert(pairs_view(out@) =~= script_vars(*i, host));
    out
}

/// The `CARGO_CFG_*` values of what a build script's package is compiled for.
pub open spec fn cfgs_for(i: ActionInputs<'_>, host: bool) -> Seq<(Seq<char>, Seq<char>)> {
    if host {
        pairs_view(i.host_cfgs@)
    } else {
        pairs_view(i.cfgs@)
    }
}

/// The environment that a build script runs in.
pub open spec fn script_env(i: ActionInputs<'_>, run: ScriptRun) -> Map<Seq<char>, Seq<char>> {
    let base = over(package_env(i), env_view(i.run_env@));
    let own = script_vars(i, run.host);
    let all = cfgs_for(i, run.host);
    let vars = with_env(base, own, own.len() as int);
    let cfgs = with_cfgs(vars, all, all.len() as int);
    let features = with_features(cfgs, texts(run.features@), run.features@.len() as int);
    let version = version_vars(parsed_version(semver_parsed(i.package.version@)));
    with_links(
        with_env(features, version, version.len() as int),
        pairs_view(run.links@),
        *i.completed,
        run.links@.len() as int,
    )
}

fn make_script_env(i: &ActionInputs<'_>, run: &ScriptRun) -> (r: StrMap<String>)
    ensures
        env_view(r@) == script_env(*i, *run),
{
    let mut env = make_package_env(i);
    extend_env(&mut env, i.run_env);
    let vars = list_script_vars(i, run.host);
    assert(pairs_view(vars@).len() == vars@.len());
    apply_env(&mut env, &vars);
    let ghost cfg_base = env_view(env@);
    let values = if run.host {
        i.host_cfgs
    } else {
        i.cfgs
    };
    let ghost all = pairs_view(values@);
    assert(all == cfgs_for(*i, run.host));
    let mut k: usize = 0;
    while k < values.len()
        invariant
            k <= values@.len(),
            all == pairs_view(values@),
            env_view(env@) == with_cfgs(cfg_base, all, k as int),
        decreases values@.len() - k,
    {
        assert(all[k as int] == (values@[k as int].0@, values@[k as int].1@));
        let key = cat("CARGO_CFG_", to_upper(values[k].0.as_str()).as_str());
        set_env(&mut env, key, values[k].1.clone());
        k += 1;
    }
    let ghost feature_base = env_view(env@);
    let ghost features = texts(run.features@);
    k = 0;
    while k < run.features.len()
        invariant
            k <= run.features@.len(),
            features == texts(run.features@),
            env_view(env@) == with_features(feature_base, features, k as int),
        decreases run.features@.len() - k,
    {
        assert(features[k as int] == run.features@[k as int]@);
        let key = cat("CARGO_FEATURE_", to_variable(run.features[k].as_str()).as_str());
        set_env(&mut env, key, owned("1"));
        k += 1;
    }
    let version = version_env(Version::parse(i.package.version.as_str()));
    assert(pairs_view(version@).len() == version@.len());
    apply_env(&mut env, &version);
    set_links(&mut env, &run.links, i.completed);
    env
}

/// Appends a mount.
fn push_mount(out: &mut Vec<(String, Digest)>, path: &str, tree: Digest)
    ensures
        mounts_view(final(out)@) == mounts_view(old(out)@).push((path@, tree)),
{
    let ghost before = out@;
    out.push((owned(path), tree));
    assert(mounts_view(out@) =~= mounts_view(before).push((path@, tree)));
}

/// The output tree of a unit.
pub open spec fn output_tree(completed: Completed, id: Seq<char>) -> Result<Digest, PlanFault> {
    if completed.outputs@.contains_key(id) {
        Ok(completed.outputs@[id])
    } else {
        Err(PlanFault::MissingDependency(id))
    }
}

fn find_output(completed: &Completed, id: &str) -> (r: Result<Digest, PlanError>)
    ensures
        (match r {
            Ok(d) => Ok::<Digest, PlanFault>(d),
            Err(e) => Err(e@),
        }) == output_tree(*completed, id@),
{
    match completed.outputs.get(id) {
        Some(tree) => Ok(*tree),
        None => Err(PlanError::MissingDependency(owned(id))),
    }
}

/// The action that runs a build script.
pub open spec fn script_action(i: ActionInputs<'_>, run: ScriptRun) -> Result<ActionView, PlanFault> {
    match output_tree(*i.completed, run.compile@) {
        Err(fault) => Err(fault),
        Ok(tree) => Ok(
            ActionView {
                executable: ExecutableView::TreeFile { tree, path: run.binary@ },
                arguments: Seq::empty(),
                environment: script_env(i, run),
                mounts: seq![("."@, i.source_tree), ("."@, tree)],
                outputs: Seq::empty(),
                cached: true,
                network: NetworkPolicy::Deny,
                bundle: i.bundle,
                working_directory: "."@,
                platform: i.host_triple@,
                warnings: Seq::empty(),
            },
        ),
    }
}

/// The variables that tell where the first `n` of these binaries are.
pub open spec fn bin_vars(
    i: ActionInputs<'_>,
    bins: Seq<(Seq<char>, Seq<char>)>,
    n: int,
) -> Seq<(Seq<char>, Seq<char>)>
    decreases n,
{
    if n <= 0 {
        Seq::empty()
    } else {
        bin_vars(i, bins, n - 1).push(
            ("CARGO_BIN_EXE_"@ + bins[n - 1].0, i.exec_root@ + "/in/bins/"@ + bins[n - 1].0),
        )
    }
}

/// The environment of a unit that finds these binaries.
pub open spec fn unit_env(i: ActionInputs<'_>, bins: Seq<(Seq<char>, Seq<char>)>) -> Map<
    Seq<char>,
    Seq<char>,
> {
    let vars = bin_vars(i, bins, bins.len() as int);
    with_env(package_env(i), vars, vars.len() as int)
}

/// The mounts of the first `n` of these binaries.
pub open spec fn bin_mounts(
    i: ActionInputs<'_>,
    bins: Seq<(Seq<char>, Seq<char>)>,
    n: int,
) -> Result<Seq<(Seq<char>, Digest)>, PlanFault>
    decreases n,
{
    if n <= 0 {
        Ok(Seq::empty())
    } else {
        match bin_mounts(i, bins, n - 1) {
            Err(fault) => Err(fault),
            Ok(before) => match output_tree(*i.completed, bins[n - 1].1) {
                Ok(tree) => Ok(before.push(("bins"@, tree))),
                Err(fault) => Err(fault),
            },
        }
    }
}

fn make_unit_env(i: &ActionInputs<'_>, bins: &Vec<(String, String)>) -> (r: StrMap<String>)
    ensures
        env_view(r@) == unit_env(*i, pairs_view(bins@)),
{
    let ghost all = pairs_view(bins@);
    let mut vars: Vec<(String, String)> = Vec::new();
    assert(pairs_view(vars@) =~= Seq::<(Seq<char>, Seq<char>)>::empty());
    let mut k: usize = 0;
    while k < bins.len()
        invariant
            k <= bins@.len(),
            all == pairs_view(bins@),
            pairs_view(vars@) == bin_vars(*i, all, k as int),
        decreases bins@.len() - k,
    {
        let ghost before = vars@;
        assert(all[k as int] == (bins@[k as int].0@, bins@[k as int].1@));
        let name = bins[k].0.as_str();
        let key = cat("CARGO_BIN_EXE_", name);
        let value = cat3(i.exec_root, "/in/bins/", name);
        vars.push((key, value));
        assert(pairs_view(vars@) =~= pairs_view(before).push((key@, value@)));
        k += 1;
    }
    assert(all.len() == bins@.len());
    let mut env = make_package_env(i);
    assert(pairs_view(vars@).len() == vars@.len());
    apply_env(&mut env, &vars);
    env
}

proof fn lemma_bin_fault(
    i: ActionInputs<'_>,
    bins: Seq<(Seq<char>, Seq<char>)>,
    a: int,
    b: int,
)
    requires
        a <= b,
        bin_mounts(i, bins, a) is Err,
    ensures
        bin_mounts(i, bins, b) == bin_mounts(i, bins, a),
    decreases b,
{
    if a < b {
        lemma_bin_fault(i, bins, a, b - 1);
    }
}

/// Adds the mounts of the binaries that a unit finds.
fn add_bins(
    i: &ActionInputs<'_>,
    bins: &Vec<(String, String)>,
    mounts: &mut Vec<(String, Digest)>,
) -> (r: Option<PlanError>)
    ensures
        match bin_mounts(*i, pairs_view(bins@), bins@.len() as int) {
            Ok(m) => r is None && mounts_view(final(mounts)@) == mounts_view(old(mounts)@) + m,
            Err(fault) => r is Some && r->0@ == fault,
        },
{
    let ghost all = pairs_view(bins@);
    let ghost m0 = mounts_view(mounts@);
    let mut k: usize = 0;
    assert(m0 =~= m0 + Seq::<(Seq<char>, Digest)>::empty());
    while k < bins.len()
        invariant
            k <= bins@.len(),
            all == pairs_view(bins@),
            bin_mounts(*i, all, k as int) matches Ok(m) && mounts_view(mounts@) == m0 + m,
        decreases bins@.len() - k,
    {
        assert(all[k as int] == (bins@[k as int].0@, bins@[k as int].1@));
        match find_output(i.completed, bins[k].1.as_str()) {
            Err(e) => {
                proof {
                    lemma_bin_fault(*i, all, k as int + 1, bins@.len() as int);
                }
                return Some(e);
            },
            Ok(tree) => {
                push_mount(mounts, "bins", tree);
                assert(mounts_view(mounts@) =~= m0 + bin_mounts(*i, all, k as int + 1)->Ok_0);
            },
        }
        k += 1;
    }
    None
}

/// The action that runs a test: the test binary runs with the package source
/// tree as its working directory, and finds the package's binaries.
pub open spec fn test_action(i: ActionInputs<'_>, run: TestRun) -> Result<ActionView, PlanFault> {
    match output_tree(*i.completed, run.compile@) {
        Err(fault) => Err(fault),
        Ok(tree) => match bin_mounts(i, pairs_view(run.bins@), run.bins@.len() as int) {
            Err(fault) => Err(fault),
            Ok(bins) => Ok(
                ActionView {
                    executable: ExecutableView::TreeFile { tree, path: run.binary@ },
                    arguments: texts(run.args@),
                    environment: unit_env(i, pairs_view(run.bins@)),
                    mounts: seq![("."@, i.source_tree)] + bins,
                    outputs: Seq::empty(),
                    cached: run.cached,
                    network: NetworkPolicy::Deny,
                    bundle: i.bundle,
                    working_directory: "."@,
                    platform: i.host_triple@,
                    warnings: Seq::empty(),
                },
            ),
        },
    }
}

/// What an action or a failure is.
pub open spec fn action_result(r: Result<Action, PlanError>) -> Result<ActionView, PlanFault> {
    match r {
        Ok(a) => Ok(a@),
        Err(e) => Err(e@),
    }
}

fn make_script_action(i: &ActionInputs<'_>, run: &ScriptRun) -> (r: Result<Action, PlanError>)
    ensures
        action_result(r) == script_action(*i, *run),
{
    let tree = match find_output(i.completed, run.compile.as_str()) {
        Ok(t) => t,
        Err(e) => return Err(e),
    };
    let mut mounts: Vec<(String, Digest)> = Vec::new();
    push_mount(&mut mounts, ".", i.source_tree);
    push_mount(&mut mounts, ".", tree);
    let action = Action {
        executable: Executable::TreeFile { tree, path: run.binary.clone() },
        arguments: Vec::new(),
        environment: make_script_env(i, run),
        mounts,
        outputs: Vec::new(),
        cached: true,
        network: NetworkPolicy::Deny,
        bundle: i.bundle,
        working_directory: owned("."),
        platform: owned(i.host_triple),
        warnings: Vec::new(),
    };
    proof {
        assert(action@.mounts =~= seq![("."@, i.source_tree), ("."@, tree)]);
        assert(action@.arguments =~= Seq::<Seq<char>>::empty());
        assert(action@.outputs =~= Seq::<Seq<char>>::empty());
        assert(action@.warnings =~= Seq::<Seq<char>>::empty());
    }
    Ok(action)
}

fn make_test_action(i: &ActionInputs<'_>, run: &TestRun) -> (r: Result<Action, PlanError>)
    ensures
        action_result(r) == test_action(*i, *run),
{
    let tree = match find_output(i.completed, run.compile.as_str()) {
        Ok(t) => t,
        Err(e) => return Err(e),
    };
    let mut mounts: Vec<(String, Digest)> = Vec::new();
    push_mount(&mut mounts, ".", i.source_tree);
    assert(mounts_view(mounts@) =~= seq![("."@, i.source_tree)]);
    if let Some(e) = add_bins(i, &run.bins, &mut mounts) {
        return Err(e);
    }
    let action = Action {
        executable: Executable::TreeFile { tree, path: run.binary.clone() },
        arguments: copy_texts(&run.args),
        environment: make_unit_env(i, &run.bins),
        mounts,
        outputs: Vec::new(),
        cached: run.cached,
        network: NetworkPolicy::Deny,
        bundle: i.bundle,
        working_directory: owned("."),
        platform: owned(i.host_triple),
        warnings: Vec::new(),
    };
    proof {
        assert(action@.outputs =~= Seq::<Seq<char>>::empty());
        assert(action@.warnings =~= Seq::<Seq<char>>::empty());
    }
    Ok(action)
}

// ---- Compilations ------------------------------------------------------------------------

/// The mounts and the arguments of the first `n` direct dependencies.
pub open spec fn direct_parts(i: ActionInputs<'_>, deps: Seq<DepSpecView>, n: int) -> Result<
    (Seq<(Seq<char>, Digest)>, Seq<Seq<char>>),
    PlanFault,
>
    decreases n,
{
    if n <= 0 {
        Ok((Seq::empty(), Seq::empty()))
    } else {
        match direct_parts(i, deps, n - 1) {
            Err(fault) => Err(fault),
            Ok((mounts, args)) => match deps[n - 1] {
                DepSpecView::Native => Ok((mounts, args)),
                DepSpecView::Rust { extern_name, action, file } => match output_tree(
                    *i.completed,
                    action,
                ) {
                    Err(fault) => Err(fault),
                    Ok(tree) => Ok(
                        (
                            mounts.push(("deps"@, tree)),
                            args.push("--extern"@).push(
                                extern_name + "="@ + i.exec_root@ + "/in/deps/"@ + file,
                            ),
                        ),
                    ),
                },
            },
        }
    }
}

/// Whether a unit is among the direct dependencies.
pub open spec fn is_direct(deps: Seq<DepSpecView>, action: Seq<char>) -> bool {
    exists|k: int|
        0 <= k < deps.len() && (#[trigger] deps[k]) is Rust && deps[k]->action == action
}

/// The mounts of those of the first `n` transitive dependencies that are no
/// direct ones.
pub open spec fn further_mounts(
    i: ActionInputs<'_>,
    deps: Seq<DepSpecView>,
    ids: Seq<Seq<char>>,
    n: int,
) -> Result<Seq<(Seq<char>, Digest)>, PlanFault>
    decreases n,
{
    if n <= 0 {
        Ok(Seq::empty())
    } else {
        match further_mounts(i, deps, ids, n - 1) {
            Err(fault) => Err(fault),
            Ok(before) => if is_direct(deps, ids[n - 1]) {
                Ok(before)
            } else {
                match output_tree(*i.completed, ids[n - 1]) {
                    Ok(tree) => Ok(before.push(("deps"@, tree))),
                    Err(fault) => Err(fault),
                }
            },
        }
    }
}

/// The mounts of the first `n` native imports.
pub open spec fn native_mounts(i: ActionInputs<'_>, cc: Seq<(Seq<char>, Seq<char>)>, n: int) -> Seq<
    (Seq<char>, Digest),
>
    decreases n,
{
    if n <= 0 {
        Seq::empty()
    } else {
        native_mounts(i, cc, n - 1).push(("cc/"@ + cc[n - 1].0, i.natives@[cc[n - 1].0]))
    }
}

/// The arguments of the first `n` native imports.
pub open spec fn native_args(i: ActionInputs<'_>, cc: Seq<(Seq<char>, Seq<char>)>, n: int) -> Seq<
    Seq<char>,
>
    decreases n,
{
    if n <= 0 {
        Seq::empty()
    } else {
        native_args(i, cc, n - 1).push("-L"@).push(
            "native="@ + i.exec_root@ + "/in/cc/"@ + cc[n - 1].0,
        ).push("-l"@).push(cc[n - 1].1)
    }
}

/// The directives of the first `n` of these build scripts, applied in turn; the
/// own script waits.
pub open spec fn with_sources(
    a: Applied,
    i: ActionInputs<'_>,
    sources: Seq<Seq<char>>,
    own: Option<Seq<char>>,
    crate_type: Seq<char>,
    role: Role,
    n: int,
) -> Applied
    decreases n,
{
    if n <= 0 {
        a
    } else {
        let before = with_sources(a, i, sources, own, crate_type, role, n - 1);
        let source = sources[n - 1];
        if own == Some(source) || !i.completed.stdout@.contains_key(source) {
            before
        } else {
            with_directives(
                before,
                i.exec_root@,
                directives_in(i.completed.stdout@[source]@),
                crate_type,
                role,
            )
        }
    }
}

/// The directives of a compilation's own build script.
pub open spec fn own_directives(i: ActionInputs<'_>, c: CompileUnit) -> DirectivesView {
    match c.build_script {
        Some(id) => if i.completed.stdout@.contains_key(id@) {
            directives_in(i.completed.stdout@[id@]@)
        } else {
            no_directives()
        },
        None => no_directives(),
    }
}

/// The tree that a compilation's own build script left.
pub open spec fn own_output(i: ActionInputs<'_>, c: CompileUnit) -> Result<
    Option<Digest>,
    PlanFault,
> {
    match c.build_script {
        Some(id) => match output_tree(*i.completed, id@) {
            Ok(tree) => Ok(Some(tree)),
            Err(fault) => Err(fault),
        },
        None => Ok(None),
    }
}

/// The arguments that name the target, where one is set: what is compiled for the
/// execution host never has them.
pub open spec fn target_args(i: ActionInputs<'_>, c: CompileUnit) -> Seq<Seq<char>> {
    match i.target {
        Some(triple) => if c.host {
            Seq::empty()
        } else {
            seq!["--target"@, triple@]
        },
        None => Seq::empty(),
    }
}

/// The arguments of rustc that say what is compiled.
pub open spec fn crate_args(i: ActionInputs<'_>, c: CompileUnit) -> Seq<Seq<char>> {
    let name = seq!["--crate-name"@, c.crate_name@];
    let kind = if c.crate_type@ == "test"@ {
        seq!["--test"@]
    } else {
        seq!["--crate-type"@, c.crate_type@]
    };
    let macros = if c.crate_type@ == "proc-macro"@ || (c.is_proc_macro && (c.role
        == Role::UnitTest || c.role == Role::Test)) {
        seq!["--extern"@, "proc_macro"@]
    } else {
        Seq::empty()
    };
    name + kind + macros + target_args(i, c)
}

/// The arguments of rustc behind those of dependencies and directives.
pub open spec fn rustc_args(i: ActionInputs<'_>, c: CompileUnit, extra: Seq<Seq<char>>) -> Seq<
    Seq<char>,
> {
    crate_args(i, c) + seq![
        "--edition"@,
        edition_text(c.edition),
        "-C"@,
        "metadata="@ + c.meta@ + crate::text::join_spec(extra, ""@),
    ] + texts(c.profile_flags@) + seq![
        "-o"@,
        i.exec_root@ + "/out/"@ + c.output@,
        "-L"@,
        "dependency="@ + i.exec_root@ + "/in/deps"@,
    ] + texts(c.extra_flags@) + texts(c.feature_cfgs@) + seq![c.crate_root@]
}

/// The action that compiles a crate.
pub open spec fn compile_action(i: ActionInputs<'_>, c: CompileUnit) -> Result<
    ActionView,
    PlanFault,
> {
    let own = own_directives(i, c);
    let deps = dep_specs_view(c.deps@);
    let ids = crate::strmap::ascending_of(c.transitive@);
    let cc = pairs_view(c.cc@);
    let bins = pairs_view(c.bins@);
    match own_output(i, c) {
        Err(fault) => Err(fault),
        Ok(script) => if own.errors.len() > 0 {
            Err(
                PlanFault::Message(
                    "build script for "@ + c.crate_name@ + " failed: "@ + own.errors[0],
                ),
            )
        } else {
            match direct_parts(i, deps, deps.len() as int) {
                Err(fault) => Err(fault),
                Ok((mounts, args)) => match (
                    further_mounts(i, deps, ids, ids.len() as int),
                    bin_mounts(i, bins, bins.len() as int),
                ) {
                    (Err(fault), _) => Err(fault),
                    (_, Err(fault)) => Err(fault),
                    (Ok(more), Ok(found)) => {
                        let start = Applied {
                            args: args + native_args(i, cc, cc.len() as int),
                            env: match script {
                                Some(_) => unit_env(i, bins).insert(
                                    "OUT_DIR"@,
                                    i.exec_root@ + "/in/build_out"@,
                                ),
                                None => unit_env(i, bins),
                            },
                            libs: Set::empty(),
                            searches: Set::empty(),
                            flags: Set::empty(),
                            extra: Seq::empty(),
                        };
                        let sources = texts(c.directive_sources@);
                        let others = with_sources(
                            start,
                            i,
                            sources,
                            opt_view(c.build_script),
                            c.crate_type@,
                            c.role,
                            sources.len() as int,
                        );
                        let all = with_directives(others, i.exec_root@, own, c.crate_type@, c.role);
                        let root = seq![("."@, i.source_tree)];
                        let built = match script {
                            Some(tree) => root.push(("build_out"@, tree)),
                            None => root,
                        };
                        Ok(
                            ActionView {
                                executable: ExecutableView::Rustc,
                                arguments: all.args + paired("--cfg"@, ""@, own.cfgs) + rustc_args(
                                    i,
                                    c,
                                    all.extra,
                                ),
                                environment: all.env,
                                mounts: built + mounts + more + found + native_mounts(
                                    i,
                                    cc,
                                    cc.len() as int,
                                ),
                                outputs: seq![c.output@],
                                cached: true,
                                network: NetworkPolicy::Deny,
                                bundle: i.bundle,
                                working_directory: "."@,
                                platform: i.host_triple@,
                                warnings: own.warnings,
                            },
                        )
                    },
                },
            }
        },
    }
}

proof fn lemma_direct_fault(i: ActionInputs<'_>, deps: Seq<DepSpecView>, a: int, b: int)
    requires
        a <= b,
        direct_parts(i, deps, a) is Err,
    ensures
        direct_parts(i, deps, b) == direct_parts(i, deps, a),
    decreases b,
{
    if a < b {
        lemma_direct_fault(i, deps, a, b - 1);
    }
}

/// Adds the mounts and the arguments of the direct dependencies.
fn add_direct(
    i: &ActionInputs<'_>,
    deps: &Vec<DepSpec>,
    mounts: &mut Vec<(String, Digest)>,
    args: &mut Vec<String>,
) -> (r: Option<PlanError>)
    ensures
        match direct_parts(*i, dep_specs_view(deps@), deps@.len() as int) {
            Ok((m, a)) => r is None && mounts_view(final(mounts)@) == mounts_view(old(mounts)@) + m
                && texts(final(args)@) == texts(old(args)@) + a,
            Err(fault) => r is Some && r->0@ == fault,
        },
{
    let ghost all = dep_specs_view(deps@);
    let ghost m0 = mounts_view(mounts@);
    let ghost a0 = texts(args@);
    let mut k: usize = 0;
    proof {
        assert(m0 =~= m0 + Seq::<(Seq<char>, Digest)>::empty());
        assert(a0 =~= a0 + Seq::<Seq<char>>::empty());
    }
    while k < deps.len()
        invariant
            k <= deps@.len(),
            all == dep_specs_view(deps@),
            direct_parts(*i, all, k as int) matches Ok((m, a)) && mounts_view(mounts@) == m0 + m
                && texts(args@) == a0 + a,
        decreases deps@.len() - k,
    {
        assert(all[k as int] == deps@[k as int]@);
        if let DepSpec::Rust { extern_name, action, file } = &deps[k] {
            match find_output(i.completed, action.as_str()) {
                Err(e) => {
                    proof {
                        lemma_direct_fault(*i, all, k as int + 1, all.len() as int);
                    }
                    return Some(e);
                },
                Ok(tree) => {
                    push_mount(mounts, "deps", tree);
                    push_text(args, "--extern");
                    push_string(
                        args,
                        cat5(
                            extern_name.as_str(),
                            "=",
                            i.exec_root,
                            "/in/deps/",
                            file.as_str(),
                        ),
                    );
                    proof {
                        let (m, a) = direct_parts(*i, all, k as int + 1)->Ok_0;
                        assert(mounts_view(mounts@) =~= m0 + m);
                        assert(texts(args@) =~= a0 + a);
                    }
                },
            }
        }
        k += 1;
    }
    None
}

fn has_direct(deps: &Vec<DepSpec>, id: &str) -> (r: bool)
    ensures
        r == is_direct(dep_specs_view(deps@), id@),
{
    let ghost all = dep_specs_view(deps@);
    let mut k: usize = 0;
    while k < deps.len()
        invariant
            k <= deps@.len(),
            all == dep_specs_view(deps@),
            forall|x: int|
                0 <= x < k ==> !((#[trigger] all[x]) is Rust && all[x]->action == id@),
        decreases deps@.len() - k,
    {
        assert(all[k as int] == deps@[k as int]@);
        if let DepSpec::Rust { action, .. } = &deps[k] {
            if same(action.as_str(), id) {
                return true;
            }
        }
        k += 1;
    }
    false
}

proof fn lemma_further_fault(
    i: ActionInputs<'_>,
    deps: Seq<DepSpecView>,
    ids: Seq<Seq<char>>,
    a: int,
    b: int,
)
    requires
        a <= b,
        further_mounts(i, deps, ids, a) is Err,
    ensures
        further_mounts(i, deps, ids, b) == further_mounts(i, deps, ids, a),
    decreases b,
{
    if a < b {
        lemma_further_fault(i, deps, ids, a, b - 1);
    }
}

/// Adds the mounts of the transitive dependencies that are no direct ones.
fn add_further(
    i: &ActionInputs<'_>,
    deps: &Vec<DepSpec>,
    ids: &Vec<String>,
    mounts: &mut Vec<(String, Digest)>,
) -> (r: Option<PlanError>)
    ensures
        match further_mounts(*i, dep_specs_view(deps@), texts(ids@), ids@.len() as int) {
            Ok(m) => r is None && mounts_view(final(mounts)@) == mounts_view(old(mounts)@) + m,
            Err(fault) => r is Some && r->0@ == fault,
        },
{
    let ghost specs = dep_specs_view(deps@);
    let ghost all = texts(ids@);
    let ghost m0 = mounts_view(mounts@);
    let mut k: usize = 0;
    assert(m0 =~= m0 + Seq::<(Seq<char>, Digest)>::empty());
    while k < ids.len()
        invariant
            k <= ids@.len(),
            all == texts(ids@),
            specs == dep_specs_view(deps@),
            further_mounts(*i, specs, all, k as int) matches Ok(m) && mounts_view(mounts@) == m0 + m,
        decreases ids@.len() - k,
    {
        assert(all[k as int] == ids@[k as int]@);
        if !has_direct(deps, ids[k].as_str()) {
            match find_output(i.completed, ids[k].as_str()) {
                Err(e) => {
                    proof {
                        lemma_further_fault(*i, specs, all, k as int + 1, all.len() as int);
                    }
                    return Some(e);
                },
                Ok(tree) => {
                    push_mount(mounts, "deps", tree);
                    assert(mounts_view(mounts@) =~= m0 + further_mounts(
                        *i,
                        specs,
                        all,
                        k as int + 1,
                    )->Ok_0);
                },
            }
        }
        k += 1;
    }
    None
}

/// Adds the mounts and the arguments of the native imports.
fn add_natives(
    i: &ActionInputs<'_>,
    cc: &Vec<(String, String)>,
    mounts: &mut Vec<(String, Digest)>,
    args: &mut Vec<String>,
)
    requires
        forall|k: int|
            0 <= k < cc@.len() ==> i.natives@.contains_key((#[trigger] cc@[k]).0@),
    ensures
        mounts_view(final(mounts)@) == mounts_view(old(mounts)@) + native_mounts(
            *i,
            pairs_view(cc@),
            cc@.len() as int,
        ),
        texts(final(args)@) == texts(old(args)@) + native_args(
            *i,
            pairs_view(cc@),
            cc@.len() as int,
        ),
{
    let ghost all = pairs_view(cc@);
    let ghost m0 = mounts_view(mounts@);
    let ghost a0 = texts(args@);
    let mut k: usize = 0;
    proof {
        assert(m0 =~= m0 + Seq::<(Seq<char>, Digest)>::empty());
        assert(a0 =~= a0 + Seq::<Seq<char>>::empty());
    }
    while k < cc.len()
        invariant
            k <= cc@.len(),
            all == pairs_view(cc@),
            forall|x: int|
                0 <= x < cc@.len() ==> i.natives@.contains_key((#[trigger] cc@[x]).0@),
            mounts_view(mounts@) == m0 + native_mounts(*i, all, k as int),
            texts(args@) == a0 + native_args(*i, all, k as int),
        decreases cc@.len() - k,
    {
        assert(all[k as int] == (cc@[k as int].0@, cc@[k as int].1@));
        let name = cc[k].0.as_str();
        if let Some(tree) = i.natives.get(name) {
            push_mount(mounts, cat("cc/", name).as_str(), *tree);
        }
        push_text(args, "-L");
        push_string(args, cat4("native=", i.exec_root, "/in/cc/", name));
        push_text(args, "-l");
        push_text(args, cc[k].1.as_str());
        k += 1;
        assert(mounts_view(mounts@) =~= m0 + native_mounts(*i, all, k as int));
        assert(texts(args@) =~= a0 + native_args(*i, all, k as int));
    }
}

/// Applies the directives of these build scripts in turn, but for the own one.
fn apply_sources(
    s: &mut Applying,
    i: &ActionInputs<'_>,
    sources: &Vec<String>,
    own: &Option<String>,
    crate_type: &str,
    role: Role,
)
    ensures
        final(s).state() == with_sources(
            old(s).state(),
            *i,
            texts(sources@),
            opt_view(*own),
            crate_type@,
            role,
            sources@.len() as int,
        ),
{
    let ghost a = s.state();
    let ghost all = texts(sources@);
    let mut k: usize = 0;
    while k < sources.len()
        invariant
            k <= sources@.len(),
            all == texts(sources@),
            s.state() == with_sources(a, *i, all, opt_view(*own), crate_type@, role, k as int),
        decreases sources@.len() - k,
    {
        assert(all[k as int] == sources@[k as int]@);
        let source = sources[k].as_str();
        let mine = match own {
            Some(id) => same(id.as_str(), source),
            None => false,
        };
        if !mine {
            if let Some(stdout) = i.completed.stdout.get(source) {
                let d = parse_directives(stdout.as_str());
                apply_directives(s, i.exec_root, &d, crate_type, role);
            }
        }
        k += 1;
    }
}

/// Adds the arguments of rustc that say what is compiled.
fn add_crate_args(i: &ActionInputs<'_>, c: &CompileUnit, args: &mut Vec<String>)
    ensures
        texts(final(args)@) == texts(old(args)@) + crate_args(*i, *c),
{
    let ghost a0 = texts(args@);
    let crate_type = c.crate_type.as_str();
    push_text(args, "--crate-name");
    push_text(args, c.crate_name.as_str());
    if same(crate_type, "test") {
        push_text(args, "--test");
    } else {
        push_text(args, "--crate-type");
        push_text(args, crate_type);
    }
    if same(crate_type, "proc-macro") || (c.is_proc_macro && (c.role == Role::UnitTest || c.role
        == Role::Test)) {
        push_text(args, "--extern");
        push_text(args, "proc_macro");
    }
    let ghost a1 = texts(args@);
    if let Some(triple) = i.target {
        if !c.host {
            push_text(args, "--target");
            push_text(args, triple);
        }
    }
    assert(texts(args@) =~= a1 + target_args(*i, *c));
    assert(texts(args@) =~= a0 + crate_args(*i, *c));
}

/// Adds the arguments of rustc behind those of dependencies and directives.
fn add_rustc_args(i: &ActionInputs<'_>, c: &CompileUnit, extra: &Vec<String>, args: &mut Vec<String>)
    ensures
        texts(final(args)@) == texts(old(args)@) + rustc_args(*i, *c, texts(extra@)),
{
    let ghost a0 = texts(args@);
    add_crate_args(i, c, args);
    push_text(args, "--edition");
    push_text(args, c.edition.to_rustc());
    push_text(args, "-C");
    let joined = crate::text::join(extra, "");
    push_string(args, cat3("metadata=", c.meta.as_str(), joined.as_str()));
    push_all(args, &c.profile_flags);
    push_text(args, "-o");
    push_string(args, cat3(i.exec_root, "/out/", c.output.as_str()));
    push_text(args, "-L");
    push_string(args, cat3("dependency=", i.exec_root, "/in/deps"));
    push_all(args, &c.extra_flags);
    push_all(args, &c.feature_cfgs);
    push_text(args, c.crate_root.as_str());
    assert(texts(args@) =~= a0 + rustc_args(*i, *c, texts(extra@)));
}

/// Makes the action that compiles a crate.
fn make_compile_action(i: &ActionInputs<'_>, c: &CompileUnit) -> (r: Result<Action, PlanError>)
    requires
        forall|k: int|
            0 <= k < c.cc@.len() ==> i.natives@.contains_key((#[trigger] c.cc@[k]).0@),
    ensures
        action_result(r) == compile_action(*i, *c),
{
    let mut mounts: Vec<(String, Digest)> = Vec::new();
    push_mount(&mut mounts, ".", i.source_tree);
    let mut env = make_unit_env(i, &c.bins);
    let mut own = Directives::default();
    if let Some(id) = &c.build_script {
        match find_output(i.completed, id.as_str()) {
            Ok(tree) => push_mount(&mut mounts, "build_out", tree),
            Err(e) => return Err(e),
        }
        if let Some(stdout) = i.completed.stdout.get(id.as_str()) {
            own = parse_directives(stdout.as_str());
        }
        set_env(&mut env, owned("OUT_DIR"), cat(i.exec_root, "/in/build_out"));
    }
    assert(own@ == own_directives(*i, *c));
    assert(own@.errors.len() == own.errors@.len());
    if own.errors.len() > 0 {
        assert(own@.errors[0] == own.errors@[0]@);
        return Err(
            PlanError::Message(
                cat4(
                    "build script for ",
                    c.crate_name.as_str(),
                    " failed: ",
                    own.errors[0].as_str(),
                ),
            ),
        );
    }
    let ghost built = mounts_view(mounts@);
    let mut args: Vec<String> = Vec::new();
    assert(texts(args@) =~= Seq::<Seq<char>>::empty());
    assert(dep_specs_view(c.deps@).len() == c.deps@.len());
    if let Some(e) = add_direct(i, &c.deps, &mut mounts, &mut args) {
        return Err(e);
    }
    let ids = c.transitive.to_list();
    assert(texts(ids@).len() == ids@.len());
    if let Some(e) = add_further(i, &c.deps, &ids, &mut mounts) {
        return Err(e);
    }
    assert(pairs_view(c.bins@).len() == c.bins@.len());
    if let Some(e) = add_bins(i, &c.bins, &mut mounts) {
        return Err(e);
    }
    let ghost direct_args = texts(args@);
    add_natives(i, &c.cc, &mut mounts, &mut args);
    assert(pairs_view(c.cc@).len() == c.cc@.len());
    let mut s = Applying {
        args,
        env,
        libs: Vec::new(),
        searches: StrSet::new(),
        flags: StrSet::new(),
        extra: Vec::new(),
    };
    proof {
        let (m, a) = direct_parts(*i, dep_specs_view(c.deps@), c.deps@.len() as int)->Ok_0;
        assert(direct_args =~= a);
        assert(s.state().libs =~= Set::<(Option<Seq<char>>, Seq<char>)>::empty());
        assert(s.state().extra =~= Seq::<Seq<char>>::empty());
        assert(texts(c.directive_sources@).len() == c.directive_sources@.len());
    }
    apply_sources(
        &mut s,
        i,
        &c.directive_sources,
        &c.build_script,
        c.crate_type.as_str(),
        c.role,
    );
    apply_directives(&mut s, i.exec_root, &own, c.crate_type.as_str(), c.role);
    let mut arguments = s.args;
    push_paired(&mut arguments, "--cfg", "", &own.cfgs);
    add_rustc_args(i, c, &s.extra, &mut arguments);
    let mut outputs: Vec<String> = Vec::new();
    push_text(&mut outputs, c.output.as_str());
    let action = Action {
        executable: Executable::Rustc,
        arguments,
        environment: s.env,
        mounts,
        outputs,
        cached: true,
        network: NetworkPolicy::Deny,
        bundle: i.bundle,
        working_directory: owned("."),
        platform: owned(i.host_triple),
        warnings: own.warnings,
    };
    proof {
        assert(action@.outputs =~= seq![c.output@]);
        assert(built =~= (match own_output(*i, *c)->Ok_0 {
            Some(tree) => seq![("."@, i.source_tree)].push(("build_out"@, tree)),
            None => seq![("."@, i.source_tree)],
        }));
    }
    Ok(action)
}

/// The action of a unit.
pub open spec fn action_of(i: ActionInputs<'_>, u: Unit) -> Result<ActionView, PlanFault> {
    match u.kind {
        UnitKind::Compile(c) => compile_action(i, c),
        UnitKind::ScriptRun(run) => script_action(i, run),
        UnitKind::TestRun(run) => test_action(i, run),
    }
}

/// Makes the action of a unit, once the units it depends on have completed.
pub fn concretize(i: &ActionInputs<'_>, u: &Unit) -> (r: Result<Action, PlanError>)
    requires
        u.kind matches UnitKind::Compile(c) ==> forall|k: int|
            0 <= k < c.cc@.len() ==> i.natives@.contains_key((#[trigger] c.cc@[k]).0@),
    ensures
        action_result(r) == action_of(*i, *u),
{
    match &u.kind {
        UnitKind::Compile(c) => make_compile_action(i, c),
        UnitKind::ScriptRun(run) => make_script_action(i, run),
        UnitKind::TestRun(run) => make_test_action(i, run),
    }
}

/// What is known of a target triple.
#[derive(Clone, Debug)]
pub struct TripleFacts {
    /// Architecture.
    pub arch: String,
    /// Operating system.
    pub os: String,
    /// Family.
    pub family: String,
    /// Environment.
    pub env: String,
    /// Vendor.
    pub vendor: String,
    /// Pointer width.
    pub pointer_width: String,
    /// Byte order.
    pub endian: String,
}

/// The `CARGO_CFG_*` values of a triple.
pub open spec fn cfgs_of(facts: TripleFacts) -> Seq<(Seq<char>, Seq<char>)> {
    let base = seq![
        ("target_arch"@, facts.arch@),
        ("target_os"@, facts.os@),
        ("target_family"@, facts.family@),
        ("target_env"@, facts.env@),
        ("target_vendor"@, facts.vendor@),
        ("target_pointer_width"@, facts.pointer_width@),
        ("target_endian"@, facts.endian@),
    ];
    let unix = if facts.family@ == "unix"@ {
        base.push(("unix"@, ""@))
    } else {
        base
    };
    if facts.family@ == "windows"@ {
        unix.push(("windows"@, ""@))
    } else {
        unix
    }
}

/// Lists the `CARGO_CFG_*` values for build scripts.
pub fn build_script_cfgs(facts: &TripleFacts) -> (r: Vec<(String, String)>)
    ensures
        pairs_view(r@) == cfgs_of(*facts),
{
    let mut out: Vec<(String, String)> = Vec::new();
    out.push((owned("target_arch"), facts.arch.clone()));
    out.push((owned("target_os"), facts.os.clone()));
    out.push((owned("target_family"), facts.family.clone()));
    out.push((owned("target_env"), facts.env.clone()));
    out.push((owned("target_vendor"), facts.vendor.clone()));
    out.push((owned("target_pointer_width"), facts.pointer_width.clone()));
    out.push((owned("target_endian"), facts.endian.clone()));
    if same(facts.family.as_str(), "unix") {
        out.push((owned("unix"), owned("")));
    }
    if same(facts.family.as_str(), "windows") {
        out.push((owned("windows"), owned("")));
    }
    assert(pairs_view(out@) =~= cfgs_of(*facts));
    out
}

// ---- Laws --------------------------------------------------------------------------------

/// The triple that is built for, where one is set.
pub open spec fn target_view(i: ActionInputs<'_>) -> Option<Seq<char>> {
    match i.target {
        Some(triple) => Some(triple@),
        None => None,
    }
}

/// Whether what a compilation or the run of a test depends on is the same: the
/// sources, what is known of the package and of the workspace, native imports, and
/// completed units, but no path of the host.
pub open spec fn same_sources(i: ActionInputs<'_>, j: ActionInputs<'_>) -> bool {
    &&& i.exec_root@ == j.exec_root@
    &&& i.source_tree == j.source_tree
    &&& i.package.name@ == j.package.name@
    &&& i.package.version@ == j.package.version@
    &&& opt_view(i.package.links) == opt_view(j.package.links)
    &&& i.host_triple@ == j.host_triple@
    &&& target_view(i) == target_view(j)
    &&& i.bundle == j.bundle
    &&& env_view(i.package.env@) == env_view(j.package.env@)
    &&& env_view(i.global_env@) == env_view(j.global_env@)
    &&& i.natives@ == j.natives@
    &&& *i.completed == *j.completed
}

proof fn lemma_direct_same(i: ActionInputs<'_>, j: ActionInputs<'_>, deps: Seq<DepSpecView>, n: int)
    requires
        same_sources(i, j),
    ensures
        direct_parts(i, deps, n) == direct_parts(j, deps, n),
    decreases n,
{
    if n > 0 {
        lemma_direct_same(i, j, deps, n - 1);
    }
}

proof fn lemma_further_same(
    i: ActionInputs<'_>,
    j: ActionInputs<'_>,
    deps: Seq<DepSpecView>,
    ids: Seq<Seq<char>>,
    n: int,
)
    requires
        same_sources(i, j),
    ensures
        further_mounts(i, deps, ids, n) == further_mounts(j, deps, ids, n),
    decreases n,
{
    if n > 0 {
        lemma_further_same(i, j, deps, ids, n - 1);
    }
}

proof fn lemma_native_same(
    i: ActionInputs<'_>,
    j: ActionInputs<'_>,
    cc: Seq<(Seq<char>, Seq<char>)>,
    n: int,
)
    requires
        same_sources(i, j),
    ensures
        native_mounts(i, cc, n) == native_mounts(j, cc, n),
        native_args(i, cc, n) == native_args(j, cc, n),
    decreases n,
{
    if n > 0 {
        lemma_native_same(i, j, cc, n - 1);
    }
}

proof fn lemma_sources_same(
    a: Applied,
    i: ActionInputs<'_>,
    j: ActionInputs<'_>,
    sources: Seq<Seq<char>>,
    own: Option<Seq<char>>,
    crate_type: Seq<char>,
    role: Role,
    n: int,
)
    requires
        same_sources(i, j),
    ensures
        with_sources(a, i, sources, own, crate_type, role, n) == with_sources(
            a,
            j,
            sources,
            own,
            crate_type,
            role,
            n,
        ),
    decreases n,
{
    if n > 0 {
        lemma_sources_same(a, i, j, sources, own, crate_type, role, n - 1);
    }
}

proof fn lemma_bins_same(
    i: ActionInputs<'_>,
    j: ActionInputs<'_>,
    bins: Seq<(Seq<char>, Seq<char>)>,
    n: int,
)
    requires
        same_sources(i, j),
    ensures
        bin_vars(i, bins, n) == bin_vars(j, bins, n),
        bin_mounts(i, bins, n) == bin_mounts(j, bins, n),
    decreases n,
{
    if n > 0 {
        lemma_bins_same(i, j, bins, n - 1);
    }
}

/// A compilation, and the run of a test, are the same action wherever the package,
/// the toolchain and the program stand on the host.
pub proof fn relocations_keep_compilations(i: ActionInputs<'_>, j: ActionInputs<'_>, u: Unit)
    requires
        same_sources(i, j),
        !(u.kind is ScriptRun),
    ensures
        action_of(i, u) == action_of(j, u),
{
    assert(package_vars(i) == package_vars(j));
    assert(package_env(i) == package_env(j));
    if let UnitKind::TestRun(run) = u.kind {
        lemma_bins_same(i, j, pairs_view(run.bins@), run.bins@.len() as int);
        assert(pairs_view(run.bins@).len() == run.bins@.len());
    }
    if let UnitKind::Compile(c) = u.kind {
        let bins = pairs_view(c.bins@);
        lemma_bins_same(i, j, bins, bins.len() as int);
        let deps = dep_specs_view(c.deps@);
        let ids = crate::strmap::ascending_of(c.transitive@);
        let cc = pairs_view(c.cc@);
        lemma_direct_same(i, j, deps, deps.len() as int);
        lemma_further_same(i, j, deps, ids, ids.len() as int);
        lemma_native_same(i, j, cc, cc.len() as int);
        assert(own_output(i, c) == own_output(j, c));
        assert(own_directives(i, c) == own_directives(j, c));
        if own_output(i, c) is Ok && direct_parts(i, deps, deps.len() as int) is Ok {
            let start = Applied {
                args: direct_parts(i, deps, deps.len() as int)->Ok_0.1 + native_args(
                    i,
                    cc,
                    cc.len() as int,
                ),
                env: match own_output(i, c)->Ok_0 {
                    Some(_) => unit_env(i, bins).insert(
                        "OUT_DIR"@,
                        i.exec_root@ + "/in/build_out"@,
                    ),
                    None => unit_env(i, bins),
                },
                libs: Set::empty(),
                searches: Set::empty(),
                flags: Set::empty(),
                extra: Seq::empty(),
            };
            let sources = texts(c.directive_sources@);
            lemma_sources_same(
                start,
                i,
                j,
                sources,
                opt_view(c.build_script),
                c.crate_type@,
                c.role,
                sources.len() as int,
            );
        }
    }
}

/// The run of a build script does not depend on where its package stands on the
/// host.
pub proof fn relocated_packages_keep_script_runs(
    i: ActionInputs<'_>,
    j: ActionInputs<'_>,
    u: Unit,
)
    requires
        same_sources(i, j),
        env_view(i.run_env@) == env_view(j.run_env@),
        i.opt_level@ == j.opt_level@,
        i.debug == j.debug,
        i.profile@ == j.profile@,
        i.rustc_path@ == j.rustc_path@,
        i.program_path@ == j.program_path@,
        pairs_view(i.cfgs@) == pairs_view(j.cfgs@),
        pairs_view(i.host_cfgs@) == pairs_view(j.host_cfgs@),
        u.kind is ScriptRun,
    ensures
        action_of(i, u) == action_of(j, u),
{
    assert(package_vars(i) == package_vars(j));
    assert(package_env(i) == package_env(j));
    assert(script_vars(i, true) == script_vars(j, true));
    assert(script_vars(i, false) == script_vars(j, false));
}

proof fn lemma_metadata_keys(
    env: Map<Seq<char>, Seq<char>>,
    links: Seq<char>,
    metadata: Seq<(Seq<char>, Seq<char>)>,
    n: int,
)
    ensures
        forall|k: Seq<char>| #[trigger]
            env.contains_key(k) ==> with_metadata(env, links, metadata, n).contains_key(k),
        forall|m: int|
            0 <= m < n ==> with_metadata(env, links, metadata, n).contains_key(
                "DEP_"@ + variable_text(links) + "_"@ + variable_text((#[trigger] metadata[m]).0),
            ),
    decreases n,
{
    if n > 0 {
        lemma_metadata_keys(env, links, metadata, n - 1);
    }
}

proof fn lemma_links_keys(
    env: Map<Seq<char>, Seq<char>>,
    links: Seq<(Seq<char>, Seq<char>)>,
    completed: Completed,
    n: int,
    k: int,
    m: int,
)
    requires
        0 <= k < n <= links.len(),
        completed.stdout@.contains_key(links[k].1),
        0 <= m < directives_in(completed.stdout@[links[k].1]@).metadata.len(),
    ensures
        with_links(env, links, completed, n).contains_key(
            "DEP_"@ + variable_text(links[k].0) + "_"@ + variable_text(
                directives_in(completed.stdout@[links[k].1]@).metadata[m].0,
            ),
        ),
    decreases n,
{
    let before = with_links(env, links, completed, n - 1);
    let (name, run) = links[n - 1];
    if completed.stdout@.contains_key(run) {
        let metadata = directives_in(completed.stdout@[run]@).metadata;
        lemma_metadata_keys(before, name, metadata, metadata.len() as int);
        if k == n - 1 {
            assert(metadata[m].0 == metadata[m].0);
        }
    }
    if k < n - 1 {
        lemma_links_keys(env, links, completed, n - 1, k, m);
    }
}

/// Each metadata key of a dependency's build script reaches the scripts of its
/// dependents as `DEP_<LINKS>_<KEY>`.
pub proof fn metadata_reaches_dependents(
    i: ActionInputs<'_>,
    run: ScriptRun,
    k: int,
    m: int,
)
    requires
        0 <= k < run.links@.len(),
        i.completed.stdout@.contains_key(pairs_view(run.links@)[k].1),
        0 <= m < directives_in(
            i.completed.stdout@[pairs_view(run.links@)[k].1]@,
        ).metadata.len(),
    ensures
        script_env(i, run).contains_key(
            "DEP_"@ + variable_text(pairs_view(run.links@)[k].0) + "_"@ + variable_text(
                directives_in(i.completed.stdout@[pairs_view(run.links@)[k].1]@).metadata[m].0,
            ),
        ),
{
    let base = over(package_env(i), env_view(i.run_env@));
    let own = script_vars(i, run.host);
    let all = cfgs_for(i, run.host);
    let vars = with_env(base, own, own.len() as int);
    let cfgs = with_cfgs(vars, all, all.len() as int);
    let features = with_features(cfgs, texts(run.features@), run.features@.len() as int);
    let version = version_vars(parsed_version(semver_parsed(i.package.version@)));
    lemma_links_keys(
        with_env(features, version, version.len() as int),
        pairs_view(run.links@),
        *i.completed,
        run.links@.len() as int,
        k,
        m,
    );
}

} // verus!
