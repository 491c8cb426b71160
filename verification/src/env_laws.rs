//! The environments that units run in.

use vstd::prelude::*;
use vstd::string::*;
use crate::actions::{
    action_of, bin_mounts, bin_vars, cfgs_for, over, package_env, package_vars, script_env,
    script_vars, unit_env, upper_text, variable_text, version_vars, with_cfgs, with_env,
    with_features, with_links, with_metadata, ActionInputs, ActionView, Completed, ExecutableView,
    NetworkPolicy,
};
use crate::directives::directives_in;
use crate::model::env_view;
use crate::plan::{pairs_view, ScriptRun, TestRun, Unit, UnitKind};
use crate::text::{decimal, starts, texts};
use crate::units::PlanFault;
use crate::version::{parsed_version, semver_parsed};

verus! {

/// Whether a text is another with its ASCII letters in upper case.
pub open spec fn capitals(name: Seq<char>, text: Seq<char>) -> bool {
    text.len() == name.len() && forall|k: int|
        0 <= k < name.len() ==> {
            &&& 'a' as int <= name[k] as int <= 'z' as int ==> (#[trigger] text[k]) as int
                == name[k] as int - 32
            &&& !('a' as int <= name[k] as int <= 'z' as int) ==> text[k] == name[k]
        }
}

/// Whether a text is another as part of a variable's name: its ASCII letters in
/// upper case, and `_` for each `-`.
pub open spec fn as_variable(name: Seq<char>, text: Seq<char>) -> bool {
    text.len() == name.len() && forall|k: int|
        0 <= k < name.len() ==> {
            &&& 'a' as int <= name[k] as int <= 'z' as int ==> (#[trigger] text[k]) as int
                == name[k] as int - 32
            &&& name[k] == '-' ==> text[k] == '_'
            &&& name[k] != '-' && !('a' as int <= name[k] as int <= 'z' as int) ==> text[k]
                == name[k]
        }
}

proof fn lemma_capitals(name: Seq<char>)
    ensures
        capitals(name, upper_text(name)),
        as_variable(name, variable_text(name)),
{
}

proof fn lemma_capitals_unique(name: Seq<char>, a: Seq<char>)
    ensures
        capitals(name, a) ==> a == upper_text(name),
        as_variable(name, a) ==> a == variable_text(name),
{
    if capitals(name, a) {
        assert forall|k: int| 0 <= k < name.len() implies a[k] == upper_text(name)[k] by {
            let b = upper_text(name)[k];
            assert(a[k] as int == b as int);
        }
        assert(a =~= upper_text(name));
    }
    if as_variable(name, a) {
        assert forall|k: int| 0 <= k < name.len() implies a[k] == variable_text(name)[k] by {
            let b = variable_text(name)[k];
            assert(a[k] as int == b as int);
        }
        assert(a =~= variable_text(name));
    }
}

// ---- Environments -----------------------------------------------------------------

/// Whether two environments have the same under a key.
spec fn agree(a: Map<Seq<char>, Seq<char>>, b: Map<Seq<char>, Seq<char>>, key: Seq<char>) -> bool {
    a.contains_key(key) == b.contains_key(key) && (a.contains_key(key) ==> a[key] == b[key])
}

proof fn lemma_env_kept(
    env: Map<Seq<char>, Seq<char>>,
    pairs: Seq<(Seq<char>, Seq<char>)>,
    n: int,
    key: Seq<char>,
)
    requires
        0 <= n <= pairs.len(),
        forall|k: int| 0 <= k < n ==> (#[trigger] pairs[k]).0 != key,
    ensures
        agree(with_env(env, pairs, n), env, key),
    decreases n,
{
    if n > 0 {
        lemma_env_kept(env, pairs, n - 1, key);
        assert(pairs[n - 1].0 != key);
    }
}

proof fn lemma_env_last(
    env: Map<Seq<char>, Seq<char>>,
    pairs: Seq<(Seq<char>, Seq<char>)>,
    n: int,
    k: int,
)
    requires
        0 <= k < n <= pairs.len(),
        forall|j: int| k < j < n ==> (#[trigger] pairs[j]).0 != pairs[k].0,
    ensures
        with_env(env, pairs, n).contains_key(pairs[k].0),
        with_env(env, pairs, n)[pairs[k].0] == pairs[k].1,
    decreases n,
{
    if k < n - 1 {
        lemma_env_last(env, pairs, n - 1, k);
        assert(pairs[n - 1].0 != pairs[k].0);
    }
}

proof fn lemma_starts(p: Seq<char>, rest: Seq<char>)
    ensures
        starts(p + rest, p),
{
    assert((p + rest).take(p.len() as int) =~= p);
}

/// The literals that package variables go by, told apart.
proof fn lemma_package_names()
    ensures
        "CARGO_PKG_NAME"@.len() == 14,
        "CARGO_PKG_VERSION"@.len() == 17,
        "CARGO_MANIFEST_DIR"@.len() == 18,
        "CARGO_MANIFEST_PATH"@.len() == 19,
        "CARGO_MANIFEST_LINKS"@.len() == 20,
        "CARGO_PKG_VERSION_MAJOR"@.len() == 23,
        "CARGO_PKG_VERSION_MINOR"@.len() == 23,
        "CARGO_PKG_VERSION_PATCH"@.len() == 23,
        "CARGO_PKG_VERSION_PRE"@.len() == 21,
        "CARGO_PKG_VERSION_MAJOR"@[19] == 'A',
        "CARGO_PKG_VERSION_MINOR"@[19] == 'I',
        "CARGO_PKG_VERSION_MAJOR"@[18] == 'M',
        "CARGO_PKG_VERSION_MINOR"@[18] == 'M',
        "CARGO_PKG_VERSION_PATCH"@[18] == 'P',
        "CARGO_PKG_NAME"@[6] == 'P',
        "CARGO_PKG_VERSION"@[6] == 'P',
        "CARGO_MANIFEST_DIR"@[6] == 'M',
        "CARGO_MANIFEST_PATH"@[6] == 'M',
        "CARGO_MANIFEST_LINKS"@[6] == 'M',
        "CARGO_PKG_VERSION_MAJOR"@[6] == 'P',
        "CARGO_PKG_VERSION_MINOR"@[6] == 'P',
        "CARGO_PKG_VERSION_PATCH"@[6] == 'P',
        "CARGO_PKG_VERSION_PRE"@[6] == 'P',
        "CARGO_PKG_NAME"@[0] == 'C',
        "CARGO_PKG_VERSION"@[0] == 'C',
        "CARGO_MANIFEST_DIR"@[0] == 'C',
        "CARGO_MANIFEST_PATH"@[0] == 'C',
        "CARGO_MANIFEST_LINKS"@[0] == 'C',
        "CARGO_PKG_VERSION_MAJOR"@[0] == 'C',
        "CARGO_PKG_VERSION_MINOR"@[0] == 'C',
        "CARGO_PKG_VERSION_PATCH"@[0] == 'C',
        "CARGO_PKG_VERSION_PRE"@[0] == 'C',
{
    reveal_strlit("CARGO_PKG_NAME");
    reveal_strlit("CARGO_PKG_VERSION");
    reveal_strlit("CARGO_MANIFEST_DIR");
    reveal_strlit("CARGO_MANIFEST_PATH");
    reveal_strlit("CARGO_MANIFEST_LINKS");
    reveal_strlit("CARGO_PKG_VERSION_MAJOR");
    reveal_strlit("CARGO_PKG_VERSION_MINOR");
    reveal_strlit("CARGO_PKG_VERSION_PATCH");
    reveal_strlit("CARGO_PKG_VERSION_PRE");
}

/// Whether an environment tells of a package: its name and version, and where its
/// manifest is.
pub open spec fn tells_of_package(env: Map<Seq<char>, Seq<char>>, i: ActionInputs<'_>) -> bool {
    &&& env.contains_pair("CARGO_PKG_NAME"@, i.package.name@)
    &&& env.contains_pair("CARGO_PKG_VERSION"@, i.package.version@)
    &&& env.contains_pair("CARGO_MANIFEST_DIR"@, i.exec_root@ + "/in"@)
    &&& env.contains_pair("CARGO_MANIFEST_PATH"@, i.exec_root@ + "/in/Cargo.toml"@)
    &&& i.package.links matches Some(links) ==> env.contains_pair(
        "CARGO_MANIFEST_LINKS"@,
        links@,
    )
    &&& parsed_version(semver_parsed(i.package.version@)) matches Ok(v) ==> {
        &&& env.contains_pair("CARGO_PKG_VERSION_MAJOR"@, decimal(v.major as nat))
        &&& env.contains_pair("CARGO_PKG_VERSION_MINOR"@, decimal(v.minor as nat))
        &&& env.contains_pair("CARGO_PKG_VERSION_PATCH"@, decimal(v.patch as nat))
        &&& env.contains_pair("CARGO_PKG_VERSION_PRE"@, v.pre)
    }
}

/// Whether a variable is one that tells of a package.
pub open spec fn is_package_var(key: Seq<char>) -> bool {
    ||| key == "CARGO_PKG_NAME"@
    ||| key == "CARGO_PKG_VERSION"@
    ||| key == "CARGO_MANIFEST_DIR"@
    ||| key == "CARGO_MANIFEST_PATH"@
    ||| key == "CARGO_MANIFEST_LINKS"@
    ||| is_version_var(key)
}

/// Whether a variable is one that tells of a package's version in parts.
pub open spec fn is_version_var(key: Seq<char>) -> bool {
    ||| key == "CARGO_PKG_VERSION_MAJOR"@
    ||| key == "CARGO_PKG_VERSION_MINOR"@
    ||| key == "CARGO_PKG_VERSION_PATCH"@
    ||| key == "CARGO_PKG_VERSION_PRE"@
}

proof fn lemma_told(env: Map<Seq<char>, Seq<char>>, i: ActionInputs<'_>)
    ensures
        ({
            let own = package_vars(i);
            let vars = version_vars(parsed_version(semver_parsed(i.package.version@)));
            tells_of_package(
                with_env(with_env(env, own, own.len() as int), vars, vars.len() as int),
                i,
            )
        }),
{
    lemma_package_names();
    let own = package_vars(i);
    let vars = version_vars(parsed_version(semver_parsed(i.package.version@)));
    let mid = with_env(env, own, own.len() as int);
    let n = own.len() as int;
    let m = vars.len() as int;
    lemma_env_last(env, own, n, 0);
    lemma_env_last(env, own, n, 1);
    lemma_env_last(env, own, n, 2);
    lemma_env_last(env, own, n, 3);
    lemma_env_kept(mid, vars, m, "CARGO_PKG_NAME"@);
    lemma_env_kept(mid, vars, m, "CARGO_PKG_VERSION"@);
    lemma_env_kept(mid, vars, m, "CARGO_MANIFEST_DIR"@);
    lemma_env_kept(mid, vars, m, "CARGO_MANIFEST_PATH"@);
    if i.package.links is Some {
        lemma_env_last(env, own, n, 4);
        lemma_env_kept(mid, vars, m, "CARGO_MANIFEST_LINKS"@);
    }
    if m > 0 {
        lemma_env_last(mid, vars, m, 0);
        lemma_env_last(mid, vars, m, 1);
        lemma_env_last(mid, vars, m, 2);
        lemma_env_last(mid, vars, m, 3);
    }
}

proof fn lemma_told_kept(env: Map<Seq<char>, Seq<char>>, i: ActionInputs<'_>, key: Seq<char>)
    requires
        !is_package_var(key),
    ensures
        ({
            let own = package_vars(i);
            let vars = version_vars(parsed_version(semver_parsed(i.package.version@)));
            agree(
                with_env(with_env(env, own, own.len() as int), vars, vars.len() as int),
                env,
                key,
            )
        }),
{
    let own = package_vars(i);
    let vars = version_vars(parsed_version(semver_parsed(i.package.version@)));
    lemma_env_kept(env, own, own.len() as int, key);
    lemma_env_kept(with_env(env, own, own.len() as int), vars, vars.len() as int, key);
}

/// Every unit is told of its package. All other variables are the package's own,
/// and where it has none of that name, the workspace's.
pub proof fn units_are_told_of_their_package(i: ActionInputs<'_>, key: Seq<char>)
    ensures
        tells_of_package(package_env(i), i),
        !is_package_var(key) && i.package.env@.contains_key(key) ==> package_env(i).contains_pair(
            key,
            i.package.env@[key]@,
        ),
        !is_package_var(key) && !i.package.env@.contains_key(key)
            && i.global_env@.contains_key(key) ==> package_env(i).contains_pair(
            key,
            i.global_env@[key]@,
        ),
        !is_package_var(key) && !i.package.env@.contains_key(key) && !i.global_env@.contains_key(
            key,
        ) ==> !package_env(i).contains_key(key),
{
    let base = over(env_view(i.global_env@), env_view(i.package.env@));
    lemma_told(base, i);
    if !is_package_var(key) {
        lemma_told_kept(base, i, key);
    }
}

// ---- Build scripts ----------------------------------------------------------------

proof fn lemma_cfgs(
    env: Map<Seq<char>, Seq<char>>,
    cfgs: Seq<(Seq<char>, Seq<char>)>,
    n: int,
    key: Seq<char>,
)
    requires
        0 <= n <= cfgs.len(),
        forall|k: int| 0 <= k < n ==> "CARGO_CFG_"@ + upper_text((#[trigger] cfgs[k]).0) != key,
    ensures
        agree(with_cfgs(env, cfgs, n), env, key),
    decreases n,
{
    if n > 0 {
        lemma_cfgs(env, cfgs, n - 1, key);
        assert("CARGO_CFG_"@ + upper_text(cfgs[n - 1].0) != key);
    }
}

proof fn lemma_cfgs_last(
    env: Map<Seq<char>, Seq<char>>,
    cfgs: Seq<(Seq<char>, Seq<char>)>,
    n: int,
    k: int,
)
    requires
        0 <= k < n <= cfgs.len(),
        forall|j: int|
            k < j < n ==> upper_text((#[trigger] cfgs[j]).0) != upper_text(cfgs[k].0),
    ensures
        with_cfgs(env, cfgs, n).contains_pair(
            "CARGO_CFG_"@ + upper_text(cfgs[k].0),
            cfgs[k].1,
        ),
    decreases n,
{
    if k < n - 1 {
        lemma_cfgs_last(env, cfgs, n - 1, k);
        let a = "CARGO_CFG_"@ + upper_text(cfgs[k].0);
        let b = "CARGO_CFG_"@ + upper_text(cfgs[n - 1].0);
        if a == b {
            let p = "CARGO_CFG_"@.len() as int;
            assert(upper_text(cfgs[k].0) =~= a.skip(p));
            assert(upper_text(cfgs[n - 1].0) =~= b.skip(p));
        }
    }
}

proof fn lemma_features_on(
    env: Map<Seq<char>, Seq<char>>,
    features: Seq<Seq<char>>,
    n: int,
    key: Seq<char>,
)
    requires
        0 <= n <= features.len(),
    ensures
        (exists|k: int|
            0 <= k < n && "CARGO_FEATURE_"@ + variable_text(#[trigger] features[k]) == key)
            ==> with_features(env, features, n).contains_pair(key, "1"@),
        !(exists|k: int|
            0 <= k < n && "CARGO_FEATURE_"@ + variable_text(#[trigger] features[k]) == key)
            ==> agree(with_features(env, features, n), env, key),
    decreases n,
{
    if n > 0 {
        lemma_features_on(env, features, n - 1, key);
        let last = "CARGO_FEATURE_"@ + variable_text(features[n - 1]);
        if exists|k: int|
            0 <= k < n && "CARGO_FEATURE_"@ + variable_text(#[trigger] features[k]) == key {
            let k = choose|k: int|
                0 <= k < n && "CARGO_FEATURE_"@ + variable_text(#[trigger] features[k]) == key;
            if last != key {
                assert(0 <= k < n - 1);
            }
        } else {
            assert("CARGO_FEATURE_"@ + variable_text(features[n - 1]) != key);
        }
    }
}

proof fn lemma_metadata(
    env: Map<Seq<char>, Seq<char>>,
    links: Seq<char>,
    metadata: Seq<(Seq<char>, Seq<char>)>,
    n: int,
    key: Seq<char>,
)
    requires
        0 <= n <= metadata.len(),
        forall|m: int|
            0 <= m < n ==> "DEP_"@ + variable_text(links) + "_"@ + variable_text(
                (#[trigger] metadata[m]).0,
            ) != key,
    ensures
        agree(with_metadata(env, links, metadata, n), env, key),
    decreases n,
{
    if n > 0 {
        lemma_metadata(env, links, metadata, n - 1, key);
        assert("DEP_"@ + variable_text(links) + "_"@ + variable_text(metadata[n - 1].0) != key);
    }
}

proof fn lemma_metadata_last(
    env: Map<Seq<char>, Seq<char>>,
    links: Seq<char>,
    metadata: Seq<(Seq<char>, Seq<char>)>,
    n: int,
    m: int,
)
    requires
        0 <= m < n <= metadata.len(),
        forall|x: int|
            m < x < n ==> variable_text((#[trigger] metadata[x]).0) != variable_text(
                metadata[m].0,
            ),
    ensures
        with_metadata(env, links, metadata, n).contains_pair(
            "DEP_"@ + variable_text(links) + "_"@ + variable_text(metadata[m].0),
            metadata[m].1,
        ),
    decreases n,
{
    if m < n - 1 {
        lemma_metadata_last(env, links, metadata, n - 1, m);
        let p = "DEP_"@ + variable_text(links) + "_"@;
        let a = p + variable_text(metadata[m].0);
        let b = p + variable_text(metadata[n - 1].0);
        if a == b {
            assert(variable_text(metadata[m].0) =~= a.skip(p.len() as int));
            assert(variable_text(metadata[n - 1].0) =~= b.skip(p.len() as int));
        }
    }
}

proof fn lemma_links_kept(
    env: Map<Seq<char>, Seq<char>>,
    links: Seq<(Seq<char>, Seq<char>)>,
    completed: Completed,
    n: int,
    key: Seq<char>,
)
    requires
        0 <= n <= links.len(),
        !starts(key, "DEP_"@),
    ensures
        agree(with_links(env, links, completed, n), env, key),
    decreases n,
{
    if n > 0 {
        lemma_links_kept(env, links, completed, n - 1, key);
        let (name, run) = links[n - 1];
        if completed.stdout@.contains_key(run) {
            let metadata = directives_in(completed.stdout@[run]@).metadata;
            let before = with_links(env, links, completed, n - 1);
            assert forall|m: int| 0 <= m < metadata.len() implies "DEP_"@ + variable_text(name)
                + "_"@ + variable_text((#[trigger] metadata[m]).0) != key by {
                let rest = variable_text(name) + "_"@ + variable_text(metadata[m].0);
                lemma_starts("DEP_"@, rest);
                assert("DEP_"@ + rest =~= "DEP_"@ + variable_text(name) + "_"@ + variable_text(
                    metadata[m].0,
                ));
            }
            lemma_metadata(before, name, metadata, metadata.len() as int, key);
        }
    }
}

/// The environment of a script before cfgs and features.
spec fn before_cfgs(i: ActionInputs<'_>, run: ScriptRun) -> Map<Seq<char>, Seq<char>> {
    let own = script_vars(i, run.host);
    with_env(over(package_env(i), env_view(i.run_env@)), own, own.len() as int)
}

proof fn lemma_not_version(key: Seq<char>, i: ActionInputs<'_>, env: Map<Seq<char>, Seq<char>>)
    requires
        !is_version_var(key),
    ensures
        ({
            let version = version_vars(parsed_version(semver_parsed(i.package.version@)));
            agree(with_env(env, version, version.len() as int), env, key)
        }),
{
    let version = version_vars(parsed_version(semver_parsed(i.package.version@)));
    lemma_env_kept(env, version, version.len() as int, key);
}

/// A variable that is neither a cfg, a feature, metadata nor part of a version is
/// what it was before these.
proof fn lemma_script_kept(i: ActionInputs<'_>, run: ScriptRun, key: Seq<char>)
    requires
        !starts(key, "CARGO_CFG_"@),
        !starts(key, "CARGO_FEATURE_"@),
        !starts(key, "DEP_"@),
        !is_version_var(key),
    ensures
        agree(script_env(i, run), before_cfgs(i, run), key),
{
    let all = cfgs_for(i, run.host);
    let vars = before_cfgs(i, run);
    let cfgs = with_cfgs(vars, all, all.len() as int);
    let list = texts(run.features@);
    assert(list.len() == run.features@.len());
    let features = with_features(cfgs, list, list.len() as int);
    let version = version_vars(parsed_version(semver_parsed(i.package.version@)));
    let told = with_env(features, version, version.len() as int);
    assert forall|k: int| 0 <= k < all.len() implies "CARGO_CFG_"@ + upper_text(
        (#[trigger] all[k]).0,
    ) != key by {
        lemma_starts("CARGO_CFG_"@, upper_text(all[k].0));
    }
    lemma_cfgs(vars, all, all.len() as int, key);
    if exists|k: int|
        0 <= k < list.len() && "CARGO_FEATURE_"@ + variable_text(#[trigger] list[k]) == key {
        let k = choose|k: int|
            0 <= k < list.len() && "CARGO_FEATURE_"@ + variable_text(#[trigger] list[k]) == key;
        lemma_starts("CARGO_FEATURE_"@, variable_text(list[k]));
    }
    lemma_features_on(cfgs, list, list.len() as int, key);
    lemma_not_version(key, i, features);
    assert(pairs_view(run.links@).len() == run.links@.len());
    lemma_links_kept(told, pairs_view(run.links@), *i.completed, run.links@.len() as int, key);
}

/// A build script is told of each feature of its package by a variable that is `1`:
/// `CARGO_FEATURE_` and the feature's name in upper case, with `_` for `-`. Where no
/// feature has such a variable, it is not set, unless the environment that the
/// script starts from has it.
pub proof fn scripts_are_told_of_features(i: ActionInputs<'_>, run: ScriptRun, text: Seq<char>)
    ensures
        (exists|k: int|
            0 <= k < run.features@.len() && as_variable((#[trigger] run.features@[k])@, text))
            ==> script_env(i, run).contains_pair("CARGO_FEATURE_"@ + text, "1"@),
        !(exists|k: int|
            0 <= k < run.features@.len() && as_variable((#[trigger] run.features@[k])@, text))
            && !i.run_env@.contains_key("CARGO_FEATURE_"@ + text) && !i.package.env@.contains_key(
            "CARGO_FEATURE_"@ + text,
        ) && !i.global_env@.contains_key("CARGO_FEATURE_"@ + text) ==> !script_env(
            i,
            run,
        ).contains_key("CARGO_FEATURE_"@ + text),
{
    let key = "CARGO_FEATURE_"@ + text;
    lemma_starts("CARGO_FEATURE_"@, text);
    lemma_package_names();
    reveal_strlit("CARGO_FEATURE_");
    reveal_strlit("CARGO_CFG_");
    reveal_strlit("DEP_");
    assert(key[0] == 'C' && key[6] == 'F' && key.len() >= 14);
    let all = cfgs_for(i, run.host);
    let vars = before_cfgs(i, run);
    let cfgs = with_cfgs(vars, all, all.len() as int);
    let list = texts(run.features@);
    let features = with_features(cfgs, list, list.len() as int);
    let version = version_vars(parsed_version(semver_parsed(i.package.version@)));
    let told = with_env(features, version, version.len() as int);
    assert forall|k: int| 0 <= k < all.len() implies "CARGO_CFG_"@ + upper_text(
        (#[trigger] all[k]).0,
    ) != key by {
        assert(("CARGO_CFG_"@ + upper_text(all[k].0))[6] == 'C');
    }
    lemma_cfgs(vars, all, all.len() as int, key);
    lemma_features_on(cfgs, list, list.len() as int, key);
    lemma_not_version(key, i, features);
    assert(!starts(key, "DEP_"@)) by {
        if starts(key, "DEP_"@) {
            assert(key.take(4)[0] == 'D');
        }
    }
    assert(pairs_view(run.links@).len() == run.links@.len());
    lemma_links_kept(told, pairs_view(run.links@), *i.completed, run.links@.len() as int, key);
    if exists|k: int|
        0 <= k < run.features@.len() && as_variable((#[trigger] run.features@[k])@, text) {
        let k = choose|k: int|
            0 <= k < run.features@.len() && as_variable((#[trigger] run.features@[k])@, text);
        lemma_capitals_unique(run.features@[k]@, text);
        assert(list[k] == run.features@[k]@);
        assert("CARGO_FEATURE_"@ + variable_text(list[k]) == key);
    } else {
        if exists|k: int|
            0 <= k < list.len() && "CARGO_FEATURE_"@ + variable_text(#[trigger] list[k]) == key {
            let k = choose|k: int|
                0 <= k < list.len() && "CARGO_FEATURE_"@ + variable_text(#[trigger] list[k])
                    == key;
            let p = "CARGO_FEATURE_"@.len() as int;
            assert(text =~= key.skip(p));
            assert(variable_text(list[k]) =~= key.skip(p));
            lemma_capitals(list[k]);
            assert(as_variable(run.features@[k]@, text));
        }
        lemma_script_names();
        lemma_vars_kept(i, run, key);
        units_are_told_of_their_package(i, key);
    }
}

/// Whether a variable is one that every script finds.
pub open spec fn is_script_var(key: Seq<char>) -> bool {
    ||| key == "OUT_DIR"@
    ||| key == "TARGET"@
    ||| key == "HOST"@
    ||| key == "OPT_LEVEL"@
    ||| key == "DEBUG"@
    ||| key == "PROFILE"@
    ||| key == "NUM_JOBS"@
    ||| key == "RUSTC"@
    ||| key == "CARGO"@
}

proof fn lemma_script_names()
    ensures
        "OUT_DIR"@.len() == 7,
        "TARGET"@.len() == 6,
        "HOST"@.len() == 4,
        "OPT_LEVEL"@.len() == 9,
        "DEBUG"@.len() == 5,
        "PROFILE"@.len() == 7,
        "NUM_JOBS"@.len() == 8,
        "RUSTC"@.len() == 5,
        "CARGO"@.len() == 5,
        "OUT_DIR"@[0] == 'O',
        "PROFILE"@[0] == 'P',
        "DEBUG"@[0] == 'D',
        "DEBUG"@[2] == 'B',
        "RUSTC"@[0] == 'R',
        "CARGO"@[0] == 'C',
        "TARGET"@[0] == 'T',
        "HOST"@[0] == 'H',
        "OPT_LEVEL"@[0] == 'O',
        "NUM_JOBS"@[0] == 'N',
        "CARGO_CFG_"@.len() == 10,
        "CARGO_CFG_"@[6] == 'C',
        "CARGO_FEATURE_"@.len() == 14,
        "CARGO_FEATURE_"@[6] == 'F',
        "DEP_"@.len() == 4,
        "DEP_"@[0] == 'D',
        "DEP_"@[2] == 'P',
{
    reveal_strlit("OUT_DIR");
    reveal_strlit("TARGET");
    reveal_strlit("HOST");
    reveal_strlit("OPT_LEVEL");
    reveal_strlit("DEBUG");
    reveal_strlit("PROFILE");
    reveal_strlit("NUM_JOBS");
    reveal_strlit("RUSTC");
    reveal_strlit("CARGO");
    reveal_strlit("CARGO_CFG_");
    reveal_strlit("CARGO_FEATURE_");
    reveal_strlit("DEP_");
}

proof fn lemma_vars_kept(i: ActionInputs<'_>, run: ScriptRun, key: Seq<char>)
    requires
        !is_script_var(key),
        !is_package_var(key),
    ensures
        agree(before_cfgs(i, run), over(package_env(i), env_view(i.run_env@)), key),
{
    let own = script_vars(i, run.host);
    let mine = package_vars(i);
    assert forall|k: int| 0 <= k < own.len() implies (#[trigger] own[k]).0 != key by {
        if k >= 9 {
            assert(own[k] == mine[k - 9]);
        }
    }
    lemma_env_kept(over(package_env(i), env_view(i.run_env@)), own, own.len() as int, key);
}

proof fn lemma_not_starts(key: Seq<char>, p: Seq<char>, k: int)
    requires
        0 <= k < p.len(),
        key.len() <= k || key[k] != p[k],
    ensures
        !starts(key, p),
{
    if starts(key, p) {
        assert(key.take(p.len() as int)[k] == key[k]);
    }
}

proof fn lemma_plain_key(key: Seq<char>)
    requires
        is_script_var(key),
    ensures
        !starts(key, "CARGO_CFG_"@),
        !starts(key, "CARGO_FEATURE_"@),
        !starts(key, "DEP_"@),
        !is_version_var(key),
        !is_package_var(key),
{
    lemma_script_names();
    lemma_package_names();
    if key.len() < 10 {
        lemma_not_starts(key, "CARGO_CFG_"@, 9);
        lemma_not_starts(key, "CARGO_FEATURE_"@, 9);
    }
    if key[0] != 'D' {
        lemma_not_starts(key, "DEP_"@, 0);
    } else {
        lemma_not_starts(key, "DEP_"@, 2);
    }
}

proof fn lemma_script_var(i: ActionInputs<'_>, run: ScriptRun, k: int)
    requires
        0 <= k < 9,
    ensures
        ({
            let pair = script_vars(i, run.host)[k];
            script_env(i, run).contains_pair(pair.0, pair.1)
        }),
{
    lemma_script_names();
    lemma_package_names();
    let own = script_vars(i, run.host);
    let mine = package_vars(i);
    let key = own[k].0;
    assert(is_script_var(key));
    lemma_plain_key(key);
    assert forall|j: int| k < j < own.len() implies (#[trigger] own[j]).0 != own[k].0 by {
        if j >= 9 {
            assert(own[j] == mine[j - 9]);
        }
    }
    lemma_env_last(over(package_env(i), env_view(i.run_env@)), own, own.len() as int, k);
    lemma_script_kept(i, run, key);
}

/// A build script finds where it writes, what it is built for and on, the settings
/// of the profile, and the compiler. The target of units for the host is the host.
pub proof fn scripts_find_their_settings(i: ActionInputs<'_>, run: ScriptRun)
    ensures
        ({
            let env = script_env(i, run);
            &&& env.contains_pair("OUT_DIR"@, i.exec_root@ + "/out"@)
            &&& env.contains_pair("HOST"@, i.host_triple@)
            &&& i.target matches Some(triple) ==> !run.host ==> env.contains_pair(
                "TARGET"@,
                triple@,
            )
            &&& i.target is None || run.host ==> env.contains_pair("TARGET"@, i.host_triple@)
            &&& env.contains_pair("OPT_LEVEL"@, i.opt_level@)
            &&& i.debug ==> env.contains_pair("DEBUG"@, "true"@)
            &&& !i.debug ==> env.contains_pair("DEBUG"@, "false"@)
            &&& env.contains_pair("PROFILE"@, i.profile@)
            &&& env.contains_pair("NUM_JOBS"@, "1"@)
            &&& env.contains_pair("RUSTC"@, i.rustc_path@)
            &&& env.contains_pair("CARGO"@, i.program_path@)
        }),
{
    lemma_script_var(i, run, 0);
    lemma_script_var(i, run, 1);
    lemma_script_var(i, run, 2);
    lemma_script_var(i, run, 3);
    lemma_script_var(i, run, 4);
    lemma_script_var(i, run, 5);
    lemma_script_var(i, run, 6);
    lemma_script_var(i, run, 7);
    lemma_script_var(i, run, 8);
}

/// A variable that a run depends on is what the run's environment says, over what
/// the package and the workspace say.
pub proof fn scripts_find_what_they_depend_on(i: ActionInputs<'_>, run: ScriptRun, key: Seq<char>)
    requires
        !is_script_var(key),
        !is_package_var(key),
        !starts(key, "CARGO_CFG_"@),
        !starts(key, "CARGO_FEATURE_"@),
        !starts(key, "DEP_"@),
    ensures
        i.run_env@.contains_key(key) ==> script_env(i, run).contains_pair(
            key,
            i.run_env@[key]@,
        ),
        !i.run_env@.contains_key(key) && i.package.env@.contains_key(key) ==> script_env(
            i,
            run,
        ).contains_pair(key, i.package.env@[key]@),
        !i.run_env@.contains_key(key) && !i.package.env@.contains_key(key)
            && i.global_env@.contains_key(key) ==> script_env(i, run).contains_pair(
            key,
            i.global_env@[key]@,
        ),
{
    lemma_script_kept(i, run, key);
    lemma_vars_kept(i, run, key);
    units_are_told_of_their_package(i, key);
}

/// A build script is told of its package, like every unit of it.
pub proof fn scripts_are_told_of_their_package(i: ActionInputs<'_>, run: ScriptRun)
    ensures
        tells_of_package(script_env(i, run), i),
{
    lemma_script_names();
    lemma_package_names();
    let own = script_vars(i, run.host);
    let mine = package_vars(i);
    let base = over(package_env(i), env_view(i.run_env@));
    let vars = before_cfgs(i, run);
    let all = cfgs_for(i, run.host);
    let cfgs = with_cfgs(vars, all, all.len() as int);
    let list = texts(run.features@);
    assert(list.len() == run.features@.len());
    let features = with_features(cfgs, list, list.len() as int);
    let version = version_vars(parsed_version(semver_parsed(i.package.version@)));
    let told = with_env(features, version, version.len() as int);
    let n = own.len() as int;
    assert forall|k: int| 0 <= k < mine.len() implies script_env(i, run).contains_pair(
        (#[trigger] mine[k]).0,
        mine[k].1,
    ) by {
        let key = mine[k].0;
        assert(own[9 + k] == mine[k]);
        assert forall|j: int| 9 + k < j < n implies (#[trigger] own[j]).0 != own[9 + k].0 by {
            assert(own[j] == mine[j - 9]);
        }
        lemma_env_last(base, own, n, 9 + k);
        lemma_not_starts(key, "CARGO_CFG_"@, 6);
        lemma_not_starts(key, "CARGO_FEATURE_"@, 6);
        lemma_not_starts(key, "DEP_"@, 0);
        lemma_script_kept(i, run, key);
    }
    assert forall|k: int| 0 <= k < version.len() implies script_env(i, run).contains_pair(
        (#[trigger] version[k]).0,
        version[k].1,
    ) by {
        let key = version[k].0;
        lemma_env_last(features, version, version.len() as int, k);
        lemma_not_starts(key, "DEP_"@, 0);
        assert(pairs_view(run.links@).len() == run.links@.len());
        lemma_links_kept(
            told,
            pairs_view(run.links@),
            *i.completed,
            run.links@.len() as int,
            key,
        );
    }
    assert(mine[0] == ("CARGO_PKG_NAME"@, i.package.name@));
    assert(mine[1] == ("CARGO_PKG_VERSION"@, i.package.version@));
    assert(mine[2] == ("CARGO_MANIFEST_DIR"@, i.exec_root@ + "/in"@));
    assert(mine[3] == ("CARGO_MANIFEST_PATH"@, i.exec_root@ + "/in/Cargo.toml"@));
    if let Some(links) = i.package.links {
        assert(mine[4] == ("CARGO_MANIFEST_LINKS"@, links@));
    }
    if let Ok(v) = parsed_version(semver_parsed(i.package.version@)) {
        assert(version[0] == ("CARGO_PKG_VERSION_MAJOR"@, decimal(v.major as nat)));
        assert(version[1] == ("CARGO_PKG_VERSION_MINOR"@, decimal(v.minor as nat)));
        assert(version[2] == ("CARGO_PKG_VERSION_PATCH"@, decimal(v.patch as nat)));
        assert(version[3] == ("CARGO_PKG_VERSION_PRE"@, v.pre));
    }
}

/// The cfg values of the host or of the target.
pub open spec fn cfgs_given(i: ActionInputs<'_>, host: bool) -> Seq<(String, String)> {
    if host {
        i.host_cfgs@
    } else {
        i.cfgs@
    }
}

/// A build script is told of each cfg value of what its package is built for, the
/// host's for units of the host: `CARGO_CFG_` and the key in upper case; the last
/// value counts where keys come to the same.
pub proof fn scripts_are_told_of_cfgs(
    i: ActionInputs<'_>,
    run: ScriptRun,
    k: int,
    text: Seq<char>,
)
    requires
        ({
            let list = cfgs_given(i, run.host);
            &&& 0 <= k < list.len()
            &&& capitals(list[k].0@, text)
            &&& forall|j: int| k < j < list.len() ==> !capitals((#[trigger] list[j]).0@, text)
        }),
    ensures
        ({
            let list = cfgs_given(i, run.host);
            script_env(i, run).contains_pair("CARGO_CFG_"@ + text, list[k].1@)
        }),
{
    let list = cfgs_given(i, run.host);
    lemma_script_names();
    lemma_package_names();
    let key = "CARGO_CFG_"@ + text;
    let all = cfgs_for(i, run.host);
    assert(all.len() == list.len());
    assert(all[k] == (list[k].0@, list[k].1@));
    lemma_capitals_unique(list[k].0@, text);
    let vars = before_cfgs(i, run);
    let cfgs = with_cfgs(vars, all, all.len() as int);
    assert forall|j: int| k < j < all.len() implies upper_text((#[trigger] all[j]).0)
        != upper_text(all[k].0) by {
        assert(all[j] == (list[j].0@, list[j].1@));
        lemma_capitals(list[j].0@);
        assert(!capitals(list[j].0@, text));
    }
    lemma_cfgs_last(vars, all, all.len() as int, k);
    let names = texts(run.features@);
    assert(names.len() == run.features@.len());
    let features = with_features(cfgs, names, names.len() as int);
    let version = version_vars(parsed_version(semver_parsed(i.package.version@)));
    let told = with_env(features, version, version.len() as int);
    assert(key[6] == 'C' && key[0] == 'C') by {
        assert("CARGO_CFG_"@[0] == 'C') by {
            reveal_strlit("CARGO_CFG_");
        }
    }
    if exists|x: int|
        0 <= x < names.len() && "CARGO_FEATURE_"@ + variable_text(#[trigger] names[x]) == key {
        let x = choose|x: int|
            0 <= x < names.len() && "CARGO_FEATURE_"@ + variable_text(#[trigger] names[x]) == key;
        assert(("CARGO_FEATURE_"@ + variable_text(names[x]))[6] == 'F');
    }
    lemma_features_on(cfgs, names, names.len() as int, key);
    lemma_not_version(key, i, features);
    lemma_not_starts(key, "DEP_"@, 0);
    assert(pairs_view(run.links@).len() == run.links@.len());
    lemma_links_kept(told, pairs_view(run.links@), *i.completed, run.links@.len() as int, key);
}

proof fn lemma_links_last(
    env: Map<Seq<char>, Seq<char>>,
    links: Seq<(Seq<char>, Seq<char>)>,
    completed: Completed,
    n: int,
    k: int,
    m: int,
    key: Seq<char>,
)
    requires
        0 <= k < n <= links.len(),
        completed.stdout@.contains_key(links[k].1),
        0 <= m < directives_in(completed.stdout@[links[k].1]@).metadata.len(),
        key == "DEP_"@ + variable_text(links[k].0) + "_"@ + variable_text(
            directives_in(completed.stdout@[links[k].1]@).metadata[m].0,
        ),
        forall|x: int|
            m < x < directives_in(completed.stdout@[links[k].1]@).metadata.len()
                ==> variable_text(
                (#[trigger] directives_in(completed.stdout@[links[k].1]@).metadata[x]).0,
            ) != variable_text(directives_in(completed.stdout@[links[k].1]@).metadata[m].0),
        forall|j: int, x: int|
            #![trigger directives_in(completed.stdout@[links[j].1]@).metadata[x]]
            k < j < n && completed.stdout@.contains_key(links[j].1) && 0 <= x < directives_in(
                completed.stdout@[links[j].1]@,
            ).metadata.len() ==> "DEP_"@ + variable_text(links[j].0) + "_"@ + variable_text(
                directives_in(completed.stdout@[links[j].1]@).metadata[x].0,
            ) != key,
    ensures
        with_links(env, links, completed, n).contains_pair(
            key,
            directives_in(completed.stdout@[links[k].1]@).metadata[m].1,
        ),
    decreases n,
{
    let before = with_links(env, links, completed, n - 1);
    let (name, run) = links[n - 1];
    if k == n - 1 {
        let metadata = directives_in(completed.stdout@[run]@).metadata;
        lemma_metadata_last(before, name, metadata, metadata.len() as int, m);
    } else {
        lemma_links_last(env, links, completed, n - 1, k, m, key);
        if completed.stdout@.contains_key(run) {
            let metadata = directives_in(completed.stdout@[run]@).metadata;
            assert forall|x: int| 0 <= x < metadata.len() implies "DEP_"@ + variable_text(name)
                + "_"@ + variable_text((#[trigger] metadata[x]).0) != key by {
                assert(directives_in(completed.stdout@[links[n - 1].1]@).metadata[x]
                    == metadata[x]);
            }
            lemma_metadata(before, name, metadata, metadata.len() as int, key);
        }
    }
}

/// A build script finds the metadata of the scripts of its direct dependencies:
/// `DEP_`, the name of the native library and the key, both as variables. The last
/// that comes to one name counts.
pub proof fn scripts_find_metadata_of_dependencies(
    i: ActionInputs<'_>,
    run: ScriptRun,
    k: int,
    m: int,
    links: Seq<char>,
    text: Seq<char>,
)
    requires
        0 <= k < run.links@.len(),
        i.completed.stdout@.contains_key(run.links@[k].1@),
        0 <= m < directives_in(i.completed.stdout@[run.links@[k].1@]@).metadata.len(),
        as_variable(run.links@[k].0@, links),
        as_variable(
            directives_in(i.completed.stdout@[run.links@[k].1@]@).metadata[m].0,
            text,
        ),
        forall|x: int|
            m < x < directives_in(i.completed.stdout@[run.links@[k].1@]@).metadata.len()
                ==> !as_variable(
                (#[trigger] directives_in(i.completed.stdout@[run.links@[k].1@]@).metadata[x]).0,
                text,
            ),
        forall|j: int| k < j < run.links@.len() ==> !i.completed.stdout@.contains_key(
            (#[trigger] run.links@[j]).1@,
        ),
    ensures
        script_env(i, run).contains_pair(
            "DEP_"@ + links + "_"@ + text,
            directives_in(i.completed.stdout@[run.links@[k].1@]@).metadata[m].1,
        ),
{
    let all = pairs_view(run.links@);
    assert(all.len() == run.links@.len());
    assert(all[k] == (run.links@[k].0@, run.links@[k].1@));
    let metadata = directives_in(i.completed.stdout@[all[k].1]@).metadata;
    lemma_capitals_unique(all[k].0, links);
    lemma_capitals_unique(metadata[m].0, text);
    assert forall|x: int| m < x < metadata.len() implies variable_text((#[trigger] metadata[x]).0)
        != variable_text(metadata[m].0) by {
        lemma_capitals(metadata[x].0);
    }
    assert forall|j: int, x: int|
        #![trigger directives_in(i.completed.stdout@[all[j].1]@).metadata[x]]
        k < j < all.len() && i.completed.stdout@.contains_key(all[j].1) && 0 <= x < directives_in(
            i.completed.stdout@[all[j].1]@,
        ).metadata.len() implies "DEP_"@ + variable_text(all[j].0) + "_"@ + variable_text(
        directives_in(i.completed.stdout@[all[j].1]@).metadata[x].0,
    ) != "DEP_"@ + links + "_"@ + text by {
        assert(all[j].1 == run.links@[j].1@);
    }
    let vars = before_cfgs(i, run);
    let cfg_list = cfgs_for(i, run.host);
    let cfgs = with_cfgs(vars, cfg_list, cfg_list.len() as int);
    let names = texts(run.features@);
    assert(names.len() == run.features@.len());
    let features = with_features(cfgs, names, names.len() as int);
    let version = version_vars(parsed_version(semver_parsed(i.package.version@)));
    let told = with_env(features, version, version.len() as int);
    lemma_links_last(
        told,
        all,
        *i.completed,
        all.len() as int,
        k,
        m,
        "DEP_"@ + links + "_"@ + text,
    );
}

/// The run of a build script runs the compiled script on its package's sources,
/// without arguments; it is cached, declares no outputs and reaches nothing
/// outside. It waits for the script to be compiled.
pub proof fn script_runs_are_sealed(i: ActionInputs<'_>, u: Unit, run: ScriptRun)
    requires
        u.kind == UnitKind::ScriptRun(run),
    ensures
        match action_of(i, u) {
            Ok(a) => {
                &&& i.completed.outputs@.contains_key(run.compile@)
                &&& a.executable == ExecutableView::TreeFile {
                    tree: i.completed.outputs@[run.compile@],
                    path: run.binary@,
                }
                &&& a.arguments.len() == 0
                &&& a.environment == script_env(i, run)
                &&& a.mounts.len() == 2
                &&& a.mounts[0] == ("."@, i.source_tree)
                &&& a.mounts[1] == ("."@, i.completed.outputs@[run.compile@])
                &&& a.outputs.len() == 0
                &&& a.cached
                &&& a.network == NetworkPolicy::Deny
                &&& a.bundle == i.bundle
                &&& a.working_directory == "."@
                &&& a.platform == i.host_triple@
                &&& a.warnings.len() == 0
            },
            Err(fault) => !i.completed.outputs@.contains_key(run.compile@) && fault
                == PlanFault::MissingDependency(run.compile@),
        },
{
}

// ---- Tests ------------------------------------------------------------------------

proof fn lemma_bin_mounts(i: ActionInputs<'_>, bins: Seq<(Seq<char>, Seq<char>)>, n: int)
    requires
        0 <= n <= bins.len(),
    ensures
        match bin_mounts(i, bins, n) {
            Ok(mounts) => mounts.len() == n && forall|k: int|
                0 <= k < n ==> i.completed.outputs@.contains_key((#[trigger] bins[k]).1)
                    && mounts[k] == ("bins"@, i.completed.outputs@[bins[k].1]),
            Err(fault) => exists|k: int|
                0 <= k < n && !i.completed.outputs@.contains_key((#[trigger] bins[k]).1) && fault
                    == PlanFault::MissingDependency(bins[k].1),
        },
    decreases n,
{
    if n > 0 {
        lemma_bin_mounts(i, bins, n - 1);
        match bin_mounts(i, bins, n - 1) {
            Err(fault) => {
                let k = choose|k: int|
                    0 <= k < n - 1 && !i.completed.outputs@.contains_key((#[trigger] bins[k]).1)
                        && fault == PlanFault::MissingDependency(bins[k].1);
                assert(!i.completed.outputs@.contains_key(bins[k].1));
            },
            Ok(_) => {
                assert(bins[n - 1] == bins[n - 1]);
            },
        }
    }
}

/// The run of a test runs the compiled test with the given arguments on its
/// package's sources. It may be cached exactly where the test says so, declares no
/// outputs and reaches nothing outside. Each binary that it finds is mounted.
pub proof fn test_runs_are_sealed(i: ActionInputs<'_>, u: Unit, run: TestRun, a: ActionView)
    requires
        u.kind == UnitKind::TestRun(run),
        action_of(i, u) == Ok::<ActionView, PlanFault>(a),
    ensures
        i.completed.outputs@.contains_key(run.compile@),
        a.executable == (ExecutableView::TreeFile {
            tree: i.completed.outputs@[run.compile@],
            path: run.binary@,
        }),
        a.arguments.len() == run.args@.len(),
        forall|k: int| 0 <= k < run.args@.len() ==> #[trigger] a.arguments[k] == run.args@[k]@,
        a.mounts.len() == 1 + run.bins@.len(),
        a.mounts[0] == ("."@, i.source_tree),
        forall|k: int|
            0 <= k < run.bins@.len() ==> i.completed.outputs@.contains_key(
                (#[trigger] run.bins@[k]).1@,
            ) && a.mounts[1 + k] == ("bins"@, i.completed.outputs@[run.bins@[k].1@]),
        a.outputs.len() == 0,
        a.cached == run.cached,
        a.network == NetworkPolicy::Deny,
        a.bundle == i.bundle,
        a.working_directory == "."@,
        a.platform == i.host_triple@,
        a.environment == unit_env(i, pairs_view(run.bins@)),
{
    let bins = pairs_view(run.bins@);
    assert(bins.len() == run.bins@.len());
    lemma_bin_mounts(i, bins, bins.len() as int);
    let m = bin_mounts(i, bins, bins.len() as int)->Ok_0;
    assert forall|k: int| 0 <= k < run.bins@.len() implies i.completed.outputs@.contains_key(
        (#[trigger] run.bins@[k]).1@,
    ) && a.mounts[1 + k] == ("bins"@, i.completed.outputs@[run.bins@[k].1@]) by {
        assert(bins[k] == (run.bins@[k].0@, run.bins@[k].1@));
        assert(a.mounts[1 + k] == m[k]);
    }
}

proof fn lemma_bin_vars(i: ActionInputs<'_>, bins: Seq<(Seq<char>, Seq<char>)>, n: int)
    requires
        0 <= n <= bins.len(),
    ensures
        bin_vars(i, bins, n).len() == n,
        forall|k: int|
            #![trigger bin_vars(i, bins, n)[k]]
            0 <= k < n ==> bin_vars(i, bins, n)[k] == (
                "CARGO_BIN_EXE_"@ + bins[k].0,
                i.exec_root@ + "/in/bins/"@ + bins[k].0,
            ),
    decreases n,
{
    if n > 0 {
        lemma_bin_vars(i, bins, n - 1);
    }
}

/// A unit finds each of its binaries by a variable that names where it is mounted,
/// the last of one name; and is told of its package.
pub proof fn units_find_their_binaries(i: ActionInputs<'_>, bins: Seq<(Seq<char>, Seq<char>)>, k: int)
    requires
        0 <= k < bins.len(),
        forall|j: int| k < j < bins.len() ==> (#[trigger] bins[j]).0 != bins[k].0,
    ensures
        unit_env(i, bins).contains_pair(
            "CARGO_BIN_EXE_"@ + bins[k].0,
            i.exec_root@ + "/in/bins/"@ + bins[k].0,
        ),
{
    let vars = bin_vars(i, bins, bins.len() as int);
    lemma_bin_vars(i, bins, bins.len() as int);
    assert forall|j: int| k < j < vars.len() implies (#[trigger] vars[j]).0 != vars[k].0 by {
        let p = "CARGO_BIN_EXE_"@;
        if vars[j].0 == vars[k].0 {
            assert(bins[j].0 =~= vars[j].0.skip(p.len() as int));
            assert(bins[k].0 =~= vars[k].0.skip(p.len() as int));
        }
    }
    lemma_env_last(package_env(i), vars, vars.len() as int, k);
}

/// A variable that names no binary is the package's.
pub proof fn other_variables_are_the_packages(
    i: ActionInputs<'_>,
    bins: Seq<(Seq<char>, Seq<char>)>,
    key: Seq<char>,
)
    requires
        !starts(key, "CARGO_BIN_EXE_"@),
    ensures
        unit_env(i, bins).contains_key(key) <==> package_env(i).contains_key(key),
        package_env(i).contains_key(key) ==> unit_env(i, bins)[key] == package_env(i)[key],
{
    let vars = bin_vars(i, bins, bins.len() as int);
    lemma_bin_vars(i, bins, bins.len() as int);
    assert forall|k: int| 0 <= k < vars.len() implies (#[trigger] vars[k]).0 != key by {
        lemma_starts("CARGO_BIN_EXE_"@, bins[k].0);
    }
    lemma_env_kept(package_env(i), vars, vars.len() as int, key);
}

} // verus!
