//! What profiles say.

use vstd::prelude::*;
use vstd::string::*;
use crate::action_laws::lemma_in_turn;
use crate::model::{
    codegen_flag, codegen_flag_opt, profile_flags, switch, Lto, PanicStrategy, ProfileView,
};
use crate::profiles::{
    base_profile, chain_bound_is_irrelevant, chains_end, merged, notes_upto, override_fault,
    override_of, profile_of, profiles_fault, DebugValue, LtoValue, OptLevelValue, ProfileSettings,
    ProfileTable,
};
use crate::strmap::StrMap;
use crate::text::{decimal, quoted};
use crate::unit_laws::in_turn;

verus! {

/// Whether a profile has what settings say of it.
pub open spec fn says(s: ProfileSettings, p: ProfileView) -> bool {
    &&& s.opt_level matches Some(OptLevelValue::Num(n)) ==> {
        &&& n <= 3
        &&& n == 0 ==> p.opt_level == "0"@
        &&& n == 1 ==> p.opt_level == "1"@
        &&& n == 2 ==> p.opt_level == "2"@
        &&& n == 3 ==> p.opt_level == "3"@
    }
    &&& s.opt_level matches Some(OptLevelValue::Str(level)) ==> p.opt_level == level@
    &&& s.debug matches Some(DebugValue::Bool(on)) ==> p.debug == on
    &&& s.debug matches Some(DebugValue::Num(n)) ==> n <= 2 && (p.debug <==> n != 0)
    &&& s.debug matches Some(DebugValue::Str(word)) ==> {
        &&& word@ == "full"@ || word@ == "true"@ || word@ == "line-tables-only"@ ==> p.debug
        &&& word@ == "none"@ || word@ == "false"@ ==> !p.debug
    }
    &&& s.lto matches Some(LtoValue::Bool(on)) ==> {
        &&& on ==> p.lto == Lto::Fat
        &&& !on ==> p.lto == Lto::Off
    }
    &&& s.lto matches Some(LtoValue::Str(word)) ==> {
        &&& word@ == "thin"@ ==> p.lto == Lto::Thin
        &&& word@ == "fat"@ || word@ == "true"@ ==> p.lto == Lto::Fat
        &&& word@ == "off"@ || word@ == "false"@ ==> p.lto == Lto::Off
    }
    &&& s.panic matches Some(word) ==> {
        &&& word@ == "abort"@ ==> p.panic == PanicStrategy::Abort
        &&& word@ == "unwind"@ ==> p.panic == PanicStrategy::Unwind
    }
    &&& s.codegen_units is Some ==> p.codegen_units == s.codegen_units
    &&& s.overflow_checks is Some ==> p.overflow_checks == s.overflow_checks
    &&& s.debug_assertions is Some ==> p.debug_assertions == s.debug_assertions
    &&& s.strip matches Some(word) ==> p.strip == Some(word@)
    &&& s.rpath is Some ==> p.rpath == s.rpath
    &&& s.split_debuginfo matches Some(word) ==> p.split_debuginfo == Some(word@)
}

/// Whether a profile has from another what settings leave open.
pub open spec fn keeps(s: ProfileSettings, base: ProfileView, p: ProfileView) -> bool {
    &&& s.opt_level is None ==> p.opt_level == base.opt_level
    &&& s.debug is None ==> p.debug == base.debug
    &&& s.lto is None ==> p.lto == base.lto
    &&& s.panic is None ==> p.panic == base.panic
    &&& s.codegen_units is None ==> p.codegen_units == base.codegen_units
    &&& s.overflow_checks is None ==> p.overflow_checks == base.overflow_checks
    &&& s.debug_assertions is None ==> p.debug_assertions == base.debug_assertions
    &&& s.strip is None ==> p.strip == base.strip
    &&& s.rpath is None ==> p.rpath == base.rpath
    &&& s.split_debuginfo is None ==> p.split_debuginfo == base.split_debuginfo
}

/// Whether settings can be read: each word is one that there is, and each number
/// is in its range.
pub open spec fn readable(s: ProfileSettings) -> bool {
    &&& s.opt_level matches Some(OptLevelValue::Num(n)) ==> n <= 3
    &&& s.opt_level matches Some(OptLevelValue::Str(level)) ==> level@ == "0"@ || level@ == "1"@
        || level@ == "2"@ || level@ == "3"@ || level@ == "s"@ || level@ == "z"@
    &&& s.debug matches Some(DebugValue::Num(n)) ==> n <= 2
    &&& s.debug matches Some(DebugValue::Str(word)) ==> word@ == "full"@ || word@ == "true"@
        || word@ == "line-tables-only"@ || word@ == "none"@ || word@ == "false"@
    &&& s.lto matches Some(LtoValue::Str(word)) ==> word@ == "thin"@ || word@ == "fat"@ || word@
        == "true"@ || word@ == "off"@ || word@ == "false"@
    &&& s.panic matches Some(word) ==> word@ == "unwind"@ || word@ == "abort"@
    &&& s.strip matches Some(word) ==> word@ == "none"@ || word@ == "debuginfo"@ || word@
        == "symbols"@
    &&& s.split_debuginfo matches Some(word) ==> word@ == "none"@ || word@ == "unpacked"@ || word@
        == "packed"@
}

proof fn lemma_digits()
    ensures
        decimal(0) == "0"@,
        decimal(1) == "1"@,
        decimal(2) == "2"@,
        decimal(3) == "3"@,
{
    reveal_strlit("0");
    reveal_strlit("1");
    reveal_strlit("2");
    reveal_strlit("3");
    assert(decimal(0) =~= "0"@);
    assert(decimal(1) =~= "1"@);
    assert(decimal(2) =~= "2"@);
    assert(decimal(3) =~= "3"@);
}

proof fn lemma_merged(s: ProfileSettings, base: ProfileView, place: Seq<char>, package: bool)
    ensures
        merged(s, base, place, package) is Ok <==> readable(s),
        merged(s, base, place, package) matches Ok(p) ==> says(s, p) && keeps(s, base, p),
{
    lemma_digits();
    reveal_strlit("full");
    reveal_strlit("true");
    reveal_strlit("line-tables-only");
    reveal_strlit("none");
    reveal_strlit("false");
    reveal_strlit("thin");
    reveal_strlit("fat");
    reveal_strlit("off");
    reveal_strlit("abort");
    reveal_strlit("unwind");
    assert("full"@[0] == 'f' && "full"@[1] == 'u' && "true"@[0] == 't' && "true"@[1] == 'r'
        && "none"@[0] == 'n' && "thin"@[0] == 't' && "thin"@[1] == 'h');
    assert("line-tables-only"@.len() == 16 && "false"@.len() == 5 && "fat"@[0] == 'f' && "off"@[0]
        == 'o' && "fat"@.len() == 3 && "off"@.len() == 3 && "thin"@.len() == 4 && "true"@.len()
        == 4 && "full"@.len() == 4 && "none"@.len() == 4 && "abort"@.len() == 5
        && "unwind"@.len() == 6);
}

/// The profile that a table's settings apply to: the one that it inherits, by its
/// table unless it is `dev` or `release`, which have their defaults. A table that
/// inherits nothing has those of `dev`, and `release` its own.
pub open spec fn is_base(tables: StrMap<ProfileTable>, name: Seq<char>, base: ProfileView) -> bool {
    match tables@[name].settings.inherits {
        Some(other) => {
            &&& other@ == "dev"@ ==> is_dev(base)
            &&& other@ == "release"@ ==> is_release(base)
            &&& other@ != "dev"@ && other@ != "release"@ ==> profile_of(tables, other@) == Ok::<
                ProfileView,
                Seq<char>,
            >(base)
        },
        None => {
            &&& name == "release"@ ==> is_release(base)
            &&& name != "release"@ ==> is_dev(base)
        },
    }
}

/// Whether a profile is Cargo's for development: not optimized, with debug info and
/// all checks.
pub open spec fn is_dev(p: ProfileView) -> bool {
    &&& p.opt_level == "0"@
    &&& p.debug
    &&& p.lto == Lto::Off
    &&& p.panic == PanicStrategy::Unwind
    &&& p.overflow_checks == Some(true)
    &&& p.debug_assertions == Some(true)
    &&& p.codegen_units is None
    &&& p.strip is None
    &&& p.rpath is None
    &&& p.split_debuginfo is None
}

/// Whether a profile is Cargo's for releases: optimized, without debug info or
/// checks.
pub open spec fn is_release(p: ProfileView) -> bool {
    &&& p.opt_level == "3"@
    &&& !p.debug
    &&& p.lto == Lto::Off
    &&& p.panic == PanicStrategy::Unwind
    &&& p.overflow_checks == Some(false)
    &&& p.debug_assertions == Some(false)
    &&& p.codegen_units is None
    &&& p.strip is None
    &&& p.rpath is None
    &&& p.split_debuginfo is None
}

proof fn lemma_base(tables: StrMap<ProfileTable>, name: Seq<char>)
    requires
        chains_end(tables),
        tables@.contains_key(name),
    ensures
        base_profile(tables, name, tables.keys().len()) matches Ok(base) ==> is_base(
            tables,
            name,
            base,
        ),
{
    reveal_strlit("dev");
    reveal_strlit("release");
    assert("dev"@.len() == 3 && "release"@.len() == 7);
    let n = tables.keys().len();
    if base_profile(tables, name, n) is Ok {
        if let Some(other) = tables@[name].settings.inherits {
            if other@ != "dev"@ && other@ != "release"@ {
                assert(n > 0);
                assert(crate::profiles::chain_ends(tables, name, n));
                chain_bound_is_irrelevant(tables, other@, (n - 1) as nat, n);
            }
        }
    }
}

/// A resolved profile has what its table says, and what this leaves open it has
/// from the profile that it inherits.
pub proof fn profiles_say_what_their_tables_say(tables: StrMap<ProfileTable>, name: Seq<char>)
    requires
        chains_end(tables),
        tables@.contains_key(name),
        profile_of(tables, name) is Ok,
    ensures
        says(tables@[name].settings, profile_of(tables, name)->Ok_0),
        exists|base: ProfileView| #[trigger]
            is_base(tables, name, base) && keeps(
                tables@[name].settings,
                base,
                profile_of(tables, name)->Ok_0,
            ),
{
    let n = tables.keys().len();
    let base = base_profile(tables, name, n)->Ok_0;
    lemma_base(tables, name);
    lemma_merged(
        tables@[name].settings,
        base,
        crate::profiles::table_place(name),
        false,
    );
    assert(is_base(tables, name, base));
}

/// A package override has what its own settings say, and what these leave open it
/// has from the profile that the table inherits. It may not inherit, nor choose a
/// backend, nor have settings for build scripts.
pub proof fn overrides_say_what_their_settings_say(
    s: ProfileSettings,
    base: ProfileView,
    name: Seq<char>,
    package: Seq<char>,
)
    ensures
        override_of(s, base, name, package) matches Ok(p) ==> says(s, p) && keeps(s, base, p),
        override_of(s, base, name, package) is Ok <==> readable(s) && s.inherits is None
            && s.codegen_backend is None && !s.build_override,
{
    lemma_merged(s, base, crate::profiles::override_place(name, package), true);
}

proof fn lemma_override_fault(
    package: StrMap<ProfileSettings>,
    base: ProfileView,
    name: Seq<char>,
    n: int,
)
    requires
        0 <= n <= package.keys().len(),
    ensures
        override_fault(package, base, name, n) is None <==> forall|k: int|
            0 <= k < n ==> can_override(#[trigger] package.values()[k]),
    decreases n,
{
    if n > 0 {
        lemma_override_fault(package, base, name, n - 1);
        overrides_say_what_their_settings_say(
            package.values()[n - 1],
            base,
            name,
            package.keys()[n - 1],
        );
        if forall|k: int| 0 <= k < n ==> can_override(#[trigger] package.values()[k]) {
            assert(can_override(package.values()[n - 1]));
        }
    }
}

/// Whether settings can override a profile for a package.
pub open spec fn can_override(s: ProfileSettings) -> bool {
    readable(s) && s.inherits is None && s.codegen_backend is None && !s.build_override
}

/// A table can be resolved exactly where its base can, its settings and those of
/// its overrides can be read, and it asks for nothing that is not supported.
pub proof fn profiles_are_refused_for_a_reason(tables: StrMap<ProfileTable>, name: Seq<char>)
    requires
        tables@.contains_key(name),
    ensures
        profile_of(tables, name) is Ok <==> {
            &&& base_profile(tables, name, tables.keys().len()) is Ok
            &&& readable(tables@[name].settings)
            &&& tables@[name].settings.codegen_backend is None
            &&& !tables@[name].settings.build_override
            &&& tables@[name].package matches Some(package) ==> forall|k: int|
                0 <= k < package.keys().len() ==> can_override(#[trigger] package.values()[k])
        },
{
    let table = tables@[name];
    if let Ok(base) = base_profile(tables, name, tables.keys().len()) {
        lemma_merged(table.settings, base, crate::profiles::table_place(name), false);
        if let Some(package) = table.package {
            lemma_override_fault(package, base, name, package.keys().len() as int);
        }
    }
}

/// A table inherits from one that there is, and not from itself.
pub proof fn profiles_inherit_what_there_is(tables: StrMap<ProfileTable>, name: Seq<char>)
    requires
        tables@.contains_key(name),
        base_profile(tables, name, tables.keys().len()) is Ok,
    ensures
        tables@[name].settings.inherits matches Some(other) ==> {
            &&& other@ == "dev"@ || other@ == "release"@ || tables@.contains_key(other@)
            &&& other@ == name ==> name == "dev"@ || name == "release"@
        },
{
}

/// Resolution fails with the first faulty table, and only where one is faulty.
pub proof fn faulty_profiles_are_reported(tables: StrMap<ProfileTable>, n: int)
    requires
        0 <= n <= tables.keys().len(),
    ensures
        match profiles_fault(tables, n) {
            None => forall|k: int|
                0 <= k < n ==> profile_of(tables, #[trigger] tables.keys()[k]) is Ok,
            Some(message) => exists|k: int|
                0 <= k < n && profile_of(tables, #[trigger] tables.keys()[k]) == Err::<
                    ProfileView,
                    Seq<char>,
                >(message) && forall|j: int|
                    0 <= j < k ==> profile_of(tables, #[trigger] tables.keys()[j]) is Ok,
        },
    decreases n,
{
    if n > 0 {
        faulty_profiles_are_reported(tables, n - 1);
        if let Some(message) = profiles_fault(tables, n - 1) {
            let k = choose|k: int|
                0 <= k < n - 1 && profile_of(tables, #[trigger] tables.keys()[k]) == Err::<
                    ProfileView,
                    Seq<char>,
                >(message) && forall|j: int|
                    0 <= j < k ==> profile_of(tables, #[trigger] tables.keys()[j]) is Ok;
            assert(profile_of(tables, tables.keys()[k]) is Err);
        } else if profile_of(tables, tables.keys()[n - 1]) is Err {
            assert(profile_of(tables, tables.keys()[n - 1]) is Err);
        }
    }
}

// ---- Flags ------------------------------------------------------------------------

/// The number of settings that a profile has besides those that all have.
pub open spec fn settled(p: ProfileView) -> int {
    (if p.overflow_checks is Some {
        1int
    } else {
        0
    }) + (if p.debug_assertions is Some {
        1int
    } else {
        0
    }) + (if p.strip is Some {
        1int
    } else {
        0
    }) + (if p.rpath is Some {
        1int
    } else {
        0
    }) + (if p.codegen_units is Some {
        1int
    } else {
        0
    }) + (if p.split_debuginfo is Some {
        1int
    } else {
        0
    })
}

/// Lists one after another, the first `n` of them.
spec fn strung(lists: Seq<Seq<Seq<char>>>, n: int) -> Seq<Seq<char>>
    decreases n,
{
    if n <= 1 {
        lists[0]
    } else {
        strung(lists, n - 1) + lists[n - 1]
    }
}

proof fn lemma_strung(lists: Seq<Seq<Seq<char>>>, n: int, k: int, key: Seq<char>, value: Seq<char>)
    requires
        0 <= k < n <= lists.len(),
        lists[k] == codegen_flag(key, value),
    ensures
        in_turn(strung(lists, n), "-C"@, key + value),
    decreases n,
{
    let flag = codegen_flag(key, value);
    assert(flag[0] == "-C"@ && flag[1] == key + value);
    if k == n - 1 {
        if n > 1 {
            lemma_in_turn(strung(lists, n - 1), flag, "-C"@, key + value);
        }
    } else {
        lemma_strung(lists, n - 1, k, key, value);
        lemma_in_turn(strung(lists, n - 1), lists[n - 1], "-C"@, key + value);
    }
}

/// rustc is told of each setting of a profile by one `-C`, and of nothing else.
pub proof fn settings_reach_rustc(p: ProfileView)
    ensures
        ({
            let flags = profile_flags(p);
            &&& in_turn(flags, "-C"@, "opt-level="@ + p.opt_level)
            &&& p.debug ==> in_turn(flags, "-C"@, "debuginfo="@ + "2"@)
            &&& !p.debug ==> in_turn(flags, "-C"@, "debuginfo="@ + "0"@)
            &&& p.lto == Lto::Fat ==> in_turn(flags, "-C"@, "lto="@ + "yes"@)
            &&& p.lto == Lto::Thin ==> in_turn(flags, "-C"@, "lto="@ + "thin"@)
            &&& p.lto == Lto::Off ==> in_turn(flags, "-C"@, "lto="@ + "off"@)
            &&& p.panic == PanicStrategy::Unwind ==> in_turn(
                flags,
                "-C"@,
                "panic="@ + "unwind"@,
            )
            &&& p.panic == PanicStrategy::Abort ==> in_turn(flags, "-C"@, "panic="@ + "abort"@)
            &&& p.overflow_checks == Some(true) ==> in_turn(
                flags,
                "-C"@,
                "overflow-checks="@ + "on"@,
            )
            &&& p.overflow_checks == Some(false) ==> in_turn(
                flags,
                "-C"@,
                "overflow-checks="@ + "off"@,
            )
            &&& p.debug_assertions == Some(true) ==> in_turn(
                flags,
                "-C"@,
                "debug-assertions="@ + "on"@,
            )
            &&& p.debug_assertions == Some(false) ==> in_turn(
                flags,
                "-C"@,
                "debug-assertions="@ + "off"@,
            )
            &&& p.strip matches Some(word) ==> in_turn(flags, "-C"@, "strip="@ + word)
            &&& p.rpath == Some(true) ==> in_turn(flags, "-C"@, "rpath="@ + "yes"@)
            &&& p.rpath == Some(false) ==> in_turn(flags, "-C"@, "rpath="@ + "no"@)
            &&& p.codegen_units matches Some(n) ==> in_turn(
                flags,
                "-C"@,
                "codegen-units="@ + decimal(n as nat),
            )
            &&& p.split_debuginfo matches Some(word) ==> in_turn(
                flags,
                "-C"@,
                "split-debuginfo="@ + word,
            )
            &&& flags.len() == 8 + 2 * settled(p)
        }),
{
    let debug = if p.debug {
        "2"@
    } else {
        "0"@
    };
    let units = match p.codegen_units {
        Some(n) => Some(decimal(n as nat)),
        None => None,
    };
    let checks = switch(p.overflow_checks, "on"@, "off"@);
    let assertions = switch(p.debug_assertions, "on"@, "off"@);
    let rpath = switch(p.rpath, "yes"@, "no"@);
    let lists = seq![
        codegen_flag("opt-level="@, p.opt_level),
        codegen_flag("debuginfo="@, debug),
        codegen_flag("lto="@, crate::model::lto_text(p.lto)),
        codegen_flag("panic="@, crate::model::panic_text(p.panic)),
        codegen_flag_opt("overflow-checks="@, checks),
        codegen_flag_opt("debug-assertions="@, assertions),
        codegen_flag_opt("strip="@, p.strip),
        codegen_flag_opt("rpath="@, rpath),
        codegen_flag_opt("codegen-units="@, units),
        codegen_flag_opt("split-debuginfo="@, p.split_debuginfo),
    ];
    reveal_with_fuel(strung, 11);
    assert(profile_flags(p) == strung(lists, 10));
    lemma_strung(lists, 10, 0, "opt-level="@, p.opt_level);
    lemma_strung(lists, 10, 1, "debuginfo="@, debug);
    lemma_strung(lists, 10, 2, "lto="@, crate::model::lto_text(p.lto));
    lemma_strung(lists, 10, 3, "panic="@, crate::model::panic_text(p.panic));
    if let Some(v) = checks {
        lemma_strung(lists, 10, 4, "overflow-checks="@, v);
    }
    if let Some(v) = assertions {
        lemma_strung(lists, 10, 5, "debug-assertions="@, v);
    }
    if let Some(v) = p.strip {
        lemma_strung(lists, 10, 6, "strip="@, v);
    }
    if let Some(v) = rpath {
        lemma_strung(lists, 10, 7, "rpath="@, v);
    }
    if let Some(v) = units {
        lemma_strung(lists, 10, 8, "codegen-units="@, v);
    }
    if let Some(v) = p.split_debuginfo {
        lemma_strung(lists, 10, 9, "split-debuginfo="@, v);
    }
}

/// A profile that asks for incremental compilation is noted, and one that does not
/// is not.
pub proof fn requests_for_incremental_compilation_are_noted(
    tables: StrMap<ProfileTable>,
    n: int,
    k: int,
)
    requires
        0 <= k < n <= tables.keys().len(),
        tables.values()[k].settings.incremental == Some(true),
    ensures
        notes_upto(tables, n).contains(
            "profile "@ + quoted(tables.keys()[k])
                + " requests incremental compilation, which Tong keeps disabled for cacheability"@,
        ),
    decreases n,
{
    let note = "profile "@ + quoted(tables.keys()[k])
        + " requests incremental compilation, which Tong keeps disabled for cacheability"@;
    let all = notes_upto(tables, n);
    if k < n - 1 {
        requests_for_incremental_compilation_are_noted(tables, n - 1, k);
        let before = notes_upto(tables, n - 1);
        let x = choose|x: int| 0 <= x < before.len() && before[x] == note;
        assert(all[x] == note);
    } else {
        assert(all[all.len() - 1] == note);
    }
}

} // verus!
