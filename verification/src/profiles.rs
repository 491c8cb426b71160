//! Cargo profiles: inheritance chains and per-package overrides.

use vstd::prelude::*;
use vstd::string::*;
use crate::model::{
    dev_profile, release_profile, Lto, PanicStrategy, ProfileSpec, ProfileView,
};
use crate::strmap::StrMap;
use crate::text::{
    cat, cat3, cat4, cat5, copy_opt, decimal, opt_view, owned, push_string, quote, quoted, same,
    texts, u64_text,
};

verus! {

/// An `opt-level` as a manifest writes it.
#[derive(Clone, Debug)]
pub enum OptLevelValue {
    /// A number.
    Num(u8),
    /// A text.
    Str(String),
}

/// A `debug` setting as a manifest writes it.
#[derive(Clone, Debug)]
pub enum DebugValue {
    /// On or off.
    Bool(bool),
    /// A number.
    Num(u8),
    /// A text.
    Str(String),
}

/// An `lto` setting as a manifest writes it.
#[derive(Clone, Debug)]
pub enum LtoValue {
    /// On or off.
    Bool(bool),
    /// A text.
    Str(String),
}

/// The settings of a profile table or of a package override in it.
#[derive(Clone, Debug)]
pub struct ProfileSettings {
    /// Base profile to inherit from.
    pub inherits: Option<String>,
    /// Optimization level.
    pub opt_level: Option<OptLevelValue>,
    /// Debug info.
    pub debug: Option<DebugValue>,
    /// Link-time optimization.
    pub lto: Option<LtoValue>,
    /// Panic strategy.
    pub panic: Option<String>,
    /// Codegen units.
    pub codegen_units: Option<u32>,
    /// Overflow checks.
    pub overflow_checks: Option<bool>,
    /// Debug assertions.
    pub debug_assertions: Option<bool>,
    /// Strip setting.
    pub strip: Option<String>,
    /// Whether rpath is passed to the linker.
    pub rpath: Option<bool>,
    /// `none` | `unpacked` | `packed`.
    pub split_debuginfo: Option<String>,
    /// Requested incremental compilation, which stays disabled for
    /// cacheability.
    pub incremental: Option<bool>,
    /// Alternative codegen backend (unsupported: changes compilation).
    pub codegen_backend: Option<String>,
    /// Whether there is a build-script override table (unsupported).
    pub build_override: bool,
}

/// One `[profile.<name>]` table.
#[derive(Clone, Debug)]
pub struct ProfileTable {
    /// The profile's own settings.
    pub settings: ProfileSettings,
    /// Per-package overrides (`[profile.<name>.package.<spec>]`).
    pub package: Option<StrMap<ProfileSettings>>,
}

/// The optimization levels that there are.
pub open spec fn is_opt_level(s: Seq<char>) -> bool {
    s == "0"@ || s == "1"@ || s == "2"@ || s == "3"@ || s == "s"@ || s == "z"@
}

/// What an `opt-level` stands for; `place` names the table for the message.
pub open spec fn opt_level_of(v: OptLevelValue, place: Seq<char>) -> Result<Seq<char>, Seq<char>> {
    let expected = "; expected 0-3, \"s\", or \"z\""@;
    match v {
        OptLevelValue::Num(n) => if n > 3 {
            Err(place + " opt-level = "@ + decimal(n as nat) + expected)
        } else {
            Ok(decimal(n as nat))
        },
        OptLevelValue::Str(s) => if is_opt_level(s@) {
            Ok(s@)
        } else {
            Err(place + " opt-level = "@ + quoted(s@) + expected)
        },
    }
}

/// What a `debug` setting stands for.
pub open spec fn debug_of(v: DebugValue, place: Seq<char>, expected: Seq<char>) -> Result<
    bool,
    Seq<char>,
> {
    match v {
        DebugValue::Bool(b) => Ok(b),
        DebugValue::Num(n) => if n > 2 {
            Err(place + " debug = "@ + decimal(n as nat) + expected)
        } else {
            Ok(n > 0)
        },
        DebugValue::Str(s) => if s@ == "full"@ || s@ == "true"@ || s@ == "line-tables-only"@ {
            Ok(true)
        } else if s@ == "none"@ || s@ == "false"@ {
            Ok(false)
        } else {
            Err(place + " debug = "@ + quoted(s@) + expected)
        },
    }
}

/// What an `lto` setting stands for.
pub open spec fn lto_of(v: LtoValue, place: Seq<char>, expected: Seq<char>) -> Result<Lto, Seq<char>> {
    match v {
        LtoValue::Bool(b) => Ok(
            if b {
                Lto::Fat
            } else {
                Lto::Off
            },
        ),
        LtoValue::Str(s) => if s@ == "thin"@ {
            Ok(Lto::Thin)
        } else if s@ == "fat"@ || s@ == "true"@ {
            Ok(Lto::Fat)
        } else if s@ == "off"@ || s@ == "false"@ {
            Ok(Lto::Off)
        } else {
            Err(place + " lto = "@ + quoted(s@) + expected)
        },
    }
}

/// What a `panic` setting stands for.
pub open spec fn panic_of(s: Seq<char>, place: Seq<char>, package: bool) -> Result<
    PanicStrategy,
    Seq<char>,
> {
    if s == "unwind"@ {
        Ok(PanicStrategy::Unwind)
    } else if s == "abort"@ {
        Ok(PanicStrategy::Abort)
    } else if package {
        Err(place + " has invalid panic "@ + quoted(s))
    } else {
        Err(place + " panic = "@ + quoted(s) + "; expected \"unwind\" or \"abort\""@)
    }
}

/// The values that `debug` may have, for the message.
pub open spec fn debug_expected(package: bool) -> Seq<char> {
    if package {
        "; expected 0, 1, 2, \"full\", or \"none\""@
    } else {
        "; expected 0, 1, 2, \"full\", \"line-tables-only\", or \"none\""@
    }
}

/// The values that `lto` may have, for the message.
pub open spec fn lto_expected(package: bool) -> Seq<char> {
    if package {
        "; expected \"thin\", \"fat\", \"off\""@
    } else {
        "; expected \"thin\", \"fat\", \"off\", true, or false"@
    }
}

/// `strip` and `split-debuginfo` must be known words, in a profile's own settings
/// and in those of a package override.
pub open spec fn words_fault(s: ProfileSettings, place: Seq<char>) -> Option<Seq<char>> {
    let strip = opt_view(s.strip);
    let split = opt_view(s.split_debuginfo);
    if strip is Some && strip->0 != "none"@ && strip->0 != "debuginfo"@ && strip->0
        != "symbols"@ {
        Some(
            place + " strip = "@ + quoted(strip->0)
                + "; expected \"none\", \"debuginfo\", or \"symbols\""@,
        )
    } else if split is Some && split->0 != "none"@ && split->0 != "unpacked"@ && split->0
        != "packed"@ {
        Some(
            place + " split-debuginfo = "@ + quoted(split->0)
                + "; expected \"none\", \"unpacked\", or \"packed\""@,
        )
    } else {
        None
    }
}

/// Settings over a base profile: what is set overrides, the rest is the base's.
pub open spec fn merged(s: ProfileSettings, base: ProfileView, place: Seq<char>, package: bool) -> Result<
    ProfileView,
    Seq<char>,
> {
    let opt_level = match s.opt_level {
        Some(v) => opt_level_of(v, place),
        None => Ok(base.opt_level),
    };
    let debug = match s.debug {
        Some(v) => debug_of(v, place, debug_expected(package)),
        None => Ok(base.debug),
    };
    let lto = match s.lto {
        Some(v) => lto_of(v, place, lto_expected(package)),
        None => Ok(base.lto),
    };
    let panic = match s.panic {
        Some(v) => panic_of(v@, place, package),
        None => Ok(base.panic),
    };
    if opt_level is Err {
        Err(opt_level->Err_0)
    } else if debug is Err {
        Err(debug->Err_0)
    } else if lto is Err {
        Err(lto->Err_0)
    } else if panic is Err {
        Err(panic->Err_0)
    } else if words_fault(s, place) is Some {
        Err(words_fault(s, place)->0)
    } else {
        Ok(
            ProfileView {
                opt_level: opt_level->Ok_0,
                debug: debug->Ok_0,
                lto: lto->Ok_0,
                panic: panic->Ok_0,
                codegen_units: either(s.codegen_units, base.codegen_units),
                overflow_checks: either(s.overflow_checks, base.overflow_checks),
                debug_assertions: either(s.debug_assertions, base.debug_assertions),
                strip: either(opt_view(s.strip), base.strip),
                rpath: either(s.rpath, base.rpath),
                split_debuginfo: either(opt_view(s.split_debuginfo), base.split_debuginfo),
            },
        )
    }
}

/// The first value where there is one, else the second.
pub open spec fn either<A>(a: Option<A>, b: Option<A>) -> Option<A> {
    if a is Some {
        a
    } else {
        b
    }
}

/// How messages name a profile table.
pub open spec fn table_place(name: Seq<char>) -> Seq<char> {
    "profile "@ + quoted(name)
}

/// How messages name a package override.
pub open spec fn override_place(name: Seq<char>, package: Seq<char>) -> Seq<char> {
    "profile "@ + quoted(name) + " package override for "@ + quoted(package)
}

/// A package override over the profile's base.
pub open spec fn override_of(
    s: ProfileSettings,
    base: ProfileView,
    name: Seq<char>,
    package: Seq<char>,
) -> Result<ProfileView, Seq<char>> {
    let place = override_place(name, package);
    if s.inherits is Some {
        Err(place + " sets inherits"@)
    } else if s.codegen_backend is Some {
        Err(place + " sets codegen-backend"@)
    } else if s.build_override {
        Err(place + " sets build-override"@)
    } else {
        merged(s, base, place, true)
    }
}

/// The fault of the first faulty one among the first `n` package overrides.
pub open spec fn override_fault(
    package: StrMap<ProfileSettings>,
    base: ProfileView,
    name: Seq<char>,
    n: int,
) -> Option<Seq<char>>
    decreases n,
{
    if n <= 0 {
        None
    } else {
        let before = override_fault(package, base, name, n - 1);
        if before is Some {
            before
        } else {
            match override_of(package.values()[n - 1], base, name, package.keys()[n - 1]) {
                Ok(_) => None,
                Err(fault) => Some(fault),
            }
        }
    }
}

/// A profile table over its base.
pub open spec fn own_profile(table: ProfileTable, base: ProfileView, name: Seq<char>) -> Result<
    ProfileView,
    Seq<char>,
> {
    let place = table_place(name);
    let fault = match table.package {
        Some(package) => override_fault(package, base, name, package.keys().len() as int),
        None => None,
    };
    if table.settings.build_override {
        Err(place + " build-override is not supported"@)
    } else if fault is Some {
        Err(fault->0)
    } else if table.settings.codegen_backend is Some {
        Err(place + " codegen-backend is not supported"@)
    } else {
        merged(table.settings, base, place, false)
    }
}

/// The profile that a table inherits from: the one it names; else `release` for
/// `release` itself, and `dev` for every other.
pub open spec fn base_of(tables: StrMap<ProfileTable>, name: Seq<char>) -> Seq<char> {
    match tables@[name].settings.inherits {
        Some(base) => base@,
        None => if name == "release"@ {
            "release"@
        } else {
            "dev"@
        },
    }
}

/// Whether a profile is one of the two that need no table.
pub open spec fn built_in(name: Seq<char>) -> bool {
    name == "dev"@ || name == "release"@
}

/// The profile that a table's own settings apply to; `n` bounds the length of
/// the chain.
pub open spec fn base_profile(tables: StrMap<ProfileTable>, name: Seq<char>, n: nat) -> Result<
    ProfileView,
    Seq<char>,
>
    decreases n,
{
    let base = base_of(tables, name);
    if base == name && !built_in(name) {
        Err(table_place(name) + " inherits itself"@)
    } else if base == "dev"@ {
        Ok(dev_profile())
    } else if base == "release"@ {
        Ok(release_profile())
    } else if !tables@.contains_key(base) {
        Err(table_place(name) + " inherits unknown profile "@ + quoted(base))
    } else if n == 0 {
        Err(Seq::empty())
    } else {
        match base_profile(tables, base, (n - 1) as nat) {
            Ok(under) => own_profile(tables@[base], under, base),
            Err(fault) => Err(fault),
        }
    }
}

/// Whether the inheritance chain of a profile comes to an end within `n` steps:
/// at a built-in profile, or at a fault.
pub open spec fn chain_ends(tables: StrMap<ProfileTable>, name: Seq<char>, n: nat) -> bool
    decreases n,
{
    let base = base_of(tables, name);
    base == name || built_in(base) || !tables@.contains_key(base) || (n > 0 && chain_ends(
        tables,
        base,
        (n - 1) as nat,
    ))
}

/// Whether no profile inherits from itself by way of others.
pub open spec fn chains_end(tables: StrMap<ProfileTable>) -> bool {
    forall|name: Seq<char>| #[trigger]
        tables@.contains_key(name) ==> chain_ends(tables, name, tables.keys().len())
}

/// The profile of a table: its own settings over those it inherits.
pub open spec fn profile_of(tables: StrMap<ProfileTable>, name: Seq<char>) -> Result<
    ProfileView,
    Seq<char>,
> {
    match base_profile(tables, name, tables.keys().len()) {
        Ok(base) => own_profile(tables@[name], base, name),
        Err(fault) => Err(fault),
    }
}

/// The fault of the first faulty one among the first `n` tables.
pub open spec fn profiles_fault(tables: StrMap<ProfileTable>, n: int) -> Option<Seq<char>>
    decreases n,
{
    if n <= 0 {
        None
    } else {
        let before = profiles_fault(tables, n - 1);
        if before is Some {
            before
        } else {
            match profile_of(tables, tables.keys()[n - 1]) {
                Ok(_) => None,
                Err(fault) => Some(fault),
            }
        }
    }
}

/// Whether a table has package overrides.
pub open spec fn has_overrides(table: ProfileTable) -> bool {
    match table.package {
        Some(package) => package.keys().len() > 0,
        None => false,
    }
}

/// Whether these are the package overrides of a table over its base.
pub open spec fn overrides_are(
    r: StrMap<ProfileSpec>,
    table: ProfileTable,
    base: ProfileView,
    name: Seq<char>,
) -> bool {
    match table.package {
        Some(package) => {
            &&& r@.dom() == package@.dom()
            &&& forall|spec_name: Seq<char>| #[trigger]
                package@.contains_key(spec_name) ==> override_of(
                    package@[spec_name],
                    base,
                    name,
                    spec_name,
                ) == Ok::<ProfileView, Seq<char>>(r@[spec_name]@)
        },
        None => r@.dom() == Set::<Seq<char>>::empty(),
    }
}

fn opt_level(v: &OptLevelValue, place: &str) -> (r: Result<String, String>)
    ensures
        (match r {
            Ok(s) => Ok::<Seq<char>, Seq<char>>(s@),
            Err(e) => Err(e@),
        }) == opt_level_of(*v, place@),
{
    let expected = "; expected 0-3, \"s\", or \"z\"";
    match v {
        OptLevelValue::Num(n) => if *n > 3 {
            Err(cat4(place, " opt-level = ", u64_text(*n as u64).as_str(), expected))
        } else {
            Ok(u64_text(*n as u64))
        },
        OptLevelValue::Str(s) => {
            let t = s.as_str();
            if same(t, "0") || same(t, "1") || same(t, "2") || same(t, "3") || same(t, "s") || same(
                t,
                "z",
            ) {
                Ok(s.clone())
            } else {
                Err(cat4(place, " opt-level = ", quote(t).as_str(), expected))
            }
        },
    }
}

fn debug(v: &DebugValue, place: &str, expected: &str) -> (r: Result<bool, String>)
    ensures
        (match r {
            Ok(b) => Ok::<bool, Seq<char>>(b),
            Err(e) => Err(e@),
        }) == debug_of(*v, place@, expected@),
{
    match v {
        DebugValue::Bool(b) => Ok(*b),
        DebugValue::Num(n) => if *n > 2 {
            Err(cat4(place, " debug = ", u64_text(*n as u64).as_str(), expected))
        } else {
            Ok(*n > 0)
        },
        DebugValue::Str(s) => {
            let t = s.as_str();
            if same(t, "full") || same(t, "true") || same(t, "line-tables-only") {
                Ok(true)
            } else if same(t, "none") || same(t, "false") {
                Ok(false)
            } else {
                Err(cat4(place, " debug = ", quote(t).as_str(), expected))
            }
        },
    }
}

fn lto(v: &LtoValue, place: &str, expected: &str) -> (r: Result<Lto, String>)
    ensures
        (match r {
            Ok(l) => Ok::<Lto, Seq<char>>(l),
            Err(e) => Err(e@),
        }) == lto_of(*v, place@, expected@),
{
    match v {
        LtoValue::Bool(b) => if *b {
            Ok(Lto::Fat)
        } else {
            Ok(Lto::Off)
        },
        LtoValue::Str(s) => {
            let t = s.as_str();
            if same(t, "thin") {
                Ok(Lto::Thin)
            } else if same(t, "fat") || same(t, "true") {
                Ok(Lto::Fat)
            } else if same(t, "off") || same(t, "false") {
                Ok(Lto::Off)
            } else {
                Err(cat4(place, " lto = ", quote(t).as_str(), expected))
            }
        },
    }
}

fn panic_strategy(s: &str, place: &str, package: bool) -> (r: Result<PanicStrategy, String>)
    ensures
        (match r {
            Ok(p) => Ok::<PanicStrategy, Seq<char>>(p),
            Err(e) => Err(e@),
        }) == panic_of(s@, place@, package),
{
    if same(s, "unwind") {
        Ok(PanicStrategy::Unwind)
    } else if same(s, "abort") {
        Ok(PanicStrategy::Abort)
    } else if package {
        Err(cat3(place, " has invalid panic ", quote(s).as_str()))
    } else {
        Err(cat4(place, " panic = ", quote(s).as_str(), "; expected \"unwind\" or \"abort\""))
    }
}

/// The text of a fault among the words of a profile.
fn check_words(s: &ProfileSettings, place: &str) -> (r: Option<String>)
    ensures
        opt_view(r) == words_fault(*s, place@),
{
    if let Some(strip) = &s.strip {
        let t = strip.as_str();
        if !same(t, "none") && !same(t, "debuginfo") && !same(t, "symbols") {
            return Some(
                cat4(
                    place,
                    " strip = ",
                    quote(t).as_str(),
                    "; expected \"none\", \"debuginfo\", or \"symbols\"",
                ),
            );
        }
    }
    if let Some(split) = &s.split_debuginfo {
        let t = split.as_str();
        if !same(t, "none") && !same(t, "unpacked") && !same(t, "packed") {
            return Some(
                cat4(
                    place,
                    " split-debuginfo = ",
                    quote(t).as_str(),
                    "; expected \"none\", \"unpacked\", or \"packed\"",
                ),
            );
        }
    }
    None
}

/// What a profile or a message is.
pub open spec fn profile_result(r: Result<ProfileSpec, String>) -> Result<ProfileView, Seq<char>> {
    match r {
        Ok(p) => Ok(p@),
        Err(e) => Err(e@),
    }
}

/// The first value where there is one, else the second.
fn pick<T: Copy>(a: Option<T>, b: Option<T>) -> (r: Option<T>)
    ensures
        r == either(a, b),
{
    match a {
        Some(_) => a,
        None => b,
    }
}

/// The first text where there is one, else the second.
fn pick_text(a: &Option<String>, b: &Option<String>) -> (r: Option<String>)
    ensures
        opt_view(r) == either(opt_view(*a), opt_view(*b)),
{
    match a {
        Some(_) => copy_opt(a),
        None => copy_opt(b),
    }
}

fn merge(s: &ProfileSettings, base: &ProfileSpec, place: &str, package: bool) -> (r: Result<
    ProfileSpec,
    String,
>)
    ensures
        profile_result(r) == merged(*s, base@, place@, package),
{
    let opt_level = match &s.opt_level {
        Some(v) => match opt_level(v, place) {
            Ok(text) => text,
            Err(e) => return Err(e),
        },
        None => base.opt_level.clone(),
    };
    let debug = match &s.debug {
        Some(v) => {
            let expected = if package {
                "; expected 0, 1, 2, \"full\", or \"none\""
            } else {
                "; expected 0, 1, 2, \"full\", \"line-tables-only\", or \"none\""
            };
            match debug(v, place, expected) {
                Ok(b) => b,
                Err(e) => return Err(e),
            }
        },
        None => base.debug,
    };
    let lto = match &s.lto {
        Some(v) => {
            let expected = if package {
                "; expected \"thin\", \"fat\", \"off\""
            } else {
                "; expected \"thin\", \"fat\", \"off\", true, or false"
            };
            match lto(v, place, expected) {
                Ok(l) => l,
                Err(e) => return Err(e),
            }
        },
        None => base.lto,
    };
    let panic = match &s.panic {
        Some(v) => match panic_strategy(v.as_str(), place, package) {
            Ok(p) => p,
            Err(e) => return Err(e),
        },
        None => base.panic,
    };
    if let Some(fault) = check_words(s, place) {
        return Err(fault);
    }
    Ok(
        ProfileSpec {
            opt_level,
            debug,
            lto,
            panic,
            codegen_units: pick(s.codegen_units, base.codegen_units),
            overflow_checks: pick(s.overflow_checks, base.overflow_checks),
            debug_assertions: pick(s.debug_assertions, base.debug_assertions),
            strip: pick_text(&s.strip, &base.strip),
            rpath: pick(s.rpath, base.rpath),
            split_debuginfo: pick_text(&s.split_debuginfo, &base.split_debuginfo),
        },
    )
}

fn resolve_override(s: &ProfileSettings, base: &ProfileSpec, name: &str, package: &str) -> (r: Result<
    ProfileSpec,
    String,
>)
    ensures
        profile_result(r) == override_of(*s, base@, name@, package@),
{
    let place = cat4(
        "profile ",
        quote(name).as_str(),
        " package override for ",
        quote(package).as_str(),
    );
    if s.inherits.is_some() {
        return Err(cat(place.as_str(), " sets inherits"));
    }
    if s.codegen_backend.is_some() {
        return Err(cat(place.as_str(), " sets codegen-backend"));
    }
    if s.build_override {
        return Err(cat(place.as_str(), " sets build-override"));
    }
    merge(s, base, place.as_str(), true)
}

/// A table's own profile, and its package overrides.
fn resolve_own(table: &ProfileTable, base: &ProfileSpec, name: &str) -> (r: Result<
    (ProfileSpec, StrMap<ProfileSpec>),
    String,
>)
    ensures
        match r {
            Ok((p, overrides)) => own_profile(*table, base@, name@) == Ok::<ProfileView, Seq<char>>(
                p@,
            ) && overrides_are(overrides, *table, base@, name@),
            Err(e) => own_profile(*table, base@, name@) == Err::<ProfileView, Seq<char>>(e@),
        },
{
    let place = cat("profile ", quote(name).as_str());
    if table.settings.build_override {
        return Err(cat(place.as_str(), " build-override is not supported"));
    }
    let mut overrides: StrMap<ProfileSpec> = StrMap::new();
    if let Some(package) = &table.package {
        let n = package.len();
        let mut i: usize = 0;
        while i < n
            invariant
                i <= n,
                n == package.keys().len(),
                n == package.values().len(),
                table.package == Some(*package),
                !table.settings.build_override,
                override_fault(*package, base@, name@, i as int) is None,
                forall|k: Seq<char>| #[trigger]
                    overrides@.contains_key(k) <==> exists|j: int|
                        0 <= j < i && #[trigger] package.keys()[j] == k,
                forall|j: int|
                    0 <= j < i ==> override_of(
                        package.values()[j],
                        base@,
                        name@,
                        #[trigger] package.keys()[j],
                    ) == Ok::<ProfileView, Seq<char>>(overrides@[package.keys()[j]]@),
                forall|j: int, k: int|
                    0 <= j < k < n ==> #[trigger] package.keys()[j] != #[trigger] package.keys()[k],
            decreases n - i,
        {
            let spec_name = package.key(i);
            match resolve_override(package.value(i), base, name, spec_name.as_str()) {
                Ok(p) => {
                    let ghost before = overrides@;
                    overrides.insert(spec_name.clone(), p);
                    proof {
                        assert forall|k: Seq<char>| #[trigger]
                            overrides@.contains_key(k) <==> exists|j: int|
                            0 <= j < i + 1 && #[trigger] package.keys()[j] == k by {
                            if before.contains_key(k) {
                                let j = choose|j: int|
                                    0 <= j < i && #[trigger] package.keys()[j] == k;
                                assert(0 <= j < i + 1 && package.keys()[j] == k);
                            }
                            assert(package.keys()[i as int] == spec_name@);
                        }
                    }
                },
                Err(e) => {
                    proof {
                        lemma_override_fault(
                            *package,
                            base@,
                            name@,
                            i as int + 1,
                            n as int,
                        );
                    }
                    return Err(e);
                },
            }
            i += 1;
        }
        proof {
            assert(overrides@.dom() =~= package@.dom());
            assert forall|spec_name: Seq<char>| #[trigger]
                package@.contains_key(spec_name) implies override_of(
                package@[spec_name],
                base@,
                name@,
                spec_name,
            ) == Ok::<ProfileView, Seq<char>>(overrides@[spec_name]@) by {
                let j = choose|j: int|
                    0 <= j < package.keys().len() && package.keys()[j] == spec_name;
                assert(package@.contains_key(package.keys()[j]));
            }
        }
    } else {
        assert(overrides@.dom() =~= Set::<Seq<char>>::empty());
    }
    if table.settings.codegen_backend.is_some() {
        return Err(cat(place.as_str(), " codegen-backend is not supported"));
    }
    match merge(&table.settings, base, place.as_str(), false) {
        Ok(p) => Ok((p, overrides)),
        Err(e) => Err(e),
    }
}

/// A fault among the first overrides is the fault of all.
proof fn lemma_override_fault(
    package: StrMap<ProfileSettings>,
    base: ProfileView,
    name: Seq<char>,
    a: int,
    b: int,
)
    requires
        a <= b,
        override_fault(package, base, name, a) is Some,
    ensures
        override_fault(package, base, name, b) == override_fault(package, base, name, a),
    decreases b,
{
    if a < b {
        lemma_override_fault(package, base, name, a, b - 1);
    }
}


/// Whether a name is that of a built-in profile.
fn is_built_in(name: &str) -> (r: bool)
    ensures
        r == built_in(name@),
{
    same(name, "dev") || same(name, "release")
}

/// The profile that the table `name` inherits from.
fn base_name(tables: &StrMap<ProfileTable>, name: &str) -> (r: String)
    requires
        tables@.contains_key(name@),
    ensures
        r@ == base_of(*tables, name@),
{
    match tables.get(name) {
        Some(table) => match &table.settings.inherits {
            Some(base) => base.clone(),
            None => if same(name, "release") {
                owned("release")
            } else {
                owned("dev")
            },
        },
        None => owned("dev"),
    }
}

/// Whether the inheritance chain of a profile ends within `n` steps.
fn check_chain(tables: &StrMap<ProfileTable>, name: &str, n: usize) -> (r: bool)
    requires
        tables@.contains_key(name@),
    ensures
        r == chain_ends(*tables, name@, n as nat),
    decreases n,
{
    let base = base_name(tables, name);
    if same(base.as_str(), name) || is_built_in(base.as_str()) || !tables.contains_key(
        base.as_str(),
    ) {
        true
    } else if n == 0 {
        false
    } else {
        check_chain(tables, base.as_str(), n - 1)
    }
}

/// Whether no profile inherits from itself by way of others; a circle of
/// profiles has no settings to resolve.
pub fn profile_chains_end(tables: &StrMap<ProfileTable>) -> (r: bool)
    ensures
        r == chains_end(*tables),
{
    let n = tables.len();
    let mut i: usize = 0;
    while i < n
        invariant
            i <= n,
            n == tables.keys().len(),
            forall|j: int|
                0 <= j < i ==> chain_ends(*tables, #[trigger] tables.keys()[j], n as nat),
        decreases n - i,
    {
        if !check_chain(tables, tables.key(i).as_str(), n) {
            return false;
        }
        i += 1;
    }
    proof {
        assert forall|name: Seq<char>| #[trigger] tables@.contains_key(name) implies chain_ends(
            *tables,
            name,
            n as nat,
        ) by {
            let j = choose|j: int| 0 <= j < tables.keys().len() && tables.keys()[j] == name;
            assert(chain_ends(*tables, tables.keys()[j], n as nat));
        }
    }
    true
}

/// The profile that the settings of the table `name` apply to.
fn resolve_profile_chain(tables: &StrMap<ProfileTable>, name: &str, n: usize) -> (r: Result<
    ProfileSpec,
    String,
>)
    requires
        tables@.contains_key(name@),
        chain_ends(*tables, name@, n as nat),
    ensures
        profile_result(r) == base_profile(*tables, name@, n as nat),
    decreases n,
{
    let base = base_name(tables, name);
    let b = base.as_str();
    if same(b, name) && !is_built_in(name) {
        return Err(cat3("profile ", quote(name).as_str(), " inherits itself"));
    }
    if same(b, "dev") {
        return Ok(ProfileSpec::dev());
    }
    if same(b, "release") {
        return Ok(ProfileSpec::release());
    }
    match tables.get(b) {
        None => Err(
            cat4(
                "profile ",
                quote(name).as_str(),
                " inherits unknown profile ",
                quote(b).as_str(),
            ),
        ),
        Some(table) => match resolve_profile_chain(tables, b, n - 1) {
            Ok(under) => match resolve_own(table, &under, b) {
                Ok((p, _)) => Ok(p),
                Err(e) => Err(e),
            },
            Err(e) => Err(e),
        },
    }
}

/// Resolves the profile tables: the named profiles, and for each profile with
/// per-package overrides what the named packages compile with instead.
///
/// Every profile inherits `dev` unless `inherits` names another; `release`
/// keeps its own defaults. The built-in `dev` and `release` are roots: who
/// inherits them gets their defaults.
pub fn resolve_profiles(tables: &StrMap<ProfileTable>) -> (r: Result<
    (StrMap<ProfileSpec>, StrMap<StrMap<ProfileSpec>>),
    String,
>)
    requires
        chains_end(*tables),
    ensures
        match r {
            Ok((profiles, overrides)) => {
                &&& profiles_fault(*tables, tables.keys().len() as int) is None
                &&& profiles@.dom() == tables@.dom()
                &&& forall|name: Seq<char>| #[trigger]
                    tables@.contains_key(name) ==> profile_of(*tables, name) == Ok::<
                        ProfileView,
                        Seq<char>,
                    >(profiles@[name]@)
                &&& forall|name: Seq<char>| #[trigger]
                    overrides@.contains_key(name) <==> tables@.contains_key(name) && has_overrides(
                        tables@[name],
                    )
                &&& forall|name: Seq<char>| #[trigger]
                    overrides@.contains_key(name) ==> overrides_are(
                        overrides@[name],
                        tables@[name],
                        base_profile(*tables, name, tables.keys().len())->Ok_0,
                        name,
                    )
            },
            Err(e) => profiles_fault(*tables, tables.keys().len() as int) == Some(e@),
        },
{
    let n = tables.len();
    let mut profiles: StrMap<ProfileSpec> = StrMap::new();
    let mut overrides: StrMap<StrMap<ProfileSpec>> = StrMap::new();
    let mut i: usize = 0;
    while i < n
        invariant
            i <= n,
            n == tables.keys().len(),
            n == tables.values().len(),
            chains_end(*tables),
            tables.keys().no_duplicates(),
            profiles_fault(*tables, i as int) is None,
            forall|k: Seq<char>| #[trigger]
                profiles@.contains_key(k) <==> exists|j: int|
                    0 <= j < i && #[trigger] tables.keys()[j] == k,
            forall|j: int|
                0 <= j < i ==> profile_of(*tables, #[trigger] tables.keys()[j]) == Ok::<
                    ProfileView,
                    Seq<char>,
                >(profiles@[tables.keys()[j]]@),
            forall|k: Seq<char>| #[trigger]
                overrides@.contains_key(k) <==> profiles@.contains_key(k) && has_overrides(
                    tables@[k],
                ),
            forall|k: Seq<char>| #[trigger]
                overrides@.contains_key(k) ==> overrides_are(
                    overrides@[k],
                    tables@[k],
                    base_profile(*tables, k, n as nat)->Ok_0,
                    k,
                ),
        decreases n - i,
    {
        let name = tables.key(i);
        let table = tables.value(i);
        assert(tables@.contains_key(name@));
        match resolve_profile_chain(tables, name.as_str(), n) {
            Ok(base) => match resolve_own(table, &base, name.as_str()) {
                Ok((p, own)) => {
                    let ghost before = profiles@;
                    let ghost before_over = overrides@;
                    profiles.insert(name.clone(), p);
                    let mut any = false;
                    if let Some(package) = &table.package {
                        any = package.len() > 0;
                    }
                    if any {
                        overrides.insert(name.clone(), own);
                    }
                    proof {
                        assert(tables.keys()[i as int] == name@);
                        assert(!before.contains_key(name@));
                        assert forall|k: Seq<char>| #[trigger]
                            profiles@.contains_key(k) <==> exists|j: int|
                            0 <= j < i + 1 && #[trigger] tables.keys()[j] == k by {
                            if before.contains_key(k) {
                                let j = choose|j: int|
                                    0 <= j < i && #[trigger] tables.keys()[j] == k;
                                assert(0 <= j < i + 1 && tables.keys()[j] == k);
                            }
                        }
                        assert forall|j: int| 0 <= j < i + 1 implies profile_of(
                            *tables,
                            #[trigger] tables.keys()[j],
                        ) == Ok::<ProfileView, Seq<char>>(profiles@[tables.keys()[j]]@) by {
                            if j < i {
                                assert(tables.keys()[j] != tables.keys()[i as int]);
                            }
                        }
                        assert(any == has_overrides(*table));
                        assert(*table == tables@[name@]);
                    }
                },
                Err(e) => {
                    proof {
                        lemma_profiles_fault(*tables, i as int + 1, n as int);
                    }
                    return Err(e);
                },
            },
            Err(e) => {
                proof {
                    lemma_profiles_fault(*tables, i as int + 1, n as int);
                }
                return Err(e);
            },
        }
        i += 1;
    }
    proof {
        assert(profiles@.dom() =~= tables@.dom());
        assert forall|name: Seq<char>| #[trigger] tables@.contains_key(name) implies profile_of(
            *tables,
            name,
        ) == Ok::<ProfileView, Seq<char>>(profiles@[name]@) by {
            let j = choose|j: int| 0 <= j < tables.keys().len() && tables.keys()[j] == name;
            assert(profile_of(*tables, tables.keys()[j]) is Ok);
        }
    }
    Ok((profiles, overrides))
}

/// A fault among the first tables is the fault of all.
proof fn lemma_profiles_fault(tables: StrMap<ProfileTable>, a: int, b: int)
    requires
        a <= b,
        profiles_fault(tables, a) is Some,
    ensures
        profiles_fault(tables, b) == profiles_fault(tables, a),
    decreases b,
{
    if a < b {
        lemma_profiles_fault(tables, a, b - 1);
    }
}

/// A table without settings of its own is its base.
pub proof fn empty_settings_keep_the_base(s: ProfileSettings, base: ProfileView, place: Seq<char>)
    requires
        s.opt_level is None,
        s.debug is None,
        s.lto is None,
        s.panic is None,
        s.codegen_units is None,
        s.overflow_checks is None,
        s.debug_assertions is None,
        s.strip is None,
        s.rpath is None,
        s.split_debuginfo is None,
    ensures
        merged(s, base, place, false) == Ok::<ProfileView, Seq<char>>(base),
        merged(s, base, place, true) == Ok::<ProfileView, Seq<char>>(base),
{
}

/// A longer bound on a chain that ends changes nothing.
pub proof fn chain_bound_is_irrelevant(tables: StrMap<ProfileTable>, name: Seq<char>, n: nat, k: nat)
    requires
        chain_ends(tables, name, n),
        n <= k,
    ensures
        chain_ends(tables, name, k),
        base_profile(tables, name, k) == base_profile(tables, name, n),
    decreases n,
{
    let base = base_of(tables, name);
    if !(base == name || built_in(base) || !tables@.contains_key(base)) {
        chain_bound_is_irrelevant(tables, base, (n - 1) as nat, (k - 1) as nat);
    }
}

/// The profile of a table is its own settings over the profile of the table it
/// inherits from.
pub proof fn profiles_inherit(tables: StrMap<ProfileTable>, name: Seq<char>)
    requires
        chains_end(tables),
        tables@.contains_key(name),
        tables@.contains_key(base_of(tables, name)),
        base_of(tables, name) != name,
        !built_in(base_of(tables, name)),
    ensures
        profile_of(tables, name) == (match profile_of(tables, base_of(tables, name)) {
            Ok(base) => own_profile(tables@[name], base, name),
            Err(fault) => Err::<ProfileView, Seq<char>>(fault),
        }),
{
    let n = tables.keys().len();
    let base = base_of(tables, name);
    assert(chain_ends(tables, name, n));
    assert(n > 0);
    chain_bound_is_irrelevant(tables, base, (n - 1) as nat, n);
}

/// Whether a profile's words are those that there are: for `opt-level`, `strip`
/// and `split-debuginfo`.
pub open spec fn allowed(p: ProfileView) -> bool {
    &&& is_opt_level(p.opt_level)
    &&& p.strip is None || p.strip == Some("none"@) || p.strip == Some("debuginfo"@) || p.strip
        == Some("symbols"@)
    &&& p.split_debuginfo is None || p.split_debuginfo == Some("none"@) || p.split_debuginfo
        == Some("unpacked"@) || p.split_debuginfo == Some("packed"@)
}

proof fn lemma_merged_allowed(s: ProfileSettings, base: ProfileView, place: Seq<char>, package: bool)
    requires
        allowed(base),
    ensures
        merged(s, base, place, package) matches Ok(p) ==> allowed(p),
{
    if let Some(OptLevelValue::Num(n)) = s.opt_level {
        reveal_with_fuel(decimal, 2);
        reveal_strlit("0");
        reveal_strlit("1");
        reveal_strlit("2");
        reveal_strlit("3");
        if n <= 3 {
            assert(decimal(0) =~= "0"@);
            assert(decimal(1) =~= "1"@);
            assert(decimal(2) =~= "2"@);
            assert(decimal(3) =~= "3"@);
        }
    }
}

proof fn lemma_base_allowed(tables: StrMap<ProfileTable>, name: Seq<char>, n: nat)
    ensures
        base_profile(tables, name, n) matches Ok(p) ==> allowed(p),
    decreases n,
{
    let base = base_of(tables, name);
    if n > 0 {
        lemma_base_allowed(tables, base, (n - 1) as nat);
        if let Ok(under) = base_profile(tables, base, (n - 1) as nat) {
            if tables@.contains_key(base) {
                lemma_merged_allowed(tables@[base].settings, under, table_place(base), false);
            }
        }
    }
}

/// Every resolved profile has an allowed `opt-level`, `strip` and
/// `split-debuginfo`, and so has every package override.
pub proof fn resolved_profiles_are_allowed(
    tables: StrMap<ProfileTable>,
    name: Seq<char>,
    package: Seq<char>,
    settings: ProfileSettings,
)
    ensures
        profile_of(tables, name) matches Ok(p) ==> allowed(p),
        base_profile(tables, name, tables.keys().len()) matches Ok(base) ==> (override_of(
            settings,
            base,
            name,
            package,
        ) matches Ok(p) ==> allowed(p)),
{
    let n = tables.keys().len();
    lemma_base_allowed(tables, name, n);
    if let Ok(base) = base_profile(tables, name, n) {
        lemma_merged_allowed(tables@[name].settings, base, table_place(name), false);
        lemma_merged_allowed(settings, base, override_place(name, package), true);
    }
}

/// One note for every profile and every package override that asks for
/// incremental compilation, which stays off.
pub fn incremental_notes(tables: &StrMap<ProfileTable>) -> (r: Vec<String>)
    ensures
        texts(r@) == notes_upto(*tables, tables.keys().len() as int),
{
    let n = tables.len();
    let mut out: Vec<String> = Vec::new();
    assert(texts(out@) =~= Seq::<Seq<char>>::empty());
    let mut i: usize = 0;
    while i < n
        invariant
            i <= n,
            n == tables.keys().len(),
            n == tables.values().len(),
            texts(out@) == notes_upto(*tables, i as int),
        decreases n - i,
    {
        let name = tables.key(i).as_str();
        let table = tables.value(i);
        if let Some(package) = &table.package {
            let k = package.len();
            let ghost start = texts(out@);
            let mut j: usize = 0;
            assert(start =~= start + override_notes(*package, name@, 0));
            while j < k
                invariant
                    j <= k,
                    k == package.keys().len(),
                    k == package.values().len(),
                    texts(out@) == start + override_notes(*package, name@, j as int),
                decreases k - j,
            {
                if let Some(true) = package.value(j).incremental {
                    push_string(
                        &mut out,
                        cat5(
                            "profile ",
                            quote(name).as_str(),
                            " package override for ",
                            quote(package.key(j).as_str()).as_str(),
                            " requests incremental compilation, which Tong keeps disabled",
                        ),
                    );
                    assert(texts(out@) =~= start + override_notes(*package, name@, j as int + 1));
                }
                j += 1;
            }
        } else {
            assert(texts(out@) =~= texts(out@) + Seq::<Seq<char>>::empty());
        }
        if let Some(true) = table.settings.incremental {
            push_string(
                &mut out,
                cat3(
                    "profile ",
                    quote(name).as_str(),
                    " requests incremental compilation, which Tong keeps disabled for cacheability",
                ),
            );
        }
        i += 1;
    }
    out
}

/// The notes on the first `n` package overrides of a profile.
pub open spec fn override_notes(package: StrMap<ProfileSettings>, name: Seq<char>, n: int) -> Seq<
    Seq<char>,
>
    decreases n,
{
    if n <= 0 {
        Seq::empty()
    } else {
        let before = override_notes(package, name, n - 1);
        if package.values()[n - 1].incremental == Some(true) {
            before.push(
                override_place(name, package.keys()[n - 1])
                    + " requests incremental compilation, which Tong keeps disabled"@,
            )
        } else {
            before
        }
    }
}

/// The notes on the first `n` profiles.
pub open spec fn notes_upto(tables: StrMap<ProfileTable>, n: int) -> Seq<Seq<char>>
    decreases n,
{
    if n <= 0 {
        Seq::empty()
    } else {
        let name = tables.keys()[n - 1];
        let table = tables.values()[n - 1];
        let overrides = match table.package {
            Some(package) => override_notes(package, name, package.keys().len() as int),
            None => Seq::empty(),
        };
        let before = notes_upto(tables, n - 1) + overrides;
        if table.settings.incremental == Some(true) {
            before.push(
                table_place(name)
                    + " requests incremental compilation, which Tong keeps disabled for cacheability"@,
            )
        } else {
            before
        }
    }
}

} // verus!
