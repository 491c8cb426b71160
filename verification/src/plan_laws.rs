//! What tells the units of a build apart.

use vstd::prelude::*;
use vstd::string::*;
use crate::model::{
    crate_type_text, lock_source_text, CrateType, Package, PackageIdView, RustModel, SourceView,
};
use crate::plan::{
    all_bins, all_libs, all_targets, all_tests, bin_targets, crate_targets, example_targets,
    lib_targets, script_targets, side_targets, target_id, test_kind, test_targets, unit_is, Target,
    Unit,
};
use crate::text::{decimal, digit};
use crate::units::{label_of, label_suffix, shares_name, side_suffix, Planner};
use crate::version::{version_text, VersionView};

verus! {

// ---- Texts that a character splits ------------------------------------------------

proof fn lemma_first(a: Seq<char>, b: Seq<char>, x: Seq<char>, y: Seq<char>, c: char)
    requires
        a + seq![c] + b == x + seq![c] + y,
        !a.contains(c),
        !x.contains(c),
    ensures
        a == x,
        b == y,
{
    let s = a + seq![c] + b;
    assert(s[a.len() as int] == c);
    assert(s[x.len() as int] == c) by {
        assert((x + seq![c] + y)[x.len() as int] == c);
    }
    if a.len() < x.len() {
        assert(x[a.len() as int] == (x + seq![c] + y)[a.len() as int]);
    } else if x.len() < a.len() {
        assert(a[x.len() as int] == s[x.len() as int]);
    }
    assert(a =~= s.take(a.len() as int));
    assert(x =~= (x + seq![c] + y).take(x.len() as int));
    assert(b =~= s.skip(a.len() as int + 1));
    assert(y =~= (x + seq![c] + y).skip(x.len() as int + 1));
}

proof fn lemma_last(a: Seq<char>, b: Seq<char>, x: Seq<char>, y: Seq<char>, c: char)
    requires
        a + seq![c] + b == x + seq![c] + y,
        !b.contains(c),
        !y.contains(c),
    ensures
        a == x,
        b == y,
{
    let s = a + seq![c] + b;
    let t = x + seq![c] + y;
    assert(s[a.len() as int] == c);
    assert(t[x.len() as int] == c);
    assert(s.len() == a.len() + 1 + b.len());
    assert(t.len() == x.len() + 1 + y.len());
    if a.len() < x.len() {
        assert(b[x.len() - a.len() - 1] == s[x.len() as int]);
    } else if x.len() < a.len() {
        assert(y[a.len() - x.len() - 1] == t[a.len() as int]);
    }
    assert(a =~= s.take(a.len() as int));
    assert(x =~= t.take(x.len() as int));
    assert(b =~= s.skip(a.len() as int + 1));
    assert(y =~= t.skip(x.len() as int + 1));
}

proof fn lemma_holds(a: Seq<char>, b: Seq<char>, c: char)
    ensures
        (a + b).contains(c) <==> a.contains(c) || b.contains(c),
{
    if a.contains(c) {
        let k = choose|k: int| 0 <= k < a.len() && a[k] == c;
        assert((a + b)[k] == c);
    }
    if b.contains(c) {
        let k = choose|k: int| 0 <= k < b.len() && b[k] == c;
        assert((a + b)[a.len() + k] == c);
    }
}

// ---- Versions ---------------------------------------------------------------------

proof fn lemma_decimal_digits(n: nat, c: char)
    requires
        decimal(n).contains(c),
    ensures
        '0' as int <= c as int <= '9' as int,
    decreases n,
{
    if n >= 10 {
        if c != digit(n % 10) {
            let k = choose|k: int| 0 <= k < decimal(n).len() && decimal(n)[k] == c;
            assert(decimal(n / 10)[k] == c);
            lemma_decimal_digits(n / 10, c);
        }
    }
}

proof fn lemma_decimal_injective(a: nat, b: nat)
    requires
        decimal(a) == decimal(b),
    ensures
        a == b,
    decreases a,
{
    assert(decimal(a).last() == digit(a % 10));
    assert(decimal(b).last() == digit(b % 10));
    assert(decimal(a / 10).len() > 0 && decimal(b / 10).len() > 0);
    if a >= 10 && b >= 10 {
        assert(decimal(a).drop_last() =~= decimal(a / 10));
        assert(decimal(b).drop_last() =~= decimal(b / 10));
        lemma_decimal_injective(a / 10, b / 10);
    }
}

spec fn core_text(v: VersionView) -> Seq<char> {
    decimal(v.major as nat) + seq!['.'] + decimal(v.minor as nat) + seq!['.'] + decimal(
        v.patch as nat,
    )
}

spec fn released_text(v: VersionView) -> Seq<char> {
    if v.pre.len() > 0 {
        core_text(v) + seq!['-'] + v.pre
    } else {
        core_text(v)
    }
}

proof fn lemma_version_text(v: VersionView)
    ensures
        version_text(v) == (if v.build.len() > 0 {
            released_text(v) + seq!['+'] + v.build
        } else {
            released_text(v)
        }),
{
    reveal_strlit(".");
    reveal_strlit("-");
    reveal_strlit("+");
    assert("."@ =~= seq!['.']);
    assert("-"@ =~= seq!['-']);
    assert("+"@ =~= seq!['+']);
}

proof fn lemma_core_holds(v: VersionView, c: char)
    requires
        c == '-' || c == '+' || c == '#',
    ensures
        !core_text(v).contains(c),
{
    let a = decimal(v.major as nat);
    let b = decimal(v.minor as nat);
    let p = decimal(v.patch as nat);
    if a.contains(c) {
        lemma_decimal_digits(v.major as nat, c);
    }
    if b.contains(c) {
        lemma_decimal_digits(v.minor as nat, c);
    }
    if p.contains(c) {
        lemma_decimal_digits(v.patch as nat, c);
    }
    lemma_holds(a, seq!['.'], c);
    lemma_holds(a + seq!['.'], b, c);
    lemma_holds(a + seq!['.'] + b, seq!['.'], c);
    lemma_holds(a + seq!['.'] + b + seq!['.'], p, c);
}

proof fn lemma_core_injective(v: VersionView, w: VersionView)
    requires
        core_text(v) == core_text(w),
    ensures
        v.major == w.major,
        v.minor == w.minor,
        v.patch == w.patch,
{
    let (a, b, p) = (decimal(v.major as nat), decimal(v.minor as nat), decimal(v.patch as nat));
    let (x, y, q) = (decimal(w.major as nat), decimal(w.minor as nat), decimal(w.patch as nat));
    if a.contains('.') {
        lemma_decimal_digits(v.major as nat, '.');
    }
    if x.contains('.') {
        lemma_decimal_digits(w.major as nat, '.');
    }
    if p.contains('.') {
        lemma_decimal_digits(v.patch as nat, '.');
    }
    if q.contains('.') {
        lemma_decimal_digits(w.patch as nat, '.');
    }
    lemma_last(a + seq!['.'] + b, p, x + seq!['.'] + y, q, '.');
    lemma_first(a, b, x, y, '.');
    lemma_decimal_injective(v.major as nat, w.major as nat);
    lemma_decimal_injective(v.minor as nat, w.minor as nat);
    lemma_decimal_injective(v.patch as nat, w.patch as nat);
}

/// Whether a version's labels hold no character that ends them, as semantic
/// versions do not.
pub open spec fn plain_version(v: VersionView) -> bool {
    &&& !v.pre.contains('+')
    &&& !v.pre.contains('#')
    &&& !v.build.contains('#')
}

proof fn lemma_released_holds(v: VersionView, c: char)
    requires
        plain_version(v),
        c == '+' || c == '#',
    ensures
        !released_text(v).contains(c),
{
    lemma_core_holds(v, c);
    lemma_holds(core_text(v), seq!['-'], c);
    lemma_holds(core_text(v) + seq!['-'], v.pre, c);
}

proof fn lemma_version_holds(v: VersionView)
    requires
        plain_version(v),
    ensures
        !version_text(v).contains('#'),
{
    lemma_version_text(v);
    lemma_released_holds(v, '#');
    lemma_holds(released_text(v), seq!['+'], '#');
    lemma_holds(released_text(v) + seq!['+'], v.build, '#');
}

proof fn lemma_released_injective(v: VersionView, w: VersionView)
    requires
        released_text(v) == released_text(w),
    ensures
        v.major == w.major,
        v.minor == w.minor,
        v.patch == w.patch,
        v.pre == w.pre,
{
    lemma_core_holds(v, '-');
    lemma_core_holds(w, '-');
    if v.pre.len() > 0 {
        assert(released_text(v)[core_text(v).len() as int] == '-');
        assert(w.pre.len() > 0);
        lemma_first(core_text(v), v.pre, core_text(w), w.pre, '-');
    } else {
        if w.pre.len() > 0 {
            assert(released_text(w)[core_text(w).len() as int] == '-');
        }
        assert(v.pre =~= w.pre);
    }
    lemma_core_injective(v, w);
}

/// Versions are written apart: those with the same text are the same.
pub proof fn version_texts_differ(v: VersionView, w: VersionView)
    requires
        plain_version(v),
        plain_version(w),
        v != w,
    ensures
        version_text(v) != version_text(w),
{
    if version_text(v) == version_text(w) {
        lemma_version_text(v);
        lemma_version_text(w);
        lemma_released_holds(v, '+');
        lemma_released_holds(w, '+');
        if v.build.len() > 0 {
            assert(version_text(v)[released_text(v).len() as int] == '+');
            assert(w.build.len() > 0);
            lemma_first(released_text(v), v.build, released_text(w), w.build, '+');
        } else {
            if w.build.len() > 0 {
                assert(version_text(w)[released_text(w).len() as int] == '+');
            }
            assert(v.build =~= w.build);
        }
        lemma_released_injective(v, w);
    }
}

// ---- Packages ---------------------------------------------------------------------

spec fn source_word(source: SourceView) -> Seq<char> {
    match source {
        SourceView::Workspace(_) => "workspace"@,
        SourceView::Path(_) => "path"@,
        SourceView::Registry(_) => "registry"@,
        SourceView::Git { .. } => "git"@,
    }
}

spec fn source_rest(source: SourceView) -> Seq<char> {
    match source {
        SourceView::Workspace(rel) => rel,
        SourceView::Path(rel) => rel,
        SourceView::Registry(url) => url,
        SourceView::Git { url, rev } => url + seq!['#'] + rev,
    }
}

spec fn source_text(source: SourceView) -> Seq<char> {
    match source {
        SourceView::Workspace(rel) => "workspace+"@ + rel,
        other => lock_source_text(other),
    }
}

proof fn lemma_source_text(source: SourceView)
    ensures
        source_text(source) == source_word(source) + seq!['+'] + source_rest(source),
        !source_word(source).contains('+'),
{
    reveal_strlit("workspace");
    reveal_strlit("workspace+");
    reveal_strlit("path");
    reveal_strlit("path+");
    reveal_strlit("registry");
    reveal_strlit("registry+");
    reveal_strlit("git");
    reveal_strlit("git+");
    reveal_strlit("#");
    assert("workspace+"@ =~= "workspace"@ + seq!['+']);
    assert("path+"@ =~= "path"@ + seq!['+']);
    assert("registry+"@ =~= "registry"@ + seq!['+']);
    assert("git+"@ =~= "git"@ + seq!['+']);
    assert("#"@ =~= seq!['#']);
    assert(source_text(source) =~= source_word(source) + seq!['+'] + source_rest(source));
}

proof fn lemma_source_injective(s: SourceView, t: SourceView)
    requires
        plain_source(s),
        plain_source(t),
        source_text(s) == source_text(t),
    ensures
        s == t,
{
    lemma_source_text(s);
    lemma_source_text(t);
    lemma_first(source_word(s), source_rest(s), source_word(t), source_rest(t), '+');
    reveal_strlit("workspace");
    reveal_strlit("path");
    reveal_strlit("registry");
    reveal_strlit("git");
    assert("workspace"@.len() == 9 && "path"@.len() == 4 && "registry"@.len() == 8
        && "git"@.len() == 3);
    match (s, t) {
        (SourceView::Git { url, rev }, SourceView::Git { url: other, rev: at }) => {
            lemma_last(url, rev, other, at, '#');
        },
        _ => {},
    }
}

/// Whether the revision of a git source holds no `#`, as revisions do not.
pub open spec fn plain_source(source: SourceView) -> bool {
    source matches SourceView::Git { rev, .. } ==> !rev.contains('#')
}

/// Whether a package goes by the name of its identity, without an `@`, and its
/// version and source are plain.
pub open spec fn plain_package(p: Package) -> bool {
    &&& p.name@ == p.id@.name
    &&& !p.name@.contains('@')
    &&& plain_version(p.id@.version)
    &&& plain_source(p.id@.source)
}

proof fn lemma_label_suffix(id: PackageIdView)
    ensures
        label_suffix(id) == seq!['@'] + (version_text(id.version) + seq!['#'] + source_text(
            id.source,
        )),
{
    reveal_strlit("@");
    reveal_strlit("#");
    assert("@"@ =~= seq!['@']);
    assert("#"@ =~= seq!['#']);
    assert(label_suffix(id) =~= seq!['@'] + (version_text(id.version) + seq!['#'] + source_text(
        id.source,
    )));
}

proof fn lemma_label_name(m: RustModel, i: int)
    requires
        shares_name(m, i),
    ensures
        label_of(m, i) == m.packages@[i].name@ + seq!['@'] + (version_text(
            m.packages@[i].id@.version,
        ) + seq!['#'] + source_text(m.packages@[i].id@.source)),
{
    let id = m.packages@[i].id@;
    lemma_label_suffix(id);
    assert(label_of(m, i) =~= m.packages@[i].name@ + seq!['@'] + (version_text(id.version)
        + seq!['#'] + source_text(id.source)));
}

/// Units name packages apart: two packages with different identities have
/// different labels.
pub proof fn labels_differ(m: RustModel, i: int, j: int)
    requires
        0 <= i < m.packages@.len(),
        0 <= j < m.packages@.len(),
        m.packages@[i].id@ != m.packages@[j].id@,
        plain_package(m.packages@[i]),
        plain_package(m.packages@[j]),
    ensures
        label_of(m, i) != label_of(m, j),
{
    let p = m.packages@[i];
    let q = m.packages@[j];
    let mine = version_text(p.id@.version) + seq!['#'] + source_text(p.id@.source);
    let other = version_text(q.id@.version) + seq!['#'] + source_text(q.id@.source);
    if label_of(m, i) == label_of(m, j) {
        if shares_name(m, i) && shares_name(m, j) {
            lemma_label_name(m, i);
            lemma_label_name(m, j);
            lemma_first(p.name@, mine, q.name@, other, '@');
            lemma_version_holds(p.id@.version);
            lemma_version_holds(q.id@.version);
            lemma_first(
                version_text(p.id@.version),
                source_text(p.id@.source),
                version_text(q.id@.version),
                source_text(q.id@.source),
                '#',
            );
            if p.id@.version != q.id@.version {
                version_texts_differ(p.id@.version, q.id@.version);
            }
            lemma_source_injective(p.id@.source, q.id@.source);
        } else if shares_name(m, i) {
            lemma_label_name(m, i);
            assert(label_of(m, i)[p.name@.len() as int] == '@');
            assert(q.name@[p.name@.len() as int] == '@');
        } else if shares_name(m, j) {
            lemma_label_name(m, j);
            assert(label_of(m, j)[q.name@.len() as int] == '@');
            assert(p.name@[q.name@.len() as int] == '@');
        } else {
            assert(m.packages@[j].name@ == m.packages@[i].name@);
        }
    }
}

// ---- Targets ----------------------------------------------------------------------

/// Whether no two targets of one kind of a package go by the same name, and no
/// name holds a `:`.
pub open spec fn names_targets_apart(p: Package) -> bool {
    &&& forall|k: int| 0 <= k < p.bins@.len() ==> !(#[trigger] p.bins@[k]).name@.contains(':')
    &&& forall|k: int|
        0 <= k < p.examples@.len() ==> !(#[trigger] p.examples@[k]).name@.contains(':')
    &&& forall|k: int| 0 <= k < p.tests@.len() ==> !(#[trigger] p.tests@[k]).name@.contains(':')
    &&& forall|j: int, k: int|
        0 <= j < k < p.bins@.len() ==> (#[trigger] p.bins@[j]).name@ != (
        #[trigger] p.bins@[k]).name@
    &&& forall|j: int, k: int|
        0 <= j < k < p.examples@.len() ==> (#[trigger] p.examples@[j]).name@ != (
        #[trigger] p.examples@[k]).name@
    &&& forall|j: int, k: int|
        0 <= j < k < p.tests@.len() && test_kind(p, j) == test_kind(p, k) ==> (
        #[trigger] p.tests@[j]).name@ != (#[trigger] p.tests@[k]).name@
    &&& p.lib is Some ==> p.lib->0.crate_types@.no_duplicates()
}

/// Whether packages and their targets can be told apart by name: packages have
/// identities of their own, and no label is another with `:host` behind it.
pub open spec fn names_apart(m: RustModel) -> bool {
    &&& forall|i: int|
        0 <= i < m.packages@.len() ==> plain_package(#[trigger] m.packages@[i])
            && names_targets_apart(m.packages@[i])
    &&& forall|i: int, j: int|
        0 <= i < j < m.packages@.len() ==> (#[trigger] m.packages@[i]).id@ != (
        #[trigger] m.packages@[j]).id@
    &&& forall|i: int, j: int|
        0 <= i < m.packages@.len() && 0 <= j < m.packages@.len() ==> #[trigger] label_of(m, i)
            != #[trigger] label_of(m, j) + ":host"@
}

/// Whether a model has such a target.
spec fn has_target(m: RustModel, t: Target) -> bool {
    match t {
        Target::ScriptCompile(i, _) => 0 <= i < m.packages@.len(),
        Target::ScriptRun(i, _) => 0 <= i < m.packages@.len(),
        Target::Macro(i) => 0 <= i < m.packages@.len(),
        Target::Lib(i, _, _) => 0 <= i < m.packages@.len(),
        Target::Bin(i, k) => 0 <= i < m.packages@.len() && 0 <= k < m.packages@[i].bins@.len(),
        Target::Example(i, k) => 0 <= i < m.packages@.len() && 0 <= k
            < m.packages@[i].examples@.len(),
        Target::TestCompile(i, k) => 0 <= i < m.packages@.len() && 0 <= k
            < m.packages@[i].tests@.len(),
        Target::TestRun(i, k) => 0 <= i < m.packages@.len() && 0 <= k
            < m.packages@[i].tests@.len(),
    }
}

spec fn target_word(t: Target) -> Seq<char> {
    match t {
        Target::ScriptCompile(..) => "bs-compile"@,
        Target::ScriptRun(..) => "bs-run"@,
        Target::Macro(..) => "proc-macro"@,
        Target::Lib(..) => "lib"@,
        Target::Bin(..) => "bin"@,
        Target::Example(..) => "example"@,
        Target::TestCompile(..) => "test-compile"@,
        Target::TestRun(..) => "test-run"@,
    }
}

spec fn target_rest(m: RustModel, t: Target) -> Seq<char> {
    match t {
        Target::ScriptCompile(i, host) => label_of(m, i) + side_suffix(host),
        Target::ScriptRun(i, host) => label_of(m, i) + side_suffix(host),
        Target::Macro(i) => label_of(m, i),
        Target::Lib(i, c, host) => label_of(m, i) + seq![':'] + crate_type_text(c) + side_suffix(
            host,
        ),
        Target::Bin(i, k) => label_of(m, i) + seq![':'] + m.packages@[i].bins@[k].name@,
        Target::Example(i, k) => label_of(m, i) + seq![':'] + m.packages@[i].examples@[k].name@,
        Target::TestCompile(i, k) => label_of(m, i) + seq![':'] + test_kind(m.packages@[i], k)
            + seq![':'] + m.packages@[i].tests@[k].name@,
        Target::TestRun(i, k) => label_of(m, i) + seq![':'] + test_kind(m.packages@[i], k)
            + seq![':'] + m.packages@[i].tests@[k].name@,
    }
}

proof fn lemma_target_id(m: RustModel, t: Target)
    ensures
        target_id(m, t) == "rust:"@ + target_word(t) + seq![':'] + target_rest(m, t),
{
    reveal_strlit(":");
    assert(":"@ =~= seq![':']);
    reveal_strlit("rust:");
    match t {
        Target::ScriptCompile(..) => {
            reveal_strlit("bs-compile");
            reveal_strlit("rust:bs-compile:");
            assert("rust:bs-compile:"@ =~= "rust:"@ + "bs-compile"@ + seq![':']);
        },
        Target::ScriptRun(..) => {
            reveal_strlit("bs-run");
            reveal_strlit("rust:bs-run:");
            assert("rust:bs-run:"@ =~= "rust:"@ + "bs-run"@ + seq![':']);
        },
        Target::Macro(..) => {
            reveal_strlit("proc-macro");
            reveal_strlit("rust:proc-macro:");
            assert("rust:proc-macro:"@ =~= "rust:"@ + "proc-macro"@ + seq![':']);
        },
        Target::Lib(..) => {
            reveal_strlit("lib");
            reveal_strlit("rust:lib:");
            assert("rust:lib:"@ =~= "rust:"@ + "lib"@ + seq![':']);
        },
        Target::Bin(..) => {
            reveal_strlit("bin");
            reveal_strlit("rust:bin:");
            assert("rust:bin:"@ =~= "rust:"@ + "bin"@ + seq![':']);
        },
        Target::Example(..) => {
            reveal_strlit("example");
            reveal_strlit("rust:example:");
            assert("rust:example:"@ =~= "rust:"@ + "example"@ + seq![':']);
        },
        Target::TestCompile(..) => {
            reveal_strlit("test-compile");
            reveal_strlit("rust:test-compile:");
            assert("rust:test-compile:"@ =~= "rust:"@ + "test-compile"@ + seq![':']);
        },
        Target::TestRun(..) => {
            reveal_strlit("test-run");
            reveal_strlit("rust:test-run:");
            assert("rust:test-run:"@ =~= "rust:"@ + "test-run"@ + seq![':']);
        },
    }
    assert(target_id(m, t) =~= "rust:"@ + target_word(t) + seq![':'] + target_rest(m, t));
}

proof fn lemma_target_words(s: Target, t: Target)
    ensures
        !target_word(s).contains(':'),
        target_word(s) == target_word(t) ==> {
            ||| s is ScriptCompile && t is ScriptCompile
            ||| s is ScriptRun && t is ScriptRun
            ||| s is Macro && t is Macro
            ||| s is Lib && t is Lib
            ||| s is Bin && t is Bin
            ||| s is Example && t is Example
            ||| s is TestCompile && t is TestCompile
            ||| s is TestRun && t is TestRun
        },
{
    reveal_strlit("bs-compile");
    reveal_strlit("bs-run");
    reveal_strlit("proc-macro");
    reveal_strlit("lib");
    reveal_strlit("bin");
    reveal_strlit("example");
    reveal_strlit("test-compile");
    reveal_strlit("test-run");
    assert("bs-compile"@[0] == 'b' && "proc-macro"@[0] == 'p' && "lib"@[0] == 'l' && "bin"@[0]
        == 'b');
    assert("bs-compile"@.len() == 10 && "bs-run"@.len() == 6 && "proc-macro"@.len() == 10
        && "lib"@.len() == 3 && "bin"@.len() == 3 && "example"@.len() == 7
        && "test-compile"@.len() == 12 && "test-run"@.len() == 8);
}

proof fn lemma_colon_words(p: Package, k: int, c: CrateType)
    ensures
        !test_kind(p, k).contains(':'),
        !crate_type_text(c).contains(':'),
        crate_type_text(c) != "host"@,
        !"host"@.contains(':'),
        ":host"@ == seq![':'] + "host"@,
{
    reveal_strlit("bench");
    reveal_strlit("lib");
    reveal_strlit("test");
    reveal_strlit("rlib");
    reveal_strlit("cdylib");
    reveal_strlit("staticlib");
    reveal_strlit("dylib");
    reveal_strlit("host");
    reveal_strlit(":host");
    assert("rlib"@[0] == 'r' && "host"@[0] == 'h');
    assert("cdylib"@.len() == 6 && "staticlib"@.len() == 9 && "dylib"@.len() == 5 && "host"@.len()
        == 4);
    assert(":host"@ =~= seq![':'] + "host"@);
}

proof fn lemma_crate_types_differ(c: CrateType, d: CrateType)
    requires
        crate_type_text(c) == crate_type_text(d),
    ensures
        c == d,
{
    reveal_strlit("rlib");
    reveal_strlit("cdylib");
    reveal_strlit("staticlib");
    reveal_strlit("dylib");
    assert("rlib"@.len() == 4 && "cdylib"@.len() == 6 && "staticlib"@.len() == 9
        && "dylib"@.len() == 5);
}

proof fn lemma_same_label(m: RustModel, i: int, j: int)
    requires
        names_apart(m),
        0 <= i < m.packages@.len(),
        0 <= j < m.packages@.len(),
        label_of(m, i) == label_of(m, j),
    ensures
        i == j,
{
    if i != j {
        let (low, high) = if i < j {
            (i, j)
        } else {
            (j, i)
        };
        assert(m.packages@[low].id@ != m.packages@[high].id@);
        labels_differ(m, i, j);
    }
}

proof fn lemma_same_sides(m: RustModel, i: int, a: bool, j: int, b: bool)
    requires
        names_apart(m),
        0 <= i < m.packages@.len(),
        0 <= j < m.packages@.len(),
        label_of(m, i) + side_suffix(a) == label_of(m, j) + side_suffix(b),
    ensures
        i == j,
        a == b,
{
    reveal_strlit("");
    assert(label_of(m, i) + ""@ =~= label_of(m, i));
    assert(label_of(m, j) + ""@ =~= label_of(m, j));
    if a == b {
        let s = side_suffix(a);
        let n = (label_of(m, i) + s).len() - s.len();
        assert(label_of(m, i) =~= (label_of(m, i) + s).take(n));
        assert(label_of(m, j) =~= (label_of(m, j) + s).take(n));
        lemma_same_label(m, i, j);
    } else if a {
        assert(label_of(m, j) == label_of(m, i) + ":host"@);
    } else {
        assert(label_of(m, i) == label_of(m, j) + ":host"@);
    }
}

proof fn lemma_same_libs(m: RustModel, i: int, c: CrateType, a: bool, j: int, d: CrateType, b: bool)
    requires
        names_apart(m),
        0 <= i < m.packages@.len(),
        0 <= j < m.packages@.len(),
        target_rest(m, Target::Lib(i, c, a)) == target_rest(m, Target::Lib(j, d, b)),
    ensures
        i == j,
        c == d,
        a == b,
{
    let p = m.packages@[i];
    lemma_colon_words(p, 0, c);
    lemma_colon_words(p, 0, d);
    reveal_strlit("");
    let x = label_of(m, i) + seq![':'] + crate_type_text(c);
    let y = label_of(m, j) + seq![':'] + crate_type_text(d);
    assert(x + ""@ =~= x);
    assert(y + ""@ =~= y);
    assert(x + ":host"@ =~= x + seq![':'] + "host"@);
    assert(y + ":host"@ =~= y + seq![':'] + "host"@);
    if a && b {
        lemma_last(x, "host"@, y, "host"@, ':');
    } else if a {
        lemma_last(x, "host"@, label_of(m, j), crate_type_text(d), ':');
    } else if b {
        lemma_last(label_of(m, i), crate_type_text(c), y, "host"@, ':');
    }
    lemma_last(label_of(m, i), crate_type_text(c), label_of(m, j), crate_type_text(d), ':');
    lemma_crate_types_differ(c, d);
    lemma_same_label(m, i, j);
}

proof fn lemma_same_tests(m: RustModel, i: int, k: int, j: int, l: int)
    requires
        names_apart(m),
        has_target(m, Target::TestRun(i, k)),
        has_target(m, Target::TestRun(j, l)),
        target_rest(m, Target::TestRun(i, k)) == target_rest(m, Target::TestRun(j, l)),
    ensures
        i == j,
        k == l,
{
    let p = m.packages@[i];
    let q = m.packages@[j];
    lemma_colon_words(p, k, CrateType::Rlib);
    lemma_colon_words(q, l, CrateType::Rlib);
    assert(!p.tests@[k].name@.contains(':'));
    assert(!q.tests@[l].name@.contains(':'));
    lemma_last(
        label_of(m, i) + seq![':'] + test_kind(p, k),
        p.tests@[k].name@,
        label_of(m, j) + seq![':'] + test_kind(q, l),
        q.tests@[l].name@,
        ':',
    );
    lemma_last(label_of(m, i), test_kind(p, k), label_of(m, j), test_kind(q, l), ':');
    lemma_same_label(m, i, j);
    if k < l {
        assert(p.tests@[k].name@ != p.tests@[l].name@);
    } else if l < k {
        assert(p.tests@[l].name@ != p.tests@[k].name@);
    }
}

proof fn lemma_same_target(m: RustModel, s: Target, t: Target)
    requires
        names_apart(m),
        has_target(m, s),
        has_target(m, t),
        target_id(m, s) == target_id(m, t),
    ensures
        s == t,
{
    lemma_target_id(m, s);
    lemma_target_id(m, t);
    lemma_target_words(s, t);
    lemma_target_words(t, s);
    let mine = target_word(s) + seq![':'] + target_rest(m, s);
    let other = target_word(t) + seq![':'] + target_rest(m, t);
    assert(target_id(m, s) =~= "rust:"@ + mine);
    assert(target_id(m, t) =~= "rust:"@ + other);
    assert(mine =~= target_id(m, s).skip("rust:"@.len() as int));
    assert(other =~= target_id(m, t).skip("rust:"@.len() as int));
    lemma_first(target_word(s), target_rest(m, s), target_word(t), target_rest(m, t), ':');
    match (s, t) {
        (Target::ScriptCompile(i, a), Target::ScriptCompile(j, b)) => {
            lemma_same_sides(m, i, a, j, b);
        },
        (Target::ScriptRun(i, a), Target::ScriptRun(j, b)) => {
            lemma_same_sides(m, i, a, j, b);
        },
        (Target::Macro(i), Target::Macro(j)) => {
            lemma_same_label(m, i, j);
        },
        (Target::Lib(i, c, a), Target::Lib(j, d, b)) => {
            lemma_same_libs(m, i, c, a, j, d, b);
        },
        (Target::Bin(i, k), Target::Bin(j, l)) => {
            let (p, q) = (m.packages@[i], m.packages@[j]);
            assert(!p.bins@[k].name@.contains(':'));
            assert(!q.bins@[l].name@.contains(':'));
            lemma_last(label_of(m, i), p.bins@[k].name@, label_of(m, j), q.bins@[l].name@, ':');
            lemma_same_label(m, i, j);
            if k < l {
                assert(p.bins@[k].name@ != p.bins@[l].name@);
            } else if l < k {
                assert(p.bins@[l].name@ != p.bins@[k].name@);
            }
        },
        (Target::Example(i, k), Target::Example(j, l)) => {
            let (p, q) = (m.packages@[i], m.packages@[j]);
            assert(!p.examples@[k].name@.contains(':'));
            assert(!q.examples@[l].name@.contains(':'));
            lemma_last(
                label_of(m, i),
                p.examples@[k].name@,
                label_of(m, j),
                q.examples@[l].name@,
                ':',
            );
            lemma_same_label(m, i, j);
            if k < l {
                assert(p.examples@[k].name@ != p.examples@[l].name@);
            } else if l < k {
                assert(p.examples@[l].name@ != p.examples@[k].name@);
            }
        },
        (Target::TestCompile(i, k), Target::TestCompile(j, l)) => {
            lemma_same_tests(m, i, k, j, l);
        },
        (Target::TestRun(i, k), Target::TestRun(j, l)) => {
            lemma_same_tests(m, i, k, j, l);
        },
        _ => {},
    }
}

// ---- Lists of targets ---------------------------------------------------------------

spec fn package_of(t: Target) -> int {
    match t {
        Target::ScriptCompile(i, _) => i,
        Target::ScriptRun(i, _) => i,
        Target::Macro(i) => i,
        Target::Lib(i, _, _) => i,
        Target::Bin(i, _) => i,
        Target::Example(i, _) => i,
        Target::TestCompile(i, _) => i,
        Target::TestRun(i, _) => i,
    }
}

proof fn lemma_concat(a: Seq<Target>, b: Seq<Target>)
    requires
        a.no_duplicates(),
        b.no_duplicates(),
        forall|j: int, k: int|
            0 <= j < a.len() && 0 <= k < b.len() ==> #[trigger] a[j] != #[trigger] b[k],
    ensures
        (a + b).no_duplicates(),
{
    let all = a + b;
    assert forall|j: int, k: int|
        0 <= j < all.len() && 0 <= k < all.len() && j != k implies all[j] != all[k] by {
        if j < a.len() && k >= a.len() {
            assert(a[j] != b[k - a.len()]);
        } else if k < a.len() && j >= a.len() {
            assert(a[k] != b[j - a.len()]);
        }
    }
}

proof fn lemma_bin_targets(m: RustModel, i: int, n: int)
    requires
        0 <= n,
    ensures
        bin_targets(m, i, n).no_duplicates(),
        forall|x: int|
            0 <= x < bin_targets(m, i, n).len() ==> (#[trigger] bin_targets(
                m,
                i,
                n,
            )[x] matches Target::Bin(a, b) && a == i && 0 <= b < n),
    decreases n,
{
    if n > 0 {
        lemma_bin_targets(m, i, n - 1);
    }
}

proof fn lemma_example_targets(m: RustModel, i: int, n: int)
    requires
        0 <= n,
    ensures
        example_targets(m, i, n).no_duplicates(),
        forall|x: int|
            0 <= x < example_targets(m, i, n).len() ==> (#[trigger] example_targets(
                m,
                i,
                n,
            )[x] matches Target::Example(a, b) && a == i && 0 <= b < n),
    decreases n,
{
    if n > 0 {
        lemma_example_targets(m, i, n - 1);
    }
}

/// Whether a target is one of the first `n` tests of a package.
spec fn is_test(t: Target, i: int, n: int) -> bool {
    match t {
        Target::TestCompile(a, b) => a == i && 0 <= b < n,
        Target::TestRun(a, b) => a == i && 0 <= b < n,
        _ => false,
    }
}

proof fn lemma_test_targets(m: RustModel, i: int, n: int)
    requires
        0 <= n,
    ensures
        test_targets(m, i, n).no_duplicates(),
        forall|x: int|
            0 <= x < test_targets(m, i, n).len() ==> is_test(
                #[trigger] test_targets(m, i, n)[x],
                i,
                n,
            ),
    decreases n,
{
    if n > 0 {
        lemma_test_targets(m, i, n - 1);
    }
}

/// Whether a target is one that a package's library has, or its build script.
spec fn is_library(t: Target) -> bool {
    t is ScriptCompile || t is ScriptRun || t is Macro || t is Lib
}

/// Whether a target is for the host.
spec fn is_host(t: Target) -> bool {
    match t {
        Target::ScriptCompile(_, host) => host,
        Target::ScriptRun(_, host) => host,
        Target::Macro(_) => true,
        Target::Lib(_, _, host) => host,
        _ => false,
    }
}

proof fn lemma_side_targets(m: RustModel, i: int, host: bool)
    requires
        m.packages@[i].lib is Some ==> m.packages@[i].lib->0.crate_types@.no_duplicates(),
    ensures
        side_targets(m, i, host).no_duplicates(),
        forall|x: int|
            0 <= x < side_targets(m, i, host).len() ==> {
                let t = #[trigger] side_targets(m, i, host)[x];
                is_library(t) && package_of(t) == i && is_host(t) == host
            },
{
    lemma_concat(script_targets(m, i, host), crate_targets(m, i, host));
}

proof fn lemma_lib_targets(p: Planner<'_>, i: int)
    requires
        names_targets_apart(p.model.packages@[i]),
    ensures
        lib_targets(p, i).no_duplicates(),
        forall|x: int|
            0 <= x < lib_targets(p, i).len() ==> is_library(#[trigger] lib_targets(p, i)[x])
                && package_of(lib_targets(p, i)[x]) == i,
{
    let m = *p.model;
    let near = side_targets(m, i, false);
    let far = side_targets(m, i, true);
    lemma_side_targets(m, i, false);
    lemma_side_targets(m, i, true);
    assert forall|j: int, k: int| 0 <= j < near.len() && 0 <= k < far.len() implies
        #[trigger] near[j] != #[trigger] far[k] by {
        assert(!is_host(near[j]) && is_host(far[k]));
    }
    lemma_concat(near, far);
    assert(near + Seq::<Target>::empty() =~= near);
}

proof fn lemma_all_libs(p: Planner<'_>, n: int)
    requires
        names_apart(*p.model),
        0 <= n <= p.model.packages@.len(),
    ensures
        all_libs(p, n).no_duplicates(),
        forall|x: int|
            0 <= x < all_libs(p, n).len() ==> is_library(#[trigger] all_libs(p, n)[x]) && 0
                <= package_of(all_libs(p, n)[x]) < n,
    decreases n,
{
    if n > 0 {
        lemma_all_libs(p, n - 1);
        assert(plain_package(p.model.packages@[n - 1]));
        lemma_lib_targets(p, n - 1);
        let (a, b) = (all_libs(p, n - 1), lib_targets(p, n - 1));
        assert forall|j: int, k: int| 0 <= j < a.len() && 0 <= k < b.len() implies #[trigger] a[j]
            != #[trigger] b[k] by {
            assert(package_of(a[j]) < n - 1);
            assert(package_of(b[k]) == n - 1);
        }
        lemma_concat(a, b);
    }
}

proof fn lemma_all_bins(m: RustModel, n: int)
    requires
        0 <= n <= m.packages@.len(),
    ensures
        all_bins(m, n).no_duplicates(),
        forall|x: int|
            0 <= x < all_bins(m, n).len() ==> {
                let t = #[trigger] all_bins(m, n)[x];
                t is Bin && 0 <= package_of(t) < n && has_target(m, t)
            },
    decreases n,
{
    if n > 0 {
        lemma_all_bins(m, n - 1);
        let a = all_bins(m, n - 1);
        let b = bin_targets(m, n - 1, m.packages@[n - 1].bins@.len() as int);
        lemma_bin_targets(m, n - 1, m.packages@[n - 1].bins@.len() as int);
        assert forall|j: int, k: int| 0 <= j < a.len() && 0 <= k < b.len() implies #[trigger] a[j]
            != #[trigger] b[k] by {
            assert(package_of(a[j]) < n - 1);
            assert(package_of(b[k]) == n - 1);
        }
        lemma_concat(a, b);
    }
}

proof fn lemma_all_tests(m: RustModel, n: int)
    requires
        0 <= n <= m.packages@.len(),
    ensures
        all_tests(m, n).no_duplicates(),
        forall|x: int|
            0 <= x < all_tests(m, n).len() ==> {
                let t = #[trigger] all_tests(m, n)[x];
                (t is Example || t is TestCompile || t is TestRun) && 0 <= package_of(t) < n
                    && has_target(m, t)
            },
    decreases n,
{
    if n > 0 {
        lemma_all_tests(m, n - 1);
        let a = all_tests(m, n - 1);
        let b = example_targets(m, n - 1, m.packages@[n - 1].examples@.len() as int);
        let c = test_targets(m, n - 1, m.packages@[n - 1].tests@.len() as int);
        lemma_example_targets(m, n - 1, m.packages@[n - 1].examples@.len() as int);
        lemma_test_targets(m, n - 1, m.packages@[n - 1].tests@.len() as int);
        assert forall|j: int, k: int| 0 <= j < b.len() && 0 <= k < c.len() implies #[trigger] b[j]
            != #[trigger] c[k] by {
            assert(b[j] is Example);
            assert(is_test(c[k], n - 1, m.packages@[n - 1].tests@.len() as int));
        }
        lemma_concat(b, c);
        let d = b + c;
        assert forall|k: int| 0 <= k < d.len() implies package_of(#[trigger] d[k]) == n - 1 && (
        d[k] is Example || d[k] is TestCompile || d[k] is TestRun) && has_target(m, d[k]) by {
            if k < b.len() {
                assert(d[k] == b[k]);
            } else {
                assert(d[k] == c[k - b.len()]);
                assert(is_test(
                    c[k - b.len()],
                    n - 1,
                    m.packages@[n - 1].tests@.len() as int,
                ));
            }
        }
        assert forall|j: int, k: int| 0 <= j < a.len() && 0 <= k < d.len() implies #[trigger] a[j]
            != #[trigger] d[k] by {
            assert(package_of(a[j]) < n - 1);
            assert(package_of(d[k]) == n - 1);
        }
        lemma_concat(a, d);
        assert(all_tests(m, n) =~= a + d);
    }
}

proof fn lemma_all_targets(p: Planner<'_>)
    requires
        names_apart(*p.model),
    ensures
        all_targets(p).no_duplicates(),
        forall|x: int|
            0 <= x < all_targets(p).len() ==> has_target(*p.model, #[trigger] all_targets(p)[x]),
{
    let m = *p.model;
    let n = m.packages@.len() as int;
    lemma_all_libs(p, n);
    lemma_all_bins(m, n);
    lemma_all_tests(m, n);
    let (a, b) = (all_libs(p, n), all_bins(m, n));
    assert forall|j: int, k: int| 0 <= j < a.len() && 0 <= k < b.len() implies #[trigger] a[j]
        != #[trigger] b[k] by {
        assert(is_library(a[j]) && b[k] is Bin);
    }
    lemma_concat(a, b);
    let c = a + b;
    assert forall|k: int| 0 <= k < c.len() implies (is_library(#[trigger] c[k]) || c[k] is Bin)
        && has_target(m, c[k]) by {
        if k < a.len() {
            assert(c[k] == a[k]);
        } else {
            assert(c[k] == b[k - a.len()]);
        }
    }
    let d = if p.tests_enabled {
        all_tests(m, n)
    } else {
        Seq::empty()
    };
    assert forall|j: int, k: int| 0 <= j < c.len() && 0 <= k < d.len() implies #[trigger] c[j]
        != #[trigger] d[k] by {
        assert(is_library(c[j]) || c[j] is Bin);
        assert(d[k] is Example || d[k] is TestCompile || d[k] is TestRun);
    }
    lemma_concat(c, d);
    assert forall|x: int| 0 <= x < all_targets(p).len() implies has_target(
        m,
        #[trigger] all_targets(p)[x],
    ) by {
        if x < c.len() {
            assert(all_targets(p)[x] == c[x]);
        } else {
            assert(all_targets(p)[x] == d[x - c.len()]);
        }
    }
}

/// No two units of a build have the same id.
pub proof fn unit_ids_differ(p: Planner<'_>, units: Seq<Unit>, j: int, k: int)
    requires
        names_apart(*p.model),
        units.len() == all_targets(p).len(),
        forall|x: int|
            0 <= x < units.len() ==> unit_is(units[x], p, #[trigger] all_targets(p)[x]),
        0 <= j < k < units.len(),
    ensures
        units[j].id@ != units[k].id@,
{
    let (s, t) = (all_targets(p)[j], all_targets(p)[k]);
    lemma_all_targets(p);
    assert(units[j].id@ == target_id(*p.model, s));
    assert(units[k].id@ == target_id(*p.model, t));
    if units[j].id@ == units[k].id@ {
        lemma_same_target(*p.model, s, t);
    }
}

} // verus!
