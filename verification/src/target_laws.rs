//! Which targets a package has.

use vstd::prelude::*;
use vstd::string::*;
use crate::dep_laws::{just_lists, named_or};
use crate::deps::list_or_empty;
use crate::disk::{DirEntry, Disk};
use crate::manifest::{
    crate_types_of, BuildKey, CargoExample, CargoManifest, CargoPackage, CargoTest,
};
use crate::model::{BinView, CrateType, LibView, TestView};
use crate::paths::joined;
use crate::targets::{
    bins_of, build_script_of, declared_examples, declared_tests, examples_of, file_stem_of,
    found_tests, lib_of, main_bins, stem_of, tests_in, tests_of, with_found_bins,
    with_found_examples,
};
use crate::text::texts;
use crate::unit_laws::underscored;

verus! {

// ---- Scripts and libraries --------------------------------------------------------

/// A package has the build script that it names; where it names none, `build.rs`
/// where there is one, unless it says `false`. `true` is refused.
pub proof fn build_scripts_are_found(package: CargoPackage, disk: Disk, dir: Seq<char>)
    ensures
        ({
            let r = build_script_of(package, disk, dir);
            match package.build {
                Some(BuildKey::Path(path)) => r is Ok && r->Ok_0 == Some(path@),
                Some(BuildKey::Flag(on)) => if on {
                    r is Err
                } else {
                    r is Ok && r->Ok_0 is None
                },
                None => {
                    &&& r is Ok
                    &&& r->Ok_0 is Some <==> disk.has_file(joined(dir, "build.rs"@))
                    &&& r->Ok_0 is Some ==> r->Ok_0 == Some("build.rs"@)
                },
            }
        }),
{
}

/// Whether a word names a crate type.
pub open spec fn names_type(word: Seq<char>, t: CrateType) -> bool {
    match t {
        CrateType::Rlib => word == "rlib"@,
        CrateType::Dylib => word == "dylib"@,
        CrateType::Cdylib => word == "cdylib"@,
        CrateType::Staticlib => word == "staticlib"@,
    }
}

/// Whether a word may stand among crate types.
pub open spec fn may_name(word: Seq<char>) -> bool {
    word == "rlib"@ || word == "dylib"@ || word == "cdylib"@ || word == "staticlib"@ || word
        == "lib"@ || word == "bin"@
}

/// Crate types are read word by word: each that names a type gives it, `lib` and
/// `bin` give none, and any other word is refused.
pub proof fn crate_types_are_read(words: Seq<Seq<char>>)
    ensures
        match crate_types_of(words) {
            Ok(types) => {
                &&& forall|k: int| 0 <= k < words.len() ==> may_name(#[trigger] words[k])
                &&& forall|t: CrateType| #[trigger]
                    types.contains(t) <==> exists|k: int|
                        0 <= k < words.len() && names_type(#[trigger] words[k], t)
            },
            Err(fault) => fault is Unsupported && exists|k: int|
                0 <= k < words.len() && !may_name(#[trigger] words[k]),
        },
    decreases words.len(),
{
    reveal_strlit("rlib");
    reveal_strlit("dylib");
    reveal_strlit("cdylib");
    reveal_strlit("staticlib");
    reveal_strlit("lib");
    reveal_strlit("bin");
    assert("rlib"@.len() == 4 && "dylib"@.len() == 5 && "cdylib"@.len() == 6 && "staticlib"@.len()
        == 9 && "lib"@.len() == 3 && "bin"@.len() == 3);
    if words.len() > 0 {
        let less = words.drop_last();
        crate_types_are_read(less);
        let word = words.last();
        assert(words[words.len() - 1] == word);
        match crate_types_of(less) {
            Err(_) => {
                let k = choose|k: int| 0 <= k < less.len() && !may_name(#[trigger] less[k]);
                assert(words[k] == less[k]);
            },
            Ok(before) => {
                if let Ok(types) = crate_types_of(words) {
                    assert forall|k: int| 0 <= k < words.len() implies may_name(
                        #[trigger] words[k],
                    ) by {
                        if k < less.len() {
                            assert(words[k] == less[k]);
                        }
                    }
                    assert forall|t: CrateType| #[trigger] types.contains(t) <==> exists|k: int|
                        0 <= k < words.len() && names_type(#[trigger] words[k], t) by {
                        if before.contains(t) {
                            let x = choose|x: int| 0 <= x < before.len() && before[x] == t;
                            assert(types[x] == t);
                            let k = choose|k: int|
                                0 <= k < less.len() && names_type(#[trigger] less[k], t);
                            assert(words[k] == less[k]);
                        }
                        if types.contains(t) && !before.contains(t) {
                            let x = choose|x: int| 0 <= x < types.len() && types[x] == t;
                            if x < before.len() {
                                assert(before[x] == t);
                            }
                            assert(names_type(words[words.len() - 1], t));
                        }
                        if exists|k: int|
                            0 <= k < words.len() && names_type(#[trigger] words[k], t) {
                            let k = choose|k: int|
                                0 <= k < words.len() && names_type(#[trigger] words[k], t);
                            if k < less.len() {
                                assert(less[k] == words[k]);
                                assert(before.contains(t));
                            } else {
                                assert(types[before.len() as int] == t);
                            }
                        }
                    }
                } else {
                    assert(!may_name(words[words.len() - 1]));
                }
            },
        }
    }
}

/// A package has the library that it declares, at `src/lib.rs` unless it says
/// otherwise; where it declares none, a plain one at `src/lib.rs` where there is
/// one, unless that is turned off.
pub proof fn libraries_are_found(
    manifest: CargoManifest,
    package: CargoPackage,
    disk: Disk,
    dir: Seq<char>,
)
    ensures
        ({
            let r = lib_of(manifest, package, disk, dir);
            match manifest.lib {
                Some(lib) => {
                    &&& r is Ok <==> crate_types_of(texts(lib.crate_type@)) is Ok
                    &&& r is Ok ==> {
                        let l = r->Ok_0->0;
                        &&& r->Ok_0 is Some
                        &&& lib.name matches Some(name) ==> l.name == Some(name@)
                        &&& lib.name is None ==> l.name is None
                        &&& l.proc_macro == lib.proc_macro
                        &&& named_or(lib.path, "src/lib.rs"@, l.path)
                        &&& l.crate_types == crate_types_of(texts(lib.crate_type@))->Ok_0
                    }
                },
                None => {
                    &&& r is Ok
                    &&& r->Ok_0 is Some <==> package.autolib != Some(false) && disk.has_file(
                        joined(dir, "src/lib.rs"@),
                    )
                    &&& r->Ok_0 matches Some(l) ==> l.name is None && l.crate_types.len() == 0
                        && !l.proc_macro && l.path == "src/lib.rs"@
                },
            }
        }),
{
}

// ---- Names and paths --------------------------------------------------------------

/// The stem of a file's name is what stands before its last dot, unless that begins
/// the name.
pub proof fn stems_have_no_extension(a: Seq<char>, b: Seq<char>)
    requires
        !b.contains('.'),
    ensures
        a.len() > 0 ==> stem_of(a + seq!['.'] + b) == a,
        a.len() == 0 ==> stem_of(a + seq!['.'] + b) == a + seq!['.'] + b,
        stem_of(b) == b,
{
    let s = a + seq!['.'] + b;
    s.index_of_last_ensures('.');
    b.index_of_last_ensures('.');
    assert(s[a.len() as int] == '.');
    assert(s.contains('.'));
    let i = s.index_of_last('.')->0;
    if i > a.len() {
        assert(b[i - a.len() - 1] == s[i]);
    }
    assert(i == a.len());
    assert(s.take(i) =~= a);
}

/// Whether a target goes by its declared name, else by the stem of its path, else by
/// its package's.
pub open spec fn goes_by(
    name: Option<String>,
    path: Option<String>,
    package: Seq<char>,
    this: Seq<char>,
) -> bool {
    &&& name matches Some(n) ==> this == n@
    &&& name is None && path is None ==> this == package
    &&& name is None ==> (path matches Some(p) ==> (file_stem_of(p@) matches Some(stem) ==> this
        == stem) && (file_stem_of(p@) is None ==> this == package))
}

/// Whether a binary or an example is as it is declared, by convention in a
/// directory.
pub open spec fn as_declared(
    name: Option<String>,
    path: Option<String>,
    required: Option<Vec<String>>,
    package: Seq<char>,
    dir: Seq<char>,
    t: BinView,
) -> bool {
    &&& goes_by(name, path, package, t.name)
    &&& underscored(t.name, t.crate_name)
    &&& named_or(path, dir + "/"@ + t.name + ".rs"@, t.path)
    &&& just_lists(required, t.required_features)
}

/// Whether a target is found by its source in a directory.
pub open spec fn as_found(file: Seq<char>, dir: Seq<char>, t: BinView) -> bool {
    &&& file == t.name + ".rs"@
    &&& underscored(t.name, t.crate_name)
    &&& t.path == dir + "/"@ + file
    &&& t.required_features.len() == 0
}

proof fn lemma_lists(list: Option<Vec<String>>)
    ensures
        just_lists(list, list_or_empty(list)),
{
}

proof fn lemma_stem(file: Seq<char>)
    ensures
        crate::targets::rust_stem(file) matches Some(stem) ==> file == stem + ".rs"@ && stem.len()
            > 0,
        forall|stem: Seq<char>| #![trigger stem + ".rs"@]
            stem.len() > 0 && file == stem + ".rs"@ ==> crate::targets::rust_stem(file) == Some(
                stem,
            ),
{
    reveal_strlit(".rs");
    let n = file.len();
    if n > 3 {
        assert(file =~= file.take(n - 3) + file.skip(n - 3));
    }
    assert forall|stem: Seq<char>| #![trigger stem + ".rs"@]
        stem.len() > 0 && file == stem + ".rs"@ implies crate::targets::rust_stem(file) == Some(
        stem,
    ) by {
        assert(file.skip(file.len() - 3) =~= ".rs"@);
        assert(file.take(file.len() - 3) =~= stem);
    }
}

// ---- Binaries ---------------------------------------------------------------------

proof fn lemma_found_bins(declared: Seq<BinView>, entries: Seq<DirEntry>, n: int)
    requires
        0 <= n <= entries.len(),
    ensures
        ({
            let all = with_found_bins(declared, entries, n);
            &&& all.len() >= declared.len()
            &&& forall|k: int| 0 <= k < declared.len() ==> #[trigger] all[k] == declared[k]
            &&& forall|k: int|
                declared.len() <= k < all.len() ==> exists|e: int|
                    0 <= e < n && as_found(
                        (#[trigger] entries[e]).name@,
                        "src/bin"@,
                        #[trigger] all[k],
                    )
            &&& forall|e: int, stem: Seq<char>|
                #![trigger entries[e], stem + ".rs"@]
                0 <= e < n && stem.len() > 0 && entries[e].name@ == stem + ".rs"@ ==> exists|k: int|
                    0 <= k < all.len() && ((#[trigger] all[k]).name == stem || all[k].path
                        == "src/bin"@ + "/"@ + stem + ".rs"@)
        }),
    decreases n,
{
    if n > 0 {
        lemma_found_bins(declared, entries, n - 1);
        let before = with_found_bins(declared, entries, n - 1);
        let all = with_found_bins(declared, entries, n);
        let file = entries[n - 1].name@;
        lemma_stem(file);
        assert forall|k: int| declared.len() <= k < all.len() implies exists|e: int|
            0 <= e < n && as_found(
                (#[trigger] entries[e]).name@,
                "src/bin"@,
                #[trigger] all[k],
            ) by {
            if k < before.len() {
                assert(all[k] == before[k]);
                let e = choose|e: int|
                    0 <= e < n - 1 && as_found(
                        (#[trigger] entries[e]).name@,
                        "src/bin"@,
                        before[k],
                    );
                assert(as_found(entries[e].name@, "src/bin"@, all[k]));
            } else {
                assert(all[k].path =~= "src/bin"@ + "/"@ + file);
                assert(as_found(entries[n - 1].name@, "src/bin"@, all[k]));
            }
        }
        assert forall|e: int, stem: Seq<char>|
            #![trigger entries[e], stem + ".rs"@]
            0 <= e < n && stem.len() > 0 && entries[e].name@ == stem
                + ".rs"@ implies exists|k: int|
            0 <= k < all.len() && ((#[trigger] all[k]).name == stem || all[k].path == "src/bin"@
                + "/"@ + stem + ".rs"@) by {
            if e < n - 1 {
                let k = choose|k: int|
                    0 <= k < before.len() && ((#[trigger] before[k]).name == stem
                        || before[k].path == "src/bin"@ + "/"@ + stem + ".rs"@);
                assert(all[k] == before[k]);
            } else {
                assert(crate::targets::rust_stem(file) == Some(stem));
                let path = crate::targets::source_in("src/bin"@, stem);
                if crate::targets::is_taken(before, stem, path) {
                    let k = choose|k: int|
                        0 <= k < before.len() && ((#[trigger] before[k]).name == stem
                            || before[k].path == path);
                    assert(all[k] == before[k]);
                } else {
                    assert(all[before.len() as int].name == stem);
                }
            }
        }
    }
}

/// A package has the binaries that it declares. Where it declares none it has one of
/// its own name at `src/main.rs`, where there is one, unless that is turned off.
/// Unless it is, it has also each source in `src/bin` whose name or path no other
/// has.
pub proof fn binaries_are_found(
    manifest: CargoManifest,
    package: CargoPackage,
    disk: Disk,
    dir: Seq<char>,
)
    ensures
        ({
            let all = bins_of(manifest, package, disk, dir);
            let entries = disk.entries_of(joined(dir, "src/bin"@));
            let auto = package.autobins != Some(false);
            let main = manifest.bin@.len() == 0 && auto && disk.has_file(
                joined(dir, "src/main.rs"@),
            );
            let declared = if main {
                1
            } else {
                manifest.bin@.len()
            };
            &&& all.len() >= declared
            &&& !auto ==> all.len() == declared
            &&& forall|k: int|
                0 <= k < manifest.bin@.len() ==> as_declared(
                    manifest.bin@[k].name,
                    manifest.bin@[k].path,
                    manifest.bin@[k].required_features,
                    package.name@,
                    "src/bin"@,
                    #[trigger] all[k],
                )
            &&& main ==> all[0].name == package.name@ && all[0].path == "src/main.rs"@
                && underscored(package.name@, all[0].crate_name)
                && all[0].required_features.len() == 0
            &&& forall|k: int|
                declared <= k < all.len() ==> exists|e: int|
                    0 <= e < entries.len() && as_found(
                        (#[trigger] entries[e]).name@,
                        "src/bin"@,
                        #[trigger] all[k],
                    )
            &&& auto ==> forall|e: int, stem: Seq<char>|
                #![trigger entries[e], stem + ".rs"@]
                0 <= e < entries.len() && stem.len() > 0 && entries[e].name@ == stem + ".rs"@
                    ==> exists|k: int|
                    0 <= k < all.len() && ((#[trigger] all[k]).name == stem || all[k].path
                        == "src/bin"@ + "/"@ + stem + ".rs"@)
        }),
{
    let all = bins_of(manifest, package, disk, dir);
    let declared = main_bins(manifest, package, disk, dir);
    let entries = disk.entries_of(joined(dir, "src/bin"@));
    if package.autobins != Some(false) {
        lemma_found_bins(declared, entries, entries.len() as int);
    }
    assert forall|k: int| 0 <= k < manifest.bin@.len() implies as_declared(
        manifest.bin@[k].name,
        manifest.bin@[k].path,
        manifest.bin@[k].required_features,
        package.name@,
        "src/bin"@,
        #[trigger] all[k],
    ) by {
        assert(all[k] == declared[k]);
        lemma_lists(manifest.bin@[k].required_features);
    }
    if declared.len() > 0 {
        assert(all[0] == declared[0]);
    }
}

// ---- Examples ---------------------------------------------------------------------

proof fn lemma_declared_examples(
    examples: Seq<CargoExample>,
    package: Seq<char>,
    disk: Disk,
    dir: Seq<char>,
    n: int,
)
    requires
        0 <= n <= examples.len(),
    ensures
        ({
            let all = declared_examples(examples, package, disk, dir, n);
            &&& forall|x: int|
                0 <= x < all.len() ==> disk.has_file(joined(dir, (#[trigger] all[x]).path))
                    && exists|k: int|
                    0 <= k < n && as_declared(
                        (#[trigger] examples[k]).name,
                        examples[k].path,
                        examples[k].required_features,
                        package,
                        "examples"@,
                        all[x],
                    )
            &&& forall|k: int, t: BinView|
                0 <= k < n && #[trigger] as_declared(
                    examples[k].name,
                    examples[k].path,
                    examples[k].required_features,
                    package,
                    "examples"@,
                    t,
                ) && disk.has_file(joined(dir, t.path)) ==> exists|x: int|
                    0 <= x < all.len() && (#[trigger] all[x]).name == t.name && all[x].path
                        == t.path
        }),
    decreases n,
{
    if n > 0 {
        lemma_declared_examples(examples, package, disk, dir, n - 1);
        let before = declared_examples(examples, package, disk, dir, n - 1);
        let all = declared_examples(examples, package, disk, dir, n);
        let this = crate::targets::example_of(examples[n - 1], package);
        lemma_lists(examples[n - 1].required_features);
        assert(as_declared(
            examples[n - 1].name,
            examples[n - 1].path,
            examples[n - 1].required_features,
            package,
            "examples"@,
            this,
        ));
        assert forall|x: int| 0 <= x < all.len() implies disk.has_file(
            joined(dir, (#[trigger] all[x]).path),
        ) && exists|k: int|
            0 <= k < n && as_declared(
                (#[trigger] examples[k]).name,
                examples[k].path,
                examples[k].required_features,
                package,
                "examples"@,
                all[x],
            ) by {
            if x < before.len() {
                assert(all[x] == before[x]);
                let k = choose|k: int|
                    0 <= k < n - 1 && as_declared(
                        (#[trigger] examples[k]).name,
                        examples[k].path,
                        examples[k].required_features,
                        package,
                        "examples"@,
                        before[x],
                    );
                assert(0 <= k < n && examples[k] == examples[k]);
            } else {
                assert(all[x] == this);
                assert(examples[n - 1] == examples[n - 1]);
            }
        }
        assert forall|k: int, t: BinView|
            0 <= k < n && #[trigger] as_declared(
                examples[k].name,
                examples[k].path,
                examples[k].required_features,
                package,
                "examples"@,
                t,
            ) && disk.has_file(joined(dir, t.path)) implies exists|x: int|
            0 <= x < all.len() && (#[trigger] all[x]).name == t.name && all[x].path == t.path by {
            if k < n - 1 {
                let x = choose|x: int|
                    0 <= x < before.len() && (#[trigger] before[x]).name == t.name
                        && before[x].path == t.path;
                assert(all[x] == before[x]);
            } else {
                assert(t.name == this.name);
                assert(t.path == this.path);
                assert(all[before.len() as int] == this);
            }
        }
    }
}

proof fn lemma_found_examples(declared: Seq<BinView>, entries: Seq<DirEntry>, n: int)
    requires
        0 <= n <= entries.len(),
    ensures
        ({
            let all = with_found_examples(declared, entries, n);
            &&& all.len() >= declared.len()
            &&& forall|k: int| 0 <= k < declared.len() ==> #[trigger] all[k] == declared[k]
            &&& forall|k: int|
                declared.len() <= k < all.len() ==> exists|e: int|
                    0 <= e < n && as_found(
                        (#[trigger] entries[e]).name@,
                        "examples"@,
                        #[trigger] all[k],
                    )
            &&& forall|e: int, stem: Seq<char>|
                #![trigger entries[e], stem + ".rs"@]
                0 <= e < n && stem.len() > 0 && entries[e].name@ == stem + ".rs"@ ==> exists|k: int|
                    0 <= k < all.len() && (#[trigger] all[k]).name == stem
        }),
    decreases n,
{
    if n > 0 {
        lemma_found_examples(declared, entries, n - 1);
        let before = with_found_examples(declared, entries, n - 1);
        let all = with_found_examples(declared, entries, n);
        let file = entries[n - 1].name@;
        lemma_stem(file);
        assert forall|k: int| declared.len() <= k < all.len() implies exists|e: int|
            0 <= e < n && as_found(
                (#[trigger] entries[e]).name@,
                "examples"@,
                #[trigger] all[k],
            ) by {
            if k < before.len() {
                assert(all[k] == before[k]);
                let e = choose|e: int|
                    0 <= e < n - 1 && as_found(
                        (#[trigger] entries[e]).name@,
                        "examples"@,
                        before[k],
                    );
                assert(as_found(entries[e].name@, "examples"@, all[k]));
            } else {
                assert(all[k].path =~= "examples"@ + "/"@ + file);
                assert(as_found(entries[n - 1].name@, "examples"@, all[k]));
            }
        }
        assert forall|e: int, stem: Seq<char>|
            #![trigger entries[e], stem + ".rs"@]
            0 <= e < n && stem.len() > 0 && entries[e].name@ == stem
                + ".rs"@ implies exists|k: int|
            0 <= k < all.len() && (#[trigger] all[k]).name == stem by {
            if e < n - 1 {
                let k = choose|k: int|
                    0 <= k < before.len() && (#[trigger] before[k]).name == stem;
                assert(all[k] == before[k]);
            } else {
                assert(crate::targets::rust_stem(file) == Some(stem));
                if crate::targets::has_name(before, stem) {
                    let k = choose|k: int|
                        0 <= k < before.len() && (#[trigger] before[k]).name == stem;
                    assert(all[k] == before[k]);
                } else {
                    assert(all[before.len() as int].name == stem);
                }
            }
        }
    }
}

/// A package has the examples that it declares and whose source there is, and
/// unless that is turned off, each source in `examples` whose name no other has.
pub proof fn examples_are_found(
    manifest: CargoManifest,
    package: CargoPackage,
    disk: Disk,
    dir: Seq<char>,
)
    ensures
        ({
            let all = examples_of(manifest, package, disk, dir);
            let entries = disk.entries_of(joined(dir, "examples"@));
            let auto = package.autoexamples != Some(false);
            &&& forall|x: int|
                #![trigger all[x]]
                0 <= x < all.len() ==> {
                    ||| disk.has_file(joined(dir, all[x].path)) && exists|k: int|
                        0 <= k < manifest.example@.len() && as_declared(
                            (#[trigger] manifest.example@[k]).name,
                            manifest.example@[k].path,
                            manifest.example@[k].required_features,
                            package.name@,
                            "examples"@,
                            all[x],
                        )
                    ||| auto && exists|e: int|
                        0 <= e < entries.len() && as_found(
                            (#[trigger] entries[e]).name@,
                            "examples"@,
                            all[x],
                        )
                }
            &&& forall|k: int, t: BinView|
                0 <= k < manifest.example@.len() && #[trigger] as_declared(
                    manifest.example@[k].name,
                    manifest.example@[k].path,
                    manifest.example@[k].required_features,
                    package.name@,
                    "examples"@,
                    t,
                ) && disk.has_file(joined(dir, t.path)) ==> exists|x: int|
                    0 <= x < all.len() && (#[trigger] all[x]).name == t.name && all[x].path
                        == t.path
            &&& auto ==> forall|e: int, stem: Seq<char>|
                #![trigger entries[e], stem + ".rs"@]
                0 <= e < entries.len() && stem.len() > 0 && entries[e].name@ == stem + ".rs"@
                    ==> exists|k: int| 0 <= k < all.len() && (#[trigger] all[k]).name == stem
        }),
{
    let n = manifest.example@.len() as int;
    let declared = declared_examples(manifest.example@, package.name@, disk, dir, n);
    lemma_declared_examples(manifest.example@, package.name@, disk, dir, n);
    let entries = disk.entries_of(joined(dir, "examples"@));
    let all = examples_of(manifest, package, disk, dir);
    if package.autoexamples != Some(false) {
        lemma_found_examples(declared, entries, entries.len() as int);
    }
    assert forall|x: int| #![trigger all[x]] 0 <= x < all.len() implies {
        ||| disk.has_file(joined(dir, all[x].path)) && exists|k: int|
            0 <= k < manifest.example@.len() && as_declared(
                (#[trigger] manifest.example@[k]).name,
                manifest.example@[k].path,
                manifest.example@[k].required_features,
                package.name@,
                "examples"@,
                all[x],
            )
        ||| package.autoexamples != Some(false) && exists|e: int|
            0 <= e < entries.len() && as_found(
                (#[trigger] entries[e]).name@,
                "examples"@,
                all[x],
            )
    } by {
        if x < declared.len() {
            assert(all[x] == declared[x]);
        }
    }
    assert forall|k: int, t: BinView|
        0 <= k < manifest.example@.len() && #[trigger] as_declared(
            manifest.example@[k].name,
            manifest.example@[k].path,
            manifest.example@[k].required_features,
            package.name@,
            "examples"@,
            t,
        ) && disk.has_file(joined(dir, t.path)) implies exists|x: int|
        0 <= x < all.len() && (#[trigger] all[x]).name == t.name && all[x].path == t.path by {
        let x = choose|x: int|
            0 <= x < declared.len() && (#[trigger] declared[x]).name == t.name && declared[x].path
                == t.path;
        assert(all[x] == declared[x]);
    }
}

// ---- Tests ------------------------------------------------------------------------

/// Whether a test is as it is declared, by convention in a directory: with the
/// harness unless it turns that off, and never cached.
pub open spec fn test_declared(
    test: CargoTest,
    package: Seq<char>,
    dir: Seq<char>,
    bench: bool,
    t: TestView,
) -> bool {
    &&& goes_by(test.name, test.path, package, t.name)
    &&& named_or(test.path, dir + "/"@ + t.name + ".rs"@, t.path)
    &&& t.harness <==> test.harness != Some(false)
    &&& t.bench == bench
    &&& !t.cache_test_result
    &&& just_lists(test.required_features, t.required_features)
}

/// Whether a test is found by its source: with the harness, and never cached.
pub open spec fn test_found(name: Seq<char>, path: Seq<char>, bench: bool, t: TestView) -> bool {
    &&& t.name == name
    &&& t.path == path
    &&& t.harness
    &&& t.bench == bench
    &&& !t.cache_test_result
    &&& t.required_features.len() == 0
}

proof fn lemma_declared_tests(
    tests: Seq<CargoTest>,
    package: Seq<char>,
    test_dir: Seq<char>,
    bench: bool,
    disk: Disk,
    dir: Seq<char>,
    n: int,
)
    requires
        0 <= n <= tests.len(),
    ensures
        ({
            let all = declared_tests(tests, package, test_dir, bench, disk, dir, n);
            &&& forall|x: int|
                #![trigger all[x]]
                0 <= x < all.len() ==> disk.has_file(joined(dir, all[x].path)) && exists|k: int|
                    0 <= k < n && test_declared(
                        #[trigger] tests[k],
                        package,
                        test_dir,
                        bench,
                        all[x],
                    )
            &&& forall|k: int, t: TestView|
                0 <= k < n && #[trigger] test_declared(tests[k], package, test_dir, bench, t)
                    && disk.has_file(joined(dir, t.path)) ==> exists|x: int|
                    0 <= x < all.len() && (#[trigger] all[x]).name == t.name && all[x].path
                        == t.path
        }),
    decreases n,
{
    if n > 0 {
        lemma_declared_tests(tests, package, test_dir, bench, disk, dir, n - 1);
        let before = declared_tests(tests, package, test_dir, bench, disk, dir, n - 1);
        let all = declared_tests(tests, package, test_dir, bench, disk, dir, n);
        let this = crate::targets::test_of(tests[n - 1], package, test_dir, bench);
        lemma_lists(tests[n - 1].required_features);
        assert(test_declared(tests[n - 1], package, test_dir, bench, this));
        assert forall|x: int| #![trigger all[x]] 0 <= x < all.len() implies disk.has_file(
            joined(dir, all[x].path),
        ) && exists|k: int|
            0 <= k < n && test_declared(#[trigger] tests[k], package, test_dir, bench, all[x]) by {
            if x < before.len() {
                assert(all[x] == before[x]);
                let k = choose|k: int|
                    0 <= k < n - 1 && test_declared(
                        #[trigger] tests[k],
                        package,
                        test_dir,
                        bench,
                        before[x],
                    );
                assert(0 <= k < n && tests[k] == tests[k]);
            } else {
                assert(all[x] == this);
                assert(tests[n - 1] == tests[n - 1]);
            }
        }
        assert forall|k: int, t: TestView|
            0 <= k < n && #[trigger] test_declared(tests[k], package, test_dir, bench, t) && disk.has_file(
                joined(dir, t.path),
            ) implies exists|x: int|
            0 <= x < all.len() && (#[trigger] all[x]).name == t.name && all[x].path == t.path by {
            if k < n - 1 {
                let x = choose|x: int|
                    0 <= x < before.len() && (#[trigger] before[x]).name == t.name
                        && before[x].path == t.path;
                assert(all[x] == before[x]);
            } else {
                assert(t.name == this.name);
                assert(t.path == this.path);
                assert(all[before.len() as int] == this);
            }
        }
    }
}

proof fn lemma_found_tests(entries: Seq<DirEntry>, test_dir: Seq<char>, bench: bool, n: int)
    requires
        0 <= n <= entries.len(),
    ensures
        ({
            let all = found_tests(entries, test_dir, bench, n);
            &&& forall|x: int|
                #![trigger all[x]]
                0 <= x < all.len() ==> exists|e: int|
                    0 <= e < n && (#[trigger] entries[e]).name@ == all[x].name + ".rs"@
                        && test_found(
                        all[x].name,
                        test_dir + "/"@ + all[x].name + ".rs"@,
                        bench,
                        all[x],
                    )
            &&& forall|e: int, stem: Seq<char>|
                #![trigger entries[e], stem + ".rs"@]
                0 <= e < n && stem.len() > 0 && entries[e].name@ == stem + ".rs"@ ==> exists|x: int|
                    0 <= x < all.len() && (#[trigger] all[x]).name == stem
        }),
    decreases n,
{
    if n > 0 {
        lemma_found_tests(entries, test_dir, bench, n - 1);
        let before = found_tests(entries, test_dir, bench, n - 1);
        let all = found_tests(entries, test_dir, bench, n);
        let file = entries[n - 1].name@;
        lemma_stem(file);
        assert forall|x: int| #![trigger all[x]] 0 <= x < all.len() implies exists|e: int|
            0 <= e < n && (#[trigger] entries[e]).name@ == all[x].name + ".rs"@ && test_found(
                all[x].name,
                test_dir + "/"@ + all[x].name + ".rs"@,
                bench,
                all[x],
            ) by {
            if x < before.len() {
                assert(all[x] == before[x]);
                let e = choose|e: int|
                    0 <= e < n - 1 && (#[trigger] entries[e]).name@ == before[x].name + ".rs"@
                        && test_found(
                        before[x].name,
                        test_dir + "/"@ + before[x].name + ".rs"@,
                        bench,
                        before[x],
                    );
                assert(0 <= e < n && entries[e] == entries[e]);
            } else {
                assert(entries[n - 1].name@ == all[x].name + ".rs"@);
            }
        }
        assert forall|e: int, stem: Seq<char>|
            #![trigger entries[e], stem + ".rs"@]
            0 <= e < n && stem.len() > 0 && entries[e].name@ == stem
                + ".rs"@ implies exists|x: int| 0 <= x < all.len() && (#[trigger] all[x]).name
            == stem by {
            if e < n - 1 {
                let x = choose|x: int|
                    0 <= x < before.len() && (#[trigger] before[x]).name == stem;
                assert(all[x] == before[x]);
            } else {
                assert(crate::targets::rust_stem(file) == Some(stem));
                assert(all[before.len() as int].name == stem);
            }
        }
    }
}

/// The tests of one kind are the declared ones whose source there is; where none is
/// declared, and unless that is turned off, the sources in their directory.
pub proof fn tests_of_a_kind_are_found(
    tests: Seq<CargoTest>,
    auto: Option<bool>,
    package: Seq<char>,
    test_dir: Seq<char>,
    bench: bool,
    disk: Disk,
    dir: Seq<char>,
)
    ensures
        ({
            let all = tests_in(tests, auto, package, test_dir, bench, disk, dir);
            let entries = disk.entries_of(joined(dir, test_dir));
            &&& tests.len() == 0 && auto == Some(false) ==> all.len() == 0
            &&& forall|x: int|
                #![trigger all[x]]
                0 <= x < all.len() ==> {
                    ||| tests.len() > 0 && disk.has_file(joined(dir, all[x].path))
                        && exists|k: int|
                        0 <= k < tests.len() && test_declared(
                            #[trigger] tests[k],
                            package,
                            test_dir,
                            bench,
                            all[x],
                        )
                    ||| tests.len() == 0 && exists|e: int|
                        0 <= e < entries.len() && (#[trigger] entries[e]).name@ == all[x].name
                            + ".rs"@ && test_found(
                            all[x].name,
                            test_dir + "/"@ + all[x].name + ".rs"@,
                            bench,
                            all[x],
                        )
                }
            &&& forall|k: int, t: TestView|
                0 <= k < tests.len() && #[trigger] test_declared(tests[k], package, test_dir, bench, t)
                    && disk.has_file(joined(dir, t.path)) ==> exists|x: int|
                    0 <= x < all.len() && (#[trigger] all[x]).name == t.name && all[x].path
                        == t.path
            &&& tests.len() == 0 && auto != Some(false) ==> forall|e: int, stem: Seq<char>|
                #![trigger entries[e], stem + ".rs"@]
                0 <= e < entries.len() && stem.len() > 0 && entries[e].name@ == stem + ".rs"@
                    ==> exists|x: int| 0 <= x < all.len() && (#[trigger] all[x]).name == stem
        }),
{
    let entries = disk.entries_of(joined(dir, test_dir));
    let all = tests_in(tests, auto, package, test_dir, bench, disk, dir);
    if tests.len() > 0 {
        lemma_declared_tests(tests, package, test_dir, bench, disk, dir, tests.len() as int);
    } else if auto != Some(false) {
        lemma_found_tests(entries, test_dir, bench, entries.len() as int);
        assert(all == found_tests(entries, test_dir, bench, entries.len() as int));
    } else {
        assert(all.len() == 0);
    }
}

/// The tests of a package are those in `tests`, then the benchmarks in `benches`,
/// then the unit test of its library, under the library's name.
pub proof fn packages_have_their_tests(
    manifest: CargoManifest,
    package: CargoPackage,
    lib: Option<LibView>,
    disk: Disk,
    dir: Seq<char>,
)
    ensures
        ({
            let all = tests_of(manifest, package, lib, disk, dir);
            let a = tests_in(
                manifest.test@,
                package.autotests,
                package.name@,
                "tests"@,
                false,
                disk,
                dir,
            );
            let b = tests_in(
                manifest.bench@,
                package.autobenches,
                package.name@,
                "benches"@,
                true,
                disk,
                dir,
            );
            let n = (a.len() + b.len()) as int;
            &&& all.len() == n + (if lib is Some {
                1int
            } else {
                0
            })
            &&& all.take(a.len() as int) == a
            &&& all.subrange(a.len() as int, n) == b
            &&& lib matches Some(l) ==> {
                &&& l.name matches Some(name) ==> underscored(name, all[n].name)
                &&& l.name is None ==> underscored(package.name@, all[n].name)
                &&& test_found(all[n].name, l.path, false, all[n])
            }
        }),
{
    let all = tests_of(manifest, package, lib, disk, dir);
    let a = tests_in(
        manifest.test@,
        package.autotests,
        package.name@,
        "tests"@,
        false,
        disk,
        dir,
    );
    let b = tests_in(
        manifest.bench@,
        package.autobenches,
        package.name@,
        "benches"@,
        true,
        disk,
        dir,
    );
    assert(all.take(a.len() as int) =~= a);
    assert(all.subrange(a.len() as int, a.len() as int + b.len()) =~= b);
}

} // verus!
