//! The targets of a package: what its manifest declares and what its directory
//! holds.

use vstd::prelude::*;
use vstd::string::*;
use crate::deps::{list_or, list_or_empty, string_or, text_or};
use crate::disk::{push_query, queries_view, Disk, DirEntry, Query, QueryView};
use crate::manifest::{
    crate_types_of, parse_crate_types, BuildKey, CargoBin, CargoExample, CargoImportError,
    CargoManifest, CargoPackage, CargoTest, ImportFault,
};
use crate::model::{
    bins_view, crate_name, examples_view, sanitized, tests_view, BinTarget, BinView, CrateType,
    ExampleTarget, LibTarget, LibView, TestTarget, TestView,
};
use crate::paths::{components, components_spec, joined, path_join};
use crate::text::{
    cat4, cat5, ends, last_position, opt_view, owned, same, slice, strip_suffix, texts,
    to_chars,
};

verus! {

/// A file name without its extension; a name that begins with its only dot has
/// none.
pub open spec fn stem_of(name: Seq<char>) -> Seq<char> {
    match name.index_of_last('.') {
        Some(i) => if i > 0 {
            name.take(i)
        } else {
            name
        },
        None => name,
    }
}

/// The stem of the file that a path names, where it names one.
pub open spec fn file_stem_of(path: Seq<char>) -> Option<Seq<char>> {
    let parts = components_spec(path);
    if parts.len() == 0 || parts.last() == "/"@ || parts.last() == "."@ || parts.last()
        == ".."@ {
        None
    } else {
        Some(stem_of(parts.last()))
    }
}

/// The stem of the file that a path names.
pub fn file_stem(path: &str) -> (r: Option<String>)
    ensures
        opt_view(r) == file_stem_of(path@),
{
    let parts = components(path);
    let ghost all = texts(parts@);
    assert(all.len() == parts@.len());
    if parts.len() == 0 {
        return None;
    }
    let last = parts[parts.len() - 1].as_str();
    assert(all.last() == last@);
    if same(last, "/") || same(last, ".") || same(last, "..") {
        return None;
    }
    let v = to_chars(last);
    proof {
        last@.index_of_last_ensures('.');
    }
    match last_position(&v, '.') {
        Some(i) => if i > 0 {
            let r = slice(&v, 0, i);
            assert(r@ =~= last@.take(i as int));
            Some(r)
        } else {
            Some(owned(last))
        },
        None => Some(owned(last)),
    }
}

/// The name of a target: the declared one, else the stem of its path, else the
/// package's.
pub open spec fn target_name(name: Option<String>, path: Option<String>, package: Seq<char>) -> Seq<
    char,
> {
    match name {
        Some(n) => n@,
        None => match path {
            Some(p) => match file_stem_of(p@) {
                Some(stem) => stem,
                None => package,
            },
            None => package,
        },
    }
}

fn name_of(name: &Option<String>, path: &Option<String>, package: &str) -> (r: String)
    ensures
        r@ == target_name(*name, *path, package@),
{
    match name {
        Some(n) => n.clone(),
        None => match path {
            Some(p) => match file_stem(p.as_str()) {
                Some(stem) => stem,
                None => owned(package),
            },
            None => owned(package),
        },
    }
}

/// `<dir>/<name>.rs`.
pub open spec fn source_in(dir: Seq<char>, name: Seq<char>) -> Seq<char> {
    dir + "/"@ + name + ".rs"@
}

/// The path of a target: the declared one, else the one by convention.
pub open spec fn target_path(path: Option<String>, dir: Seq<char>, name: Seq<char>) -> Seq<char> {
    match path {
        Some(p) => p@,
        None => source_in(dir, name),
    }
}

fn path_of(path: &Option<String>, dir: &str, name: &str) -> (r: String)
    ensures
        r@ == target_path(*path, dir@, name@),
{
    match path {
        Some(p) => p.clone(),
        None => cat4(dir, "/", name, ".rs"),
    }
}

/// The stem of a Rust source file's name, where it is one.
pub open spec fn rust_stem(name: Seq<char>) -> Option<Seq<char>> {
    if ends(name, ".rs"@) && name.len() > 3 {
        Some(name.take(name.len() - 3))
    } else {
        None
    }
}

fn rust_stem_of(name: &str) -> (r: Option<String>)
    ensures
        opt_view(r) == rust_stem(name@),
{
    proof {
        reveal_strlit(".rs");
    }
    match strip_suffix(name, ".rs") {
        Some(stem) => if name.unicode_len() > 3 {
            Some(stem)
        } else {
            None
        },
        None => None,
    }
}

/// A switch that is on unless it is turned off.
pub open spec fn enabled(v: Option<bool>) -> bool {
    v != Some(false)
}

fn is_enabled(v: Option<bool>) -> (r: bool)
    ensures
        r == enabled(v),
{
    match v {
        Some(b) => b,
        None => true,
    }
}

/// The build script: an explicit path, `build = false` to opt out, or Cargo's
/// auto-detection of `build.rs` at the package root.
pub open spec fn build_script_of(package: CargoPackage, disk: Disk, dir: Seq<char>) -> Result<
    Option<Seq<char>>,
    ImportFault,
> {
    match package.build {
        Some(BuildKey::Path(path)) => Ok(Some(path@)),
        Some(BuildKey::Flag(on)) => if on {
            Err(
                ImportFault::Unsupported(
                    "package "@ + package.name@ + " in "@ + dir
                        + " sets build = true; Cargo requires a path or false"@,
                ),
            )
        } else {
            Ok(None)
        },
        None => Ok(
            if disk.has_file(joined(dir, "build.rs"@)) {
                Some("build.rs"@)
            } else {
                None
            },
        ),
    }
}

/// Finds the build script.
pub fn find_build_script(package: &CargoPackage, disk: &Disk, dir: &str) -> (r: Result<
    Option<String>,
    CargoImportError,
>)
    ensures
        (match r {
            Ok(s) => Ok::<Option<Seq<char>>, ImportFault>(opt_view(s)),
            Err(e) => Err(e@),
        }) == build_script_of(*package, *disk, dir@),
{
    match &package.build {
        Some(BuildKey::Path(path)) => Ok(Some(path.clone())),
        Some(BuildKey::Flag(on)) => if *on {
            Err(
                CargoImportError::Unsupported(
                    cat5(
                        "package ",
                        package.name.as_str(),
                        " in ",
                        dir,
                        " sets build = true; Cargo requires a path or false",
                    ),
                ),
            )
        } else {
            Ok(None)
        },
        None => if disk.is_file(path_join(dir, "build.rs").as_str()) {
            Ok(Some(owned("build.rs")))
        } else {
            Ok(None)
        },
    }
}

/// The library target: an explicit `[lib]`, or `src/lib.rs` where it exists.
pub open spec fn lib_of(manifest: CargoManifest, package: CargoPackage, disk: Disk, dir: Seq<char>) -> Result<
    Option<LibView>,
    ImportFault,
> {
    match manifest.lib {
        Some(lib) => match crate_types_of(texts(lib.crate_type@)) {
            Ok(crate_types) => Ok(
                Some(
                    LibView {
                        name: opt_view(lib.name),
                        crate_types,
                        proc_macro: lib.proc_macro,
                        path: text_or(lib.path, "src/lib.rs"@),
                    },
                ),
            ),
            Err(fault) => Err(fault),
        },
        None => Ok(
            if disk.has_file(joined(dir, "src/lib.rs"@)) && enabled(package.autolib) {
                Some(
                    LibView {
                        name: None,
                        crate_types: Seq::empty(),
                        proc_macro: false,
                        path: "src/lib.rs"@,
                    },
                )
            } else {
                None
            },
        ),
    }
}

/// Finds the library target.
pub fn find_lib(manifest: &CargoManifest, package: &CargoPackage, disk: &Disk, dir: &str) -> (r: Result<
    Option<LibTarget>,
    CargoImportError,
>)
    ensures
        (match r {
            Ok(Some(lib)) => Ok::<Option<LibView>, ImportFault>(Some(lib@)),
            Ok(None) => Ok(None),
            Err(e) => Err(e@),
        }) == lib_of(*manifest, *package, *disk, dir@),
{
    match &manifest.lib {
        Some(lib) => match parse_crate_types(&lib.crate_type) {
            Ok(crate_types) => Ok(
                Some(
                    LibTarget {
                        name: crate::text::copy_opt(&lib.name),
                        crate_types,
                        proc_macro: lib.proc_macro,
                        path: string_or(&lib.path, "src/lib.rs"),
                    },
                ),
            ),
            Err(e) => Err(e),
        },
        None => if disk.is_file(path_join(dir, "src/lib.rs").as_str()) && is_enabled(
            package.autolib,
        ) {
            let lib = LibTarget {
                name: None,
                crate_types: Vec::new(),
                proc_macro: false,
                path: owned("src/lib.rs"),
            };
            assert(lib@.crate_types =~= Seq::<CrateType>::empty());
            Ok(Some(lib))
        } else {
            Ok(None)
        },
    }
}

/// A declared binary.
pub open spec fn bin_of(bin: CargoBin, package: Seq<char>) -> BinView {
    let name = target_name(bin.name, bin.path, package);
    BinView {
        name,
        crate_name: sanitized(name),
        path: target_path(bin.path, "src/bin"@, name),
        required_features: list_or_empty(bin.required_features),
    }
}

/// The declared binaries: explicit `[[bin]]` entries, or `src/main.rs` where it
/// exists.
pub open spec fn main_bins(
    manifest: CargoManifest,
    package: CargoPackage,
    disk: Disk,
    dir: Seq<char>,
) -> Seq<BinView> {
    if manifest.bin@.len() == 0 {
        if enabled(package.autobins) && disk.has_file(joined(dir, "src/main.rs"@)) {
            seq![
                BinView {
                    name: package.name@,
                    crate_name: sanitized(package.name@),
                    path: "src/main.rs"@,
                    required_features: Seq::empty(),
                },
            ]
        } else {
            Seq::empty()
        }
    } else {
        manifest.bin@.map_values(|b: CargoBin| bin_of(b, package.name@))
    }
}

/// A binary found by its source.
pub open spec fn found_bin(name: Seq<char>) -> BinView {
    BinView {
        name,
        crate_name: sanitized(name),
        path: source_in("src/bin"@, name),
        required_features: Seq::empty(),
    }
}

/// Whether one of these targets has this name or this source.
pub open spec fn is_taken(targets: Seq<BinView>, name: Seq<char>, path: Seq<char>) -> bool {
    exists|k: int|
        0 <= k < targets.len() && ((#[trigger] targets[k]).name == name || targets[k].path == path)
}

/// The declared binaries, and those that the first `n` entries of `src/bin` add:
/// each source file that is not taken yet.
pub open spec fn with_found_bins(declared: Seq<BinView>, entries: Seq<DirEntry>, n: int) -> Seq<
    BinView,
>
    decreases n,
{
    if n <= 0 {
        declared
    } else {
        let before = with_found_bins(declared, entries, n - 1);
        match rust_stem(entries[n - 1].name@) {
            Some(name) => if is_taken(before, name, source_in("src/bin"@, name)) {
                before
            } else {
                before.push(found_bin(name))
            },
            None => before,
        }
    }
}

/// The binaries: the declared ones, plus auto-discovered `src/bin/*.rs`.
pub open spec fn bins_of(manifest: CargoManifest, package: CargoPackage, disk: Disk, dir: Seq<char>) -> Seq<
    BinView,
> {
    let declared = main_bins(manifest, package, disk, dir);
    if enabled(package.autobins) {
        let entries = disk.entries_of(joined(dir, "src/bin"@));
        with_found_bins(declared, entries, entries.len() as int)
    } else {
        declared
    }
}

fn find_main_bins(manifest: &CargoManifest, package: &CargoPackage, disk: &Disk, dir: &str) -> (r: Vec<
    BinTarget,
>)
    ensures
        bins_view(r@) == main_bins(*manifest, *package, *disk, dir@),
{
    let mut out: Vec<BinTarget> = Vec::new();
    if manifest.bin.len() == 0 {
        if is_enabled(package.autobins) && disk.is_file(path_join(dir, "src/main.rs").as_str()) {
            let bin = BinTarget {
                name: package.name.clone(),
                crate_name: crate_name(package.name.as_str()),
                path: owned("src/main.rs"),
                required_features: Vec::new(),
            };
            assert(bin@.required_features =~= Seq::<Seq<char>>::empty());
            out.push(bin);
        }
        assert(bins_view(out@) =~= main_bins(*manifest, *package, *disk, dir@));
        return out;
    }
    let ghost want = main_bins(*manifest, *package, *disk, dir@);
    let mut i: usize = 0;
    while i < manifest.bin.len()
        invariant
            i <= manifest.bin@.len(),
            manifest.bin@.len() > 0,
            want == main_bins(*manifest, *package, *disk, dir@),
            bins_view(out@) == want.take(i as int),
        decreases manifest.bin@.len() - i,
    {
        let bin = &manifest.bin[i];
        let name = name_of(&bin.name, &bin.path, package.name.as_str());
        let path = path_of(&bin.path, "src/bin", name.as_str());
        let ghost before = out@;
        let target = BinTarget {
            crate_name: crate_name(name.as_str()),
            name,
            path,
            required_features: list_or(&bin.required_features),
        };
        out.push(target);
        assert(bins_view(out@) =~= bins_view(before).push(target@));
        assert(target@ == want[i as int]);
        i += 1;
        assert(bins_view(out@) =~= want.take(i as int));
    }
    assert(want.take(want.len() as int) =~= want);
    out
}

fn bin_taken(bins: &Vec<BinTarget>, name: &str, path: &str) -> (r: bool)
    ensures
        r == is_taken(bins_view(bins@), name@, path@),
{
    let ghost all = bins_view(bins@);
    let mut i: usize = 0;
    while i < bins.len()
        invariant
            i <= bins@.len(),
            all == bins_view(bins@),
            forall|k: int|
                0 <= k < i ==> (#[trigger] all[k]).name != name@ && all[k].path != path@,
        decreases bins@.len() - i,
    {
        assert(all[i as int].name == bins@[i as int].name@);
        assert(all[i as int].path == bins@[i as int].path@);
        if same(bins[i].name.as_str(), name) || same(bins[i].path.as_str(), path) {
            return true;
        }
        i += 1;
    }
    false
}

/// Finds the binaries.
pub fn find_bins(manifest: &CargoManifest, package: &CargoPackage, disk: &Disk, dir: &str) -> (r: Vec<
    BinTarget,
>)
    ensures
        bins_view(r@) == bins_of(*manifest, *package, *disk, dir@),
{
    let mut out = find_main_bins(manifest, package, disk, dir);
    if !is_enabled(package.autobins) {
        return out;
    }
    let ghost declared = bins_view(out@);
    let listed = path_join(dir, "src/bin");
    if let Some(Ok(entries)) = disk.listings.get(listed.as_str()) {
        let mut k: usize = 0;
        while k < entries.len()
            invariant
                k <= entries@.len(),
                bins_view(out@) == with_found_bins(declared, entries@, k as int),
            decreases entries@.len() - k,
        {
            if let Some(name) = rust_stem_of(entries[k].name.as_str()) {
                let path = cat4("src/bin", "/", name.as_str(), ".rs");
                if !bin_taken(&out, name.as_str(), path.as_str()) {
                    let ghost before = out@;
                    let found = BinTarget {
                        crate_name: crate_name(name.as_str()),
                        name,
                        path,
                        required_features: Vec::new(),
                    };
                    assert(found@.required_features =~= Seq::<Seq<char>>::empty());
                    out.push(found);
                    assert(bins_view(out@) =~= bins_view(before).push(found@));
                }
            }
            k += 1;
        }
    }
    out
}

/// A declared example.
pub open spec fn example_of(example: CargoExample, package: Seq<char>) -> BinView {
    let name = target_name(example.name, example.path, package);
    BinView {
        name,
        crate_name: sanitized(name),
        path: target_path(example.path, "examples"@, name),
        required_features: list_or_empty(example.required_features),
    }
}

/// Those of the first `n` declared examples whose source exists.
pub open spec fn declared_examples(
    examples: Seq<CargoExample>,
    package: Seq<char>,
    disk: Disk,
    dir: Seq<char>,
    n: int,
) -> Seq<BinView>
    decreases n,
{
    if n <= 0 {
        Seq::empty()
    } else {
        let before = declared_examples(examples, package, disk, dir, n - 1);
        let example = example_of(examples[n - 1], package);
        if disk.has_file(joined(dir, example.path)) {
            before.push(example)
        } else {
            before
        }
    }
}

/// An example found by its source.
pub open spec fn found_example(name: Seq<char>) -> BinView {
    BinView {
        name,
        crate_name: sanitized(name),
        path: source_in("examples"@, name),
        required_features: Seq::empty(),
    }
}

/// Whether one of these targets has this name.
pub open spec fn has_name(targets: Seq<BinView>, name: Seq<char>) -> bool {
    exists|k: int| 0 <= k < targets.len() && (#[trigger] targets[k]).name == name
}

/// The declared examples, and those that the first `n` directory entries add:
/// each source file whose name is not taken yet.
pub open spec fn with_found_examples(declared: Seq<BinView>, entries: Seq<DirEntry>, n: int) -> Seq<
    BinView,
>
    decreases n,
{
    if n <= 0 {
        declared
    } else {
        let before = with_found_examples(declared, entries, n - 1);
        match rust_stem(entries[n - 1].name@) {
            Some(name) => if has_name(before, name) {
                before
            } else {
                before.push(found_example(name))
            },
            None => before,
        }
    }
}

/// The examples: `[[example]]` entries whose source exists, plus
/// auto-discovered `examples/*.rs`.
pub open spec fn examples_of(
    manifest: CargoManifest,
    package: CargoPackage,
    disk: Disk,
    dir: Seq<char>,
) -> Seq<BinView> {
    let declared = declared_examples(
        manifest.example@,
        package.name@,
        disk,
        dir,
        manifest.example@.len() as int,
    );
    if enabled(package.autoexamples) {
        let entries = disk.entries_of(joined(dir, "examples"@));
        with_found_examples(declared, entries, entries.len() as int)
    } else {
        declared
    }
}

/// Finds the examples.
pub fn find_examples(manifest: &CargoManifest, package: &CargoPackage, disk: &Disk, dir: &str) -> (r: Vec<
    ExampleTarget,
>)
    ensures
        examples_view(r@) == examples_of(*manifest, *package, *disk, dir@),
{
    let mut out: Vec<ExampleTarget> = Vec::new();
    let mut i: usize = 0;
    assert(examples_view(out@) =~= Seq::<BinView>::empty());
    while i < manifest.example.len()
        invariant
            i <= manifest.example@.len(),
            examples_view(out@) == declared_examples(
                manifest.example@,
                package.name@,
                *disk,
                dir@,
                i as int,
            ),
        decreases manifest.example@.len() - i,
    {
        let example = &manifest.example[i];
        let name = name_of(&example.name, &example.path, package.name.as_str());
        let path = path_of(&example.path, "examples", name.as_str());
        let ghost before = out@;
        if disk.is_file(path_join(dir, path.as_str()).as_str()) {
            let found = ExampleTarget {
                crate_name: crate_name(name.as_str()),
                name,
                path,
                required_features: list_or(&example.required_features),
            };
            out.push(found);
            assert(examples_view(out@) =~= examples_view(before).push(found@));
        }
        i += 1;
    }
    if !is_enabled(package.autoexamples) {
        return out;
    }
    let ghost declared = examples_view(out@);
    let listed = path_join(dir, "examples");
    if let Some(Ok(entries)) = disk.listings.get(listed.as_str()) {
        let mut k: usize = 0;
        while k < entries.len()
            invariant
                k <= entries@.len(),
                examples_view(out@) == with_found_examples(declared, entries@, k as int),
            decreases entries@.len() - k,
        {
            if let Some(name) = rust_stem_of(entries[k].name.as_str()) {
                if !example_named(&out, name.as_str()) {
                    let ghost before = out@;
                    let path = cat4("examples", "/", name.as_str(), ".rs");
                    let found = ExampleTarget {
                        crate_name: crate_name(name.as_str()),
                        name,
                        path,
                        required_features: Vec::new(),
                    };
                    assert(found@.required_features =~= Seq::<Seq<char>>::empty());
                    out.push(found);
                    assert(examples_view(out@) =~= examples_view(before).push(found@));
                }
            }
            k += 1;
        }
    }
    out
}

fn example_named(examples: &Vec<ExampleTarget>, name: &str) -> (r: bool)
    ensures
        r == has_name(examples_view(examples@), name@),
{
    let ghost all = examples_view(examples@);
    let mut i: usize = 0;
    while i < examples.len()
        invariant
            i <= examples@.len(),
            all == examples_view(examples@),
            forall|k: int| 0 <= k < i ==> (#[trigger] all[k]).name != name@,
        decreases examples@.len() - i,
    {
        assert(all[i as int].name == examples@[i as int].name@);
        if same(examples[i].name.as_str(), name) {
            return true;
        }
        i += 1;
    }
    false
}

/// A declared test or benchmark.
pub open spec fn test_of(test: CargoTest, package: Seq<char>, test_dir: Seq<char>, bench: bool) -> TestView {
    let name = target_name(test.name, test.path, package);
    TestView {
        name,
        path: target_path(test.path, test_dir, name),
        harness: enabled(test.harness),
        bench,
        doc: false,
        cache_test_result: false,
        required_features: list_or_empty(test.required_features),
    }
}

/// Those of the first `n` declared tests whose source exists.
pub open spec fn declared_tests(
    tests: Seq<CargoTest>,
    package: Seq<char>,
    test_dir: Seq<char>,
    bench: bool,
    disk: Disk,
    dir: Seq<char>,
    n: int,
) -> Seq<TestView>
    decreases n,
{
    if n <= 0 {
        Seq::empty()
    } else {
        let before = declared_tests(tests, package, test_dir, bench, disk, dir, n - 1);
        let test = test_of(tests[n - 1], package, test_dir, bench);
        if disk.has_file(joined(dir, test.path)) {
            before.push(test)
        } else {
            before
        }
    }
}

/// A test found by its source.
pub open spec fn found_test(name: Seq<char>, path: Seq<char>, bench: bool) -> TestView {
    TestView {
        name,
        path,
        harness: true,
        bench,
        doc: false,
        cache_test_result: false,
        required_features: Seq::empty(),
    }
}

/// The tests among the first `n` directory entries.
pub open spec fn found_tests(entries: Seq<DirEntry>, test_dir: Seq<char>, bench: bool, n: int) -> Seq<
    TestView,
>
    decreases n,
{
    if n <= 0 {
        Seq::empty()
    } else {
        let before = found_tests(entries, test_dir, bench, n - 1);
        match rust_stem(entries[n - 1].name@) {
            Some(name) => before.push(found_test(name, source_in(test_dir, name), bench)),
            None => before,
        }
    }
}

/// The tests of one kind: the declared ones whose source exists; where none is
/// declared, those that the directory holds.
pub open spec fn tests_in(
    tests: Seq<CargoTest>,
    auto: Option<bool>,
    package: Seq<char>,
    test_dir: Seq<char>,
    bench: bool,
    disk: Disk,
    dir: Seq<char>,
) -> Seq<TestView> {
    if tests.len() > 0 {
        declared_tests(tests, package, test_dir, bench, disk, dir, tests.len() as int)
    } else if enabled(auto) {
        let entries = disk.entries_of(joined(dir, test_dir));
        found_tests(entries, test_dir, bench, entries.len() as int)
    } else {
        Seq::empty()
    }
}

/// The name of a library crate.
pub open spec fn lib_name_of(lib: LibView, package: Seq<char>) -> Seq<char> {
    match lib.name {
        Some(name) => sanitized(name),
        None => sanitized(package),
    }
}

/// The test targets: tests, benchmarks, and the library's own unit test.
pub open spec fn tests_of(
    manifest: CargoManifest,
    package: CargoPackage,
    lib: Option<LibView>,
    disk: Disk,
    dir: Seq<char>,
) -> Seq<TestView> {
    let unit = match lib {
        Some(l) => seq![found_test(lib_name_of(l, package.name@), l.path, false)],
        None => Seq::empty(),
    };
    tests_in(manifest.test@, package.autotests, package.name@, "tests"@, false, disk, dir)
        + tests_in(
        manifest.bench@,
        package.autobenches,
        package.name@,
        "benches"@,
        true,
        disk,
        dir,
    ) + unit
}

/// Appends the tests of one kind.
fn add_tests(
    out: &mut Vec<TestTarget>,
    tests: &Vec<CargoTest>,
    auto: Option<bool>,
    package: &str,
    test_dir: &str,
    bench: bool,
    disk: &Disk,
    dir: &str,
)
    ensures
        tests_view(final(out)@) == tests_view(old(out)@) + tests_in(
            tests@,
            auto,
            package@,
            test_dir@,
            bench,
            *disk,
            dir@,
        ),
{
    let ghost start = tests_view(out@);
    if tests.len() > 0 {
        let mut i: usize = 0;
        assert(start =~= start + Seq::<TestView>::empty());
        while i < tests.len()
            invariant
                i <= tests@.len(),
                tests_view(out@) == start + declared_tests(
                    tests@,
                    package@,
                    test_dir@,
                    bench,
                    *disk,
                    dir@,
                    i as int,
                ),
            decreases tests@.len() - i,
        {
            let test = &tests[i];
            let name = name_of(&test.name, &test.path, package);
            let path = path_of(&test.path, test_dir, name.as_str());
            let ghost before = out@;
            if disk.is_file(path_join(dir, path.as_str()).as_str()) {
                let target = TestTarget {
                    name,
                    path,
                    harness: is_enabled(test.harness),
                    bench,
                    doc: false,
                    cache_test_result: false,
                    required_features: list_or(&test.required_features),
                };
                out.push(target);
                assert(tests_view(out@) =~= tests_view(before).push(target@));
                assert(tests_view(out@) =~= start + declared_tests(
                    tests@,
                    package@,
                    test_dir@,
                    bench,
                    *disk,
                    dir@,
                    i as int + 1,
                ));
            }
            i += 1;
        }
        return;
    }
    assert(start =~= start + Seq::<TestView>::empty());
    if !is_enabled(auto) {
        return;
    }
    let listed = path_join(dir, test_dir);
    if let Some(Ok(entries)) = disk.listings.get(listed.as_str()) {
        let mut k: usize = 0;
        while k < entries.len()
            invariant
                k <= entries@.len(),
                tests_view(out@) == start + found_tests(entries@, test_dir@, bench, k as int),
            decreases entries@.len() - k,
        {
            if let Some(name) = rust_stem_of(entries[k].name.as_str()) {
                let path = cat4(test_dir, "/", name.as_str(), ".rs");
                push_found(out, name, path, bench);
                assert(tests_view(out@) =~= start + found_tests(
                    entries@,
                    test_dir@,
                    bench,
                    k as int + 1,
                ));
            }
            k += 1;
        }
    }
}

fn push_found(out: &mut Vec<TestTarget>, name: String, path: String, bench: bool)
    ensures
        tests_view(final(out)@) == tests_view(old(out)@).push(found_test(name@, path@, bench)),
{
    let ghost before = out@;
    let target = TestTarget {
        name,
        path,
        harness: true,
        bench,
        doc: false,
        cache_test_result: false,
        required_features: Vec::new(),
    };
    assert(target@.required_features =~= Seq::<Seq<char>>::empty());
    out.push(target);
    assert(tests_view(out@) =~= tests_view(before).push(target@));
}

/// What an optional library target holds.
pub open spec fn lib_view(lib: Option<LibTarget>) -> Option<LibView> {
    match lib {
        Some(l) => Some(l@),
        None => None,
    }
}

/// Finds the test targets.
pub fn find_tests(
    manifest: &CargoManifest,
    package: &CargoPackage,
    lib: &Option<LibTarget>,
    disk: &Disk,
    dir: &str,
) -> (r: Vec<TestTarget>)
    ensures
        tests_view(r@) == tests_of(*manifest, *package, lib_view(*lib), *disk, dir@),
{
    let mut out: Vec<TestTarget> = Vec::new();
    let name = package.name.as_str();
    add_tests(&mut out, &manifest.test, package.autotests, name, "tests", false, disk, dir);
    assert(tests_view(out@) =~= tests_in(
        manifest.test@,
        package.autotests,
        name@,
        "tests"@,
        false,
        *disk,
        dir@,
    ));
    add_tests(&mut out, &manifest.bench, package.autobenches, name, "benches", true, disk, dir);
    let ghost before = tests_view(out@);
    match lib {
        Some(l) => {
            let crate_text = match &l.name {
                Some(n) => crate_name(n.as_str()),
                None => crate_name(name),
            };
            push_found(&mut out, crate_text, l.path.clone(), false);
            assert(tests_view(out@) =~= before + seq![
                found_test(lib_name_of(l@, name@), l@.path, false),
            ]);
        },
        None => {
            assert(tests_view(out@) =~= before + Seq::<TestView>::empty());
        },
    }
    out
}

/// The facts about the sources of the first `n` declared examples.
pub open spec fn example_queries(examples: Seq<CargoExample>, package: Seq<char>, dir: Seq<char>, n: int) -> Seq<
    QueryView,
>
    decreases n,
{
    if n <= 0 {
        Seq::empty()
    } else {
        example_queries(examples, package, dir, n - 1).push(
            QueryView::IsFile(joined(dir, example_of(examples[n - 1], package).path)),
        )
    }
}

/// The facts about the sources of the first `n` declared tests.
pub open spec fn test_queries(
    tests: Seq<CargoTest>,
    package: Seq<char>,
    test_dir: Seq<char>,
    dir: Seq<char>,
    n: int,
) -> Seq<QueryView>
    decreases n,
{
    if n <= 0 {
        Seq::empty()
    } else {
        test_queries(tests, package, test_dir, dir, n - 1).push(
            QueryView::IsFile(joined(dir, test_of(tests[n - 1], package, test_dir, false).path)),
        )
    }
}

/// The facts about files and directories that a package's targets depend on.
pub open spec fn target_queries(manifest: CargoManifest, package: CargoPackage, dir: Seq<char>) -> Seq<
    QueryView,
> {
    seq![
        QueryView::IsFile(joined(dir, "build.rs"@)),
        QueryView::IsFile(joined(dir, "src/lib.rs"@)),
        QueryView::IsFile(joined(dir, "src/main.rs"@)),
        QueryView::List(joined(dir, "src/bin"@)),
        QueryView::List(joined(dir, "examples"@)),
        QueryView::List(joined(dir, "tests"@)),
        QueryView::List(joined(dir, "benches"@)),
    ] + example_queries(
        manifest.example@,
        package.name@,
        dir,
        manifest.example@.len() as int,
    ) + test_queries(
        manifest.test@,
        package.name@,
        "tests"@,
        dir,
        manifest.test@.len() as int,
    ) + test_queries(
        manifest.bench@,
        package.name@,
        "benches"@,
        dir,
        manifest.bench@.len() as int,
    )
}

fn add_test_queries(out: &mut Vec<Query>, tests: &Vec<CargoTest>, package: &str, test_dir: &str, dir: &str)
    ensures
        queries_view(final(out)@) == queries_view(old(out)@) + test_queries(
            tests@,
            package@,
            test_dir@,
            dir@,
            tests@.len() as int,
        ),
{
    let ghost start = queries_view(out@);
    let mut i: usize = 0;
    assert(start =~= start + Seq::<QueryView>::empty());
    while i < tests.len()
        invariant
            i <= tests@.len(),
            queries_view(out@) == start + test_queries(
                tests@,
                package@,
                test_dir@,
                dir@,
                i as int,
            ),
        decreases tests@.len() - i,
    {
        let test = &tests[i];
        let name = name_of(&test.name, &test.path, package);
        let path = path_of(&test.path, test_dir, name.as_str());
        push_query(out, Query::IsFile(path_join(dir, path.as_str())));
        i += 1;
        assert(queries_view(out@) =~= start + test_queries(
            tests@,
            package@,
            test_dir@,
            dir@,
            i as int,
        ));
    }
}

/// Lists the facts about files and directories that a package's targets depend
/// on.
pub fn list_target_queries(manifest: &CargoManifest, package: &CargoPackage, dir: &str) -> (r: Vec<
    Query,
>)
    ensures
        queries_view(r@) == target_queries(*manifest, *package, dir@),
{
    let mut out: Vec<Query> = Vec::new();
    push_query(&mut out, Query::IsFile(path_join(dir, "build.rs")));
    push_query(&mut out, Query::IsFile(path_join(dir, "src/lib.rs")));
    push_query(&mut out, Query::IsFile(path_join(dir, "src/main.rs")));
    push_query(&mut out, Query::List(path_join(dir, "src/bin")));
    push_query(&mut out, Query::List(path_join(dir, "examples")));
    push_query(&mut out, Query::List(path_join(dir, "tests")));
    push_query(&mut out, Query::List(path_join(dir, "benches")));
    let ghost start = seq![
        QueryView::IsFile(joined(dir@, "build.rs"@)),
        QueryView::IsFile(joined(dir@, "src/lib.rs"@)),
        QueryView::IsFile(joined(dir@, "src/main.rs"@)),
        QueryView::List(joined(dir@, "src/bin"@)),
        QueryView::List(joined(dir@, "examples"@)),
        QueryView::List(joined(dir@, "tests"@)),
        QueryView::List(joined(dir@, "benches"@)),
    ];
    assert(queries_view(out@) =~= start);
    let mut i: usize = 0;
    assert(start =~= start + Seq::<QueryView>::empty());
    while i < manifest.example.len()
        invariant
            i <= manifest.example@.len(),
            queries_view(out@) == start + example_queries(
                manifest.example@,
                package.name@,
                dir@,
                i as int,
            ),
        decreases manifest.example@.len() - i,
    {
        let example = &manifest.example[i];
        let name = name_of(&example.name, &example.path, package.name.as_str());
        let path = path_of(&example.path, "examples", name.as_str());
        push_query(&mut out, Query::IsFile(path_join(dir, path.as_str())));
        i += 1;
        assert(queries_view(out@) =~= start + example_queries(
            manifest.example@,
            package.name@,
            dir@,
            i as int,
        ));
    }
    add_test_queries(&mut out, &manifest.test, package.name.as_str(), "tests", dir);
    add_test_queries(&mut out, &manifest.bench, package.name.as_str(), "benches", dir);
    out
}

} // verus!
