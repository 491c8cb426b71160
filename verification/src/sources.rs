//! Source trees of units, and what a build hands out.

use vstd::prelude::*;
use vstd::string::*;
use crate::digest::{digest_hex, Digest};
use crate::directives::Directives;
use crate::graph::{collect_cc, imports_native, native_closure, reaches, Walk};
use crate::model::{CcImport, Package, RustModel};
use crate::plan::{features_met, has_features, pairs_view, Unit};
use crate::strmap::{ascending_of, StrMap};
use crate::text::{
    cat4, cat5, copy_texts, decimal, list_contains, owned, push_text, quote, quoted,
    rsplit_once, rsplit_once_spec, same, slice, texts, to_chars, u64_text,
};
use crate::units::{
    label, label_of, name_script_compile, name_script_run, script_compile_id, script_run_id,
    MountedRoot, PlanError, PlanFault, Planner,
};

verus! {

// ---- Narrowing by rerun-if-changed ---------------------------------------------------------

/// The paths that a build script's inputs narrow to; nothing where it declared
/// none, and the whole package tree counts.
pub open spec fn narrowed_to(declared: Seq<Seq<char>>, script: Option<Seq<char>>) -> Option<
    Seq<Seq<char>>,
> {
    if declared.len() == 0 {
        None
    } else {
        match script {
            Some(s) => if declared.contains(s) {
                Some(declared)
            } else {
                Some(declared.push(s))
            },
            None => Some(declared),
        }
    }
}

/// Lists the paths that a build script's inputs narrow to: the declared ones,
/// and the build script itself, which Cargo always tracks.
pub fn narrowed_paths(directives: &Directives, script: Option<&String>) -> (r: Option<Vec<String>>)
    ensures
        (match r {
            Some(v) => Some(texts(v@)),
            None => None,
        }) == narrowed_to(
            texts(directives.rerun_if_changed@),
            match script {
                Some(s) => Some(s@),
                None => None,
            },
        ),
{
    assert(texts(directives.rerun_if_changed@).len() == directives.rerun_if_changed@.len());
    if directives.rerun_if_changed.len() == 0 {
        return None;
    }
    let mut out = copy_texts(&directives.rerun_if_changed);
    if let Some(s) = script {
        if !list_contains(&out, s.as_str()) {
            push_text(&mut out, s.as_str());
        }
    }
    Some(out)
}

/// What a declared path is on the disk; a path within the package is given
/// relative to it.
#[derive(Clone, Debug)]
pub enum PathFact {
    /// It does not exist.
    Missing,
    /// It lies outside the package directory.
    Outside,
    /// A directory.
    Directory(String),
    /// A file.
    File(String),
}

/// A part of a narrowed tree.
#[derive(Clone, Debug)]
pub enum TreePart {
    /// The directory at this path, mounted there.
    Directory(String),
    /// The file of this name, mounted in this directory.
    File { dir: String, name: String },
}

/// What a part of a narrowed tree is.
pub enum PartView {
    Directory(Seq<char>),
    File { dir: Seq<char>, name: Seq<char> },
}

impl View for TreePart {
    type V = PartView;

    open spec fn view(&self) -> PartView {
        match *self {
            TreePart::Directory(path) => PartView::Directory(path@),
            TreePart::File { dir, name } => PartView::File { dir: dir@, name: name@ },
        }
    }
}

/// What parts of a narrowed tree are.
pub open spec fn parts_view(v: Seq<TreePart>) -> Seq<PartView> {
    v.map_values(|p: TreePart| p@)
}

/// A file in its directory; the package's own is `.`.
pub open spec fn file_part(path: Seq<char>) -> PartView {
    match rsplit_once_spec(path, '/') {
        Some((dir, name)) => PartView::File { dir, name },
        None => PartView::File { dir: "."@, name: path },
    }
}

/// The parts that the first `n` paths stand for; a directory counts once.
pub open spec fn parts_upto(
    package: Seq<char>,
    paths: Seq<Seq<char>>,
    facts: Seq<PathFact>,
    n: int,
) -> Result<Seq<PartView>, Seq<char>>
    decreases n,
{
    if n <= 0 {
        Ok(Seq::empty())
    } else {
        match parts_upto(package, paths, facts, n - 1) {
            Err(message) => Err(message),
            Ok(before) => match facts[n - 1] {
                PathFact::Missing => Err(
                    "build script for "@ + package + " emitted rerun-if-changed="@ + quoted(
                        paths[n - 1],
                    ) + " but no such file or directory exists"@,
                ),
                PathFact::Outside => Err(
                    "build script for "@ + package + " declares rerun-if-changed="@ + quoted(
                        paths[n - 1],
                    )
                        + " outside the package directory; only in-package paths are supported"@,
                ),
                PathFact::Directory(path) => if before.contains(PartView::Directory(path@)) {
                    Ok(before)
                } else {
                    Ok(before.push(PartView::Directory(path@)))
                },
                PathFact::File(path) => Ok(before.push(file_part(path@))),
            },
        }
    }
}

proof fn lemma_parts_fault(
    package: Seq<char>,
    paths: Seq<Seq<char>>,
    facts: Seq<PathFact>,
    a: int,
    b: int,
)
    requires
        a <= b,
        parts_upto(package, paths, facts, a) is Err,
    ensures
        parts_upto(package, paths, facts, b) == parts_upto(package, paths, facts, a),
    decreases b,
{
    if a < b {
        lemma_parts_fault(package, paths, facts, a, b - 1);
    }
}

fn has_directory(parts: &Vec<TreePart>, path: &str) -> (r: bool)
    ensures
        r == parts_view(parts@).contains(PartView::Directory(path@)),
{
    let ghost all = parts_view(parts@);
    let mut i: usize = 0;
    while i < parts.len()
        invariant
            i <= parts@.len(),
            all == parts_view(parts@),
            forall|k: int| 0 <= k < i ==> #[trigger] all[k] != PartView::Directory(path@),
        decreases parts@.len() - i,
    {
        assert(all[i as int] == parts@[i as int]@);
        if let TreePart::Directory(p) = &parts[i] {
            if same(p.as_str(), path) {
                return true;
            }
        }
        i += 1;
    }
    false
}

/// Finds the parts of the tree that a build script's inputs narrow to; a
/// declared path that does not exist, or that lies outside the package, is an
/// error.
pub fn narrowed_parts(package: &str, paths: &Vec<String>, facts: &Vec<PathFact>) -> (r: Result<
    Vec<TreePart>,
    PlanError,
>)
    requires
        paths@.len() == facts@.len(),
    ensures
        match parts_upto(package@, texts(paths@), facts@, facts@.len() as int) {
            Ok(parts) => r is Ok && parts_view(r->Ok_0@) == parts,
            Err(message) => r is Err && r->Err_0@ == PlanFault::Message(message),
        },
{
    let ghost all = texts(paths@);
    let mut out: Vec<TreePart> = Vec::new();
    let mut i: usize = 0;
    assert(parts_view(out@) =~= Seq::<PartView>::empty());
    while i < facts.len()
        invariant
            i <= facts@.len(),
            paths@.len() == facts@.len(),
            all == texts(paths@),
            parts_upto(package@, all, facts@, i as int) == Ok::<Seq<PartView>, Seq<char>>(
                parts_view(out@),
            ),
        decreases facts@.len() - i,
    {
        assert(all[i as int] == paths@[i as int]@);
        let ghost before = out@;
        match &facts[i] {
            PathFact::Missing => {
                proof {
                    lemma_parts_fault(package@, all, facts@, i as int + 1, facts@.len() as int);
                }
                return Err(
                    PlanError::Message(
                        cat5(
                            "build script for ",
                            package,
                            " emitted rerun-if-changed=",
                            quote(paths[i].as_str()).as_str(),
                            " but no such file or directory exists",
                        ),
                    ),
                );
            },
            PathFact::Outside => {
                proof {
                    lemma_parts_fault(package@, all, facts@, i as int + 1, facts@.len() as int);
                }
                return Err(
                    PlanError::Message(
                        cat5(
                            "build script for ",
                            package,
                            " declares rerun-if-changed=",
                            quote(paths[i].as_str()).as_str(),
                            " outside the package directory; only in-package paths are supported",
                        ),
                    ),
                );
            },
            PathFact::Directory(path) => {
                if !has_directory(&out, path.as_str()) {
                    out.push(TreePart::Directory(path.clone()));
                    assert(parts_view(out@) =~= parts_view(before).push(
                        PartView::Directory(path@),
                    ));
                }
            },
            PathFact::File(path) => {
                let part = match rsplit_once(path.as_str(), '/') {
                    Some((dir, name)) => TreePart::File { dir, name },
                    None => TreePart::File { dir: owned("."), name: path.clone() },
                };
                out.push(part);
                assert(parts_view(out@) =~= parts_view(before).push(file_part(path@)));
            },
        }
        i += 1;
    }
    Ok(out)
}

// ---- Crate roots outside the package --------------------------------------------------------

/// Where a crate root lies.
#[derive(Clone, Debug)]
pub enum RootFact {
    /// Within the package, or nowhere.
    Inside,
    /// Outside: its canonical directory, and its name there.
    Outside { parent: String, name: String },
}

/// The crate roots of a package that may lie outside it: its library, its
/// binaries, its build script.
pub open spec fn roots_of(p: Package) -> Seq<Seq<char>> {
    let lib = match p.lib {
        Some(lib) => seq![lib.path@],
        None => Seq::empty(),
    };
    let script = match p.build_script {
        Some(script) => seq![script@],
        None => Seq::empty(),
    };
    lib + p.bins@.map_values(|b: crate::model::BinTarget| b.path@) + script
}

/// Lists the crate roots of a package that may lie outside it.
pub fn list_roots(package: &Package) -> (r: Vec<String>)
    ensures
        texts(r@) == roots_of(*package),
{
    let mut out: Vec<String> = Vec::new();
    assert(texts(out@) =~= Seq::<Seq<char>>::empty());
    if let Some(lib) = &package.lib {
        push_text(&mut out, lib.path.as_str());
        assert(texts(out@) =~= seq![lib.path@]);
    }
    let ghost lib = texts(out@);
    let ghost bins = package.bins@.map_values(|b: crate::model::BinTarget| b.path@);
    let mut i: usize = 0;
    assert(lib =~= lib + bins.take(0));
    while i < package.bins.len()
        invariant
            i <= package.bins@.len(),
            bins == package.bins@.map_values(|b: crate::model::BinTarget| b.path@),
            texts(out@) == lib + bins.take(i as int),
        decreases package.bins@.len() - i,
    {
        push_text(&mut out, package.bins[i].path.as_str());
        i += 1;
        assert(texts(out@) =~= lib + bins.take(i as int));
    }
    assert(bins.take(bins.len() as int) =~= bins);
    if let Some(script) = &package.build_script {
        push_text(&mut out, script.as_str());
    }
    assert(texts(out@) =~= roots_of(*package));
    out
}

/// A crate root mounted at `ext/<n>`: the directory mounted, the path as
/// declared, and the path in the source tree.
pub struct Mounted {
    pub parent: Seq<char>,
    pub original: Seq<char>,
    pub rewritten: Seq<char>,
}

/// The mounts of those of the first `n` crate roots that lie outside: each
/// outside directory is mounted at `ext/<index>`.
pub open spec fn mounted_upto(paths: Seq<Seq<char>>, facts: Seq<RootFact>, n: int) -> Seq<Mounted>
    decreases n,
{
    if n <= 0 {
        Seq::empty()
    } else {
        let before = mounted_upto(paths, facts, n - 1);
        match facts[n - 1] {
            RootFact::Inside => before,
            RootFact::Outside { parent, name } => before.push(
                Mounted {
                    parent: parent@,
                    original: paths[n - 1],
                    rewritten: "ext/"@ + decimal(before.len()) + "/"@ + name@,
                },
            ),
        }
    }
}

/// What mounted roots are.
pub open spec fn mounted_view(roots: Seq<(String, MountedRoot)>) -> Seq<Mounted> {
    roots.map_values(
        |r: (String, MountedRoot)| Mounted {
            parent: r.0@,
            original: r.1.original@,
            rewritten: r.1.rewritten@,
        },
    )
}

/// Mounts the crate roots of the package at `package` that lie outside it: the
/// directory to mount, and the rewritten root.
pub fn mount_roots(package: usize, paths: &Vec<String>, facts: &Vec<RootFact>) -> (r: Vec<
    (String, MountedRoot),
>)
    requires
        paths@.len() == facts@.len(),
    ensures
        mounted_view(r@) == mounted_upto(texts(paths@), facts@, facts@.len() as int),
        forall|k: int| 0 <= k < r@.len() ==> (#[trigger] r@[k]).1.package == package,
{
    let ghost all = texts(paths@);
    let mut out: Vec<(String, MountedRoot)> = Vec::new();
    let mut i: usize = 0;
    assert(mounted_view(out@) =~= Seq::<Mounted>::empty());
    while i < facts.len()
        invariant
            i <= facts@.len(),
            paths@.len() == facts@.len(),
            all == texts(paths@),
            mounted_view(out@) == mounted_upto(all, facts@, i as int),
            forall|k: int| 0 <= k < out@.len() ==> (#[trigger] out@[k]).1.package == package,
        decreases facts@.len() - i,
    {
        assert(all[i as int] == paths@[i as int]@);
        if let RootFact::Outside { parent, name } = &facts[i] {
            let ghost before = out@;
            let n: u64 = out.len() as u64;
            let rewritten = cat4("ext/", u64_text(n).as_str(), "/", name.as_str());
            out.push(
                (
                    parent.clone(),
                    MountedRoot { package, original: paths[i].clone(), rewritten },
                ),
            );
            proof {
                assert(mounted_view(before).len() == before.len());
                assert(mounted_view(out@) =~= mounted_view(before).push(
                    Mounted {
                        parent: parent@,
                        original: paths@[i as int]@,
                        rewritten: rewritten@,
                    },
                ));
            }
        }
        i += 1;
    }
    out
}

// ---- Final artifacts --------------------------------------------------------------------------

/// A prebuilt native library, captured.
#[derive(Clone, Debug)]
pub struct NativeFile {
    /// The library itself.
    pub blob: Digest,
    /// Its file name.
    pub file_name: String,
}

/// A final runnable artifact produced by the build.
#[derive(Clone, Debug)]
pub struct FinalArtifact {
    /// Output name (the binary file name).
    pub name: String,
    /// Unit whose output tree contains the binary.
    pub action: String,
    /// Binary path within the unit's output tree.
    pub output: String,
    /// Runtime files to place next to the binary.
    pub runtime: Vec<(Digest, String)>,
}

/// What a final artifact is.
pub struct ArtifactView {
    pub name: Seq<char>,
    pub action: Seq<char>,
    pub output: Seq<char>,
    pub runtime: Seq<(Digest, Seq<char>)>,
}

/// What runtime files are.
pub open spec fn runtime_view(v: Seq<(Digest, String)>) -> Seq<(Digest, Seq<char>)> {
    v.map_values(|f: (Digest, String)| (f.0, f.1@))
}

impl View for FinalArtifact {
    type V = ArtifactView;

    open spec fn view(&self) -> ArtifactView {
        ArtifactView {
            name: self.name@,
            action: self.action@,
            output: self.output@,
            runtime: runtime_view(self.runtime@),
        }
    }
}

/// The runtime files of a package's binaries: every native import that they
/// reach.
pub open spec fn runtime_of(p: Planner<'_>, files: StrMap<NativeFile>, i: int) -> Seq<
    (Digest, Seq<char>),
> {
    ascending_of(
        native_closure(*p.model, *p.disk, p.toolchain.host_triple@, i),
    ).map_values(|name: Seq<char>| (files@[name].blob, files@[name].file_name@))
}

/// The artifacts of those of the first `n` binaries whose required features are
/// on.
pub open spec fn artifacts_of(p: Planner<'_>, files: StrMap<NativeFile>, i: int, n: int) -> Seq<
    ArtifactView,
>
    decreases n,
{
    if n <= 0 {
        Seq::empty()
    } else {
        let m = *p.model;
        let before = artifacts_of(p, files, i, n - 1);
        let bin = m.packages@[i].bins@[n - 1];
        if features_met(m, i, texts(bin.required_features@)) {
            before.push(
                ArtifactView {
                    name: bin.name@,
                    action: "rust:bin:"@ + label_of(m, i) + ":"@ + bin.name@,
                    output: bin.name@,
                    runtime: runtime_of(p, files, i),
                },
            )
        } else {
            before
        }
    }
}

/// The artifacts of the first `n` packages.
pub open spec fn artifacts_upto(p: Planner<'_>, files: StrMap<NativeFile>, n: int) -> Seq<
    ArtifactView,
>
    decreases n,
{
    if n <= 0 {
        Seq::empty()
    } else {
        artifacts_upto(p, files, n - 1) + artifacts_of(
            p,
            files,
            n - 1,
            p.model.packages@[n - 1].bins@.len() as int,
        )
    }
}

/// What final artifacts are.
pub open spec fn artifacts_view(v: Seq<FinalArtifact>) -> Seq<ArtifactView> {
    v.map_values(|a: FinalArtifact| a@)
}

fn list_runtime(p: &Planner<'_>, files: &StrMap<NativeFile>, i: usize) -> (r: Vec<(Digest, String)>)
    requires
        i < p.model.packages@.len(),
        forall|name: Seq<char>|
            crate::resolution::native(*p.model, name) ==> #[trigger] files@.contains_key(name),
    ensures
        runtime_view(r@) == runtime_of(*p, *files, i as int),
{
    let set = collect_cc(p.model, p.disk, p.toolchain.host_triple.as_str(), i);
    let names = set.to_list();
    let ghost want = runtime_of(*p, *files, i as int);
    proof {
        let m = *p.model;
        assert forall|x: int| 0 <= x < names@.len() implies files@.contains_key(
            #[trigger] texts(names@)[x],
        ) by {
            let name = texts(names@)[x];
            assert(set.items().contains(name));
            let j = choose|j: int|
                #![trigger imports_native(m, j, name)]
                0 <= j < m.packages@.len() && reaches(
                    m,
                    *p.disk,
                    p.toolchain.host_triple@,
                    Walk::Builds,
                    set![i as int],
                    j,
                ) && imports_native(m, j, name);
            assert(crate::resolution::native(m, name));
        }
    }
    let mut out: Vec<(Digest, String)> = Vec::new();
    let mut k: usize = 0;
    assert(runtime_view(out@) =~= want.take(0));
    while k < names.len()
        invariant
            k <= names@.len(),
            want == runtime_of(*p, *files, i as int),
            want.len() == names@.len(),
            texts(names@) == ascending_of(
                native_closure(*p.model, *p.disk, p.toolchain.host_triple@, i as int),
            ),
            forall|x: int|
                0 <= x < names@.len() ==> files@.contains_key(#[trigger] texts(names@)[x]),
            runtime_view(out@) == want.take(k as int),
        decreases names@.len() - k,
    {
        let ghost before = out@;
        assert(texts(names@)[k as int] == names@[k as int]@);
        if let Some(file) = files.get(names[k].as_str()) {
            out.push((file.blob, file.file_name.clone()));
            assert(runtime_view(out@) =~= runtime_view(before).push(
                (file.blob, file.file_name@),
            ));
        }
        k += 1;
        assert(runtime_view(out@) =~= want.take(k as int));
    }
    assert(want.take(want.len() as int) =~= want);
    out
}

fn copy_runtime(v: &Vec<(Digest, String)>) -> (r: Vec<(Digest, String)>)
    ensures
        runtime_view(r@) == runtime_view(v@),
{
    let mut out: Vec<(Digest, String)> = Vec::new();
    let mut k: usize = 0;
    while k < v.len()
        invariant
            k <= v@.len(),
            out@ == v@.take(k as int),
        decreases v@.len() - k,
    {
        out.push((v[k].0, v[k].1.clone()));
        k += 1;
        assert(out@ =~= v@.take(k as int));
    }
    assert(out@ =~= v@);
    out
}

/// Lists the final runnable artifacts (binaries) with their runtime closures.
pub fn final_artifacts(p: &Planner<'_>, files: &StrMap<NativeFile>) -> (r: Vec<FinalArtifact>)
    requires
        forall|name: Seq<char>|
            crate::resolution::native(*p.model, name) ==> #[trigger] files@.contains_key(name),
    ensures
        artifacts_view(r@) == artifacts_upto(*p, *files, p.model.packages@.len() as int),
{
    let model = p.model;
    let mut out: Vec<FinalArtifact> = Vec::new();
    let mut i: usize = 0;
    assert(artifacts_view(out@) =~= Seq::<ArtifactView>::empty());
    while i < model.packages.len()
        invariant
            i <= model.packages@.len(),
            model == p.model,
            forall|name: Seq<char>|
                crate::resolution::native(*p.model, name) ==> #[trigger] files@.contains_key(name),
            artifacts_view(out@) == artifacts_upto(*p, *files, i as int),
        decreases model.packages@.len() - i,
    {
        let package = &model.packages[i];
        let runtime = list_runtime(p, files, i);
        let name = label(model, i);
        let ghost start = artifacts_view(out@);
        let mut k: usize = 0;
        assert(start =~= start + Seq::<ArtifactView>::empty());
        while k < package.bins.len()
            invariant
                k <= package.bins@.len(),
                model == p.model,
                i < model.packages@.len(),
                *package == model.packages@[i as int],
                name@ == label_of(*p.model, i as int),
                runtime_view(runtime@) == runtime_of(*p, *files, i as int),
                artifacts_view(out@) == start + artifacts_of(*p, *files, i as int, k as int),
            decreases package.bins@.len() - k,
        {
            let bin = &package.bins[k];
            if has_features(model, i, &bin.required_features) {
                let ghost before = out@;
                let artifact = FinalArtifact {
                    name: bin.name.clone(),
                    action: cat4("rust:bin:", name.as_str(), ":", bin.name.as_str()),
                    output: bin.name.clone(),
                    runtime: copy_runtime(&runtime),
                };
                out.push(artifact);
                assert(artifacts_view(out@) =~= artifacts_view(before).push(artifact@));
                assert(artifacts_view(out@) =~= start + artifacts_of(
                    *p,
                    *files,
                    i as int,
                    k as int + 1,
                ));
            }
            k += 1;
        }
        i += 1;
    }
    out
}

/// The properties that every action records, so that toolchain changes
/// invalidate caches.
pub open spec fn properties_of(p: Planner<'_>) -> Seq<(Seq<char>, Seq<char>)> {
    seq![
        ("tong.rust.profile"@, p.profile_name@),
        ("tong.rust.rustc_verbose_version"@, p.toolchain.version_verbose@),
        ("tong.rust.sysroot_tree"@, p.toolchain.sysroot_tree@),
        ("tong.execution.portable"@, "false"@),
    ]
}

/// Lists the properties that every action records.
pub fn base_properties(p: &Planner<'_>) -> (r: Vec<(String, String)>)
    ensures
        pairs_view(r@) == properties_of(*p),
{
    let mut out: Vec<(String, String)> = Vec::new();
    out.push((owned("tong.rust.profile"), owned(p.profile_name)));
    out.push(
        (owned("tong.rust.rustc_verbose_version"), p.toolchain.version_verbose.clone()),
    );
    out.push((owned("tong.rust.sysroot_tree"), p.toolchain.sysroot_tree.clone()));
    out.push((owned("tong.execution.portable"), owned("false")));
    assert(pairs_view(out@) =~= properties_of(*p));
    out
}

/// What a crate's metadata hash is made of, in order: the crate's name, the
/// profile, the kind, and the host triple.
pub open spec fn metadata_of(p: Planner<'_>, crate_name: Seq<char>, kind: Seq<char>) -> Seq<
    Seq<char>,
> {
    seq![crate_name, p.profile_name@, kind, p.toolchain.host_triple@]
}

/// Lists what a crate's metadata hash is made of; producers and consumers of an
/// artifact derive the same hash.
pub fn metadata(p: &Planner<'_>, crate_name: &str, kind: &str) -> (r: Vec<String>)
    ensures
        texts(r@) == metadata_of(*p, crate_name@, kind@),
{
    let mut out: Vec<String> = Vec::new();
    push_text(&mut out, crate_name);
    push_text(&mut out, p.profile_name);
    push_text(&mut out, kind);
    push_text(&mut out, p.toolchain.host_triple.as_str());
    assert(texts(out@) =~= metadata_of(*p, crate_name@, kind@));
    out
}

/// A crate's metadata hash: the first digits of the digest of what it is made of.
pub fn metadata_hash(digest: &Digest) -> (r: String)
    ensures
        r@ == digest_hex(*digest).take(16),
{
    let hex = to_chars(digest.to_hex().as_str());
    let r = slice(&hex, 0, 16);
    assert(r@ =~= digest_hex(*digest).take(16));
    r
}

/// Whether an id is that of a package's script, of its compilation or its run, for
/// one side.
pub open spec fn is_script_id(m: RustModel, i: int, host: bool, id: Seq<char>) -> bool {
    id == script_compile_id(m, i, host) || id == script_run_id(m, i, host)
}

/// Tells for which side a unit compiles or runs its package's build script: the
/// execution host's or the target's; nothing where it does neither.
pub fn script_side(model: &RustModel, unit: &Unit) -> (r: Option<bool>)
    requires
        unit.package < model.packages@.len(),
    ensures
        forall|host: bool|
            r == Some(host) <==> #[trigger] is_script_id(
                *model,
                unit.package as int,
                host,
                unit.id@,
            ),
{
    let i = unit.package;
    let id = unit.id.as_str();
    let ghost n = label_of(*model, i as int).len();
    proof {
        reveal_strlit("rust:bs-compile:");
        reveal_strlit("rust:bs-run:");
        reveal_strlit(":host");
        reveal_strlit("");
        assert(script_compile_id(*model, i as int, false).len() == n + 16);
        assert(script_compile_id(*model, i as int, true).len() == n + 21);
        assert(script_run_id(*model, i as int, false).len() == n + 12);
        assert(script_run_id(*model, i as int, true).len() == n + 17);
    }
    let target = same(id, name_script_compile(model, i, false).as_str()) || same(
        id,
        name_script_run(model, i, false).as_str(),
    );
    let host = same(id, name_script_compile(model, i, true).as_str()) || same(
        id,
        name_script_run(model, i, true).as_str(),
    );
    assert(target == is_script_id(*model, i as int, false, unit.id@));
    assert(host == is_script_id(*model, i as int, true, unit.id@));
    if target {
        Some(false)
    } else if host {
        Some(true)
    } else {
        None
    }
}

/// The file name of a native import; `lib` where its path names none.
pub open spec fn native_file_name(path: Seq<char>) -> Seq<char> {
    let parts = crate::paths::components_spec(path);
    if parts.len() == 0 || parts.last() == "/"@ || parts.last() == "."@ || parts.last()
        == ".."@ {
        "lib"@
    } else {
        parts.last()
    }
}

/// Names the file of a native import.
pub fn cc_file_name(import: &CcImport) -> (r: String)
    ensures
        r@ == native_file_name(import.shared@),
{
    let parts = crate::paths::components(import.shared.as_str());
    assert(texts(parts@).len() == parts@.len());
    if parts.len() == 0 {
        return owned("lib");
    }
    let last = parts[parts.len() - 1].as_str();
    assert(texts(parts@).last() == last@);
    if same(last, "/") || same(last, ".") || same(last, "..") {
        owned("lib")
    } else {
        owned(last)
    }
}

} // verus!
