//! Rust toolchains: what `rustc` says of itself, and the bundles that toolchains
//! become.
//!
//! The compiler is captured as a bundle: its binary is imported for identity, the
//! sysroot is fingerprinted, and the bundle covers the whole closure. The binary
//! under the sysroot is the executable, never a shim.

use vstd::prelude::*;
use vstd::string::*;
use crate::digest::Digest;
use crate::paths::{joined, path_join};
use crate::strmap::StrMap;
use crate::text::{
    cat, cat3, cat4, cat5, lines, lines_spec, opt_view, owned, quote_list, quoted_list,
    strip_prefix, strip_prefix_spec, texts, trim, trim_spec,
};

verus! {

/// Toolchain failure.
#[derive(Debug, PartialEq, Eq)]
pub enum ToolchainError {
    /// rustc could not be found or run.
    Missing(String),
    /// The real rustc binary does not exist under the reported sysroot.
    InvalidSysroot(String),
    /// Store failure.
    Io(String),
    /// Downloaded-toolchain failure.
    Dist(String),
}

/// What a toolchain failure is.
pub enum ToolchainErrorView {
    Missing(Seq<char>),
    InvalidSysroot(Seq<char>),
    Io(Seq<char>),
    Dist(Seq<char>),
}

impl View for ToolchainError {
    type V = ToolchainErrorView;

    open spec fn view(&self) -> ToolchainErrorView {
        match *self {
            ToolchainError::Missing(s) => ToolchainErrorView::Missing(s@),
            ToolchainError::InvalidSysroot(s) => ToolchainErrorView::InvalidSysroot(s@),
            ToolchainError::Io(s) => ToolchainErrorView::Io(s@),
            ToolchainError::Dist(s) => ToolchainErrorView::Dist(s@),
        }
    }
}

/// The text of a toolchain failure.
pub open spec fn toolchain_text(e: ToolchainErrorView) -> Seq<char> {
    match e {
        ToolchainErrorView::Missing(msg) => "cannot locate Rust toolchain: "@ + msg,
        ToolchainErrorView::InvalidSysroot(root) => "rustc reported sysroot "@ + root
            + " but no rustc binary exists there"@,
        ToolchainErrorView::Io(err) => "toolchain capture failed: "@ + err,
        ToolchainErrorView::Dist(msg) => msg,
    }
}

impl ToolchainError {
    /// The failure as text.
    pub fn to_text(&self) -> (r: String)
        ensures
            r@ == toolchain_text(self@),
    {
        match self {
            ToolchainError::Missing(msg) => cat("cannot locate Rust toolchain: ", msg),
            ToolchainError::InvalidSysroot(root) => cat3(
                "rustc reported sysroot ",
                root,
                " but no rustc binary exists there",
            ),
            ToolchainError::Io(err) => cat("toolchain capture failed: ", err),
            ToolchainError::Dist(msg) => owned(msg),
        }
    }
}

/// Describes a toolchain binary that failed.
pub fn run_failure(program: &str, args: &Vec<String>, stderr: &str) -> (r: ToolchainError)
    ensures
        r@ == ToolchainErrorView::Missing(
            program@ + " "@ + quoted_list(texts(args@)) + " failed: "@ + stderr@,
        ),
{
    ToolchainError::Missing(cat5(program, " ", &quote_list(args), " failed: ", stderr))
}

// ---- What rustc says ---------------------------------------------------------------------

/// What the first line with `host: ` in front has behind it, trimmed, from the
/// `i`th line on.
pub open spec fn host_from(v: Seq<Seq<char>>, i: int) -> Option<Seq<char>>
    decreases v.len() - i,
{
    if i < 0 || i >= v.len() {
        None
    } else {
        match strip_prefix_spec(v[i], "host: "@) {
            Some(rest) => Some(trim_spec(rest)),
            None => host_from(v, i + 1),
        }
    }
}

/// The host triple that `rustc -vV` reports.
pub open spec fn reported_host(verbose: Seq<char>) -> Option<Seq<char>> {
    host_from(lines_spec(verbose), 0)
}

/// Reads the host triple out of what `rustc -vV` prints.
pub fn host_triple(verbose: &str) -> (r: Option<String>)
    ensures
        opt_view(r) == reported_host(verbose@),
{
    let v = lines(verbose);
    let ghost all = texts(v@);
    let mut i: usize = 0;
    while i < v.len()
        invariant
            i <= v@.len(),
            all == texts(v@),
            all == lines_spec(verbose@),
            reported_host(verbose@) == host_from(all, i as int),
        decreases v@.len() - i,
    {
        assert(all[i as int] == v@[i as int]@);
        if let Some(rest) = strip_prefix(&v[i], "host: ") {
            return Some(trim(&rest));
        }
        i += 1;
    }
    None
}

/// The first line, trimmed.
pub open spec fn first_line(text: Seq<char>) -> Option<Seq<char>> {
    if lines_spec(text).len() > 0 {
        Some(trim_spec(lines_spec(text)[0]))
    } else {
        None
    }
}

/// The first line of a text, trimmed.
pub fn first_line_of(text: &str) -> (r: Option<String>)
    ensures
        opt_view(r) == first_line(text@),
{
    let v = lines(text);
    if v.len() == 0 {
        assert(lines_spec(text@).len() == 0);
        return None;
    }
    assert(texts(v@)[0] == v@[0]@);
    Some(trim(&v[0]))
}

// ---- Capture -----------------------------------------------------------------------------

/// An environment bundle: a named tree with metadata.
pub struct Bundle {
    /// Its name.
    pub name: String,
    /// What provided it.
    pub provider: String,
    /// The files.
    pub files: Digest,
    /// Metadata.
    pub metadata: StrMap<String>,
}

/// What a bundle is.
pub struct BundleView {
    pub name: Seq<char>,
    pub provider: Seq<char>,
    pub files: Digest,
    pub metadata: Map<Seq<char>, Seq<char>>,
}

/// What metadata is.
pub open spec fn metadata_view(m: StrMap<String>) -> Map<Seq<char>, Seq<char>> {
    Map::new(|k: Seq<char>| m@.contains_key(k), |k: Seq<char>| m@[k]@)
}

impl View for Bundle {
    type V = BundleView;

    open spec fn view(&self) -> BundleView {
        BundleView {
            name: self.name@,
            provider: self.provider@,
            files: self.files,
            metadata: metadata_view(self.metadata),
        }
    }
}

fn put(m: &mut StrMap<String>, key: &str, value: String)
    ensures
        metadata_view(*final(m)) == metadata_view(*old(m)).insert(key@, value@),
{
    let ghost before = *m;
    m.insert(owned(key), value);
    assert(metadata_view(*m) =~= metadata_view(before).insert(key@, value@));
}

/// Where a toolchain is.
pub struct Located {
    /// Toolchain root (the sysroot).
    pub root: String,
    /// The real rustc binary.
    pub rustc: String,
    /// Host target triple.
    pub host_triple: String,
}

/// The rustc binary under a sysroot.
pub open spec fn rustc_under(root: Seq<char>) -> Seq<char> {
    joined(joined(root, "bin"@), "rustc"@)
}

/// Where the sysroot that rustc prints has its rustc binary.
pub fn sysroot_rustc(sysroot_output: &str) -> (r: String)
    ensures
        r@ == rustc_under(trim_spec(sysroot_output@)),
{
    path_join(&path_join(&trim(sysroot_output), "bin"), "rustc")
}

/// Locates a system toolchain: from what `rustc --print sysroot` and `rustc -vV`
/// print, and whether the sysroot has a rustc binary.
pub fn locate_system_rust(sysroot_output: &str, version_verbose: &str, has_rustc: bool) -> (r:
    Result<Located, ToolchainError>)
    ensures
        match r {
            Ok(l) => {
                &&& reported_host(version_verbose@) == Some(l.host_triple@)
                &&& has_rustc
                &&& l.root@ == trim_spec(sysroot_output@)
                &&& l.rustc@ == rustc_under(trim_spec(sysroot_output@))
            },
            Err(e) => if reported_host(version_verbose@) is None {
                e@ == ToolchainErrorView::Missing("rustc -vV reported no host triple"@)
            } else {
                &&& !has_rustc
                &&& e@ == ToolchainErrorView::InvalidSysroot(trim_spec(sysroot_output@))
            },
        },
{
    let host = match host_triple(version_verbose) {
        Some(h) => h,
        None => {
            return Err(ToolchainError::Missing(owned("rustc -vV reported no host triple")));
        },
    };
    let root = trim(sysroot_output);
    if !has_rustc {
        return Err(ToolchainError::InvalidSysroot(root));
    }
    Ok(Located { root, rustc: sysroot_rustc(sysroot_output), host_triple: host })
}

/// The bundle of a system toolchain.
pub open spec fn system_bundle_of(verbose: Seq<char>, host: Seq<char>, files: Digest) -> BundleView {
    let version = match first_line(verbose) {
        Some(line) => line,
        None => "unknown"@,
    };
    BundleView {
        name: "system-rustc-"@ + version + "-"@ + host,
        provider: "system-capture"@,
        files,
        metadata: Map::empty().insert(
            "tong.rust.rustc_verbose_version"@,
            trim_spec(verbose),
        ).insert("tong.rust.host_triple"@, trim_spec(host)),
    }
}

/// Makes the non-portable bundle of a system toolchain.
pub fn system_bundle(version_verbose: &str, host_triple: &str, files: &Digest) -> (r: Bundle)
    ensures
        r@ == system_bundle_of(version_verbose@, host_triple@, *files),
{
    let version = match first_line_of(version_verbose) {
        Some(line) => line,
        None => owned("unknown"),
    };
    let mut metadata: StrMap<String> = StrMap::new();
    assert(metadata_view(metadata) =~= Map::<Seq<char>, Seq<char>>::empty());
    put(&mut metadata, "tong.rust.rustc_verbose_version", trim(version_verbose));
    put(&mut metadata, "tong.rust.host_triple", trim(host_triple));
    Bundle {
        name: cat4("system-rustc-", &version, "-", host_triple),
        provider: owned("system-capture"),
        files: *files,
        metadata,
    }
}

/// The bundle of a downloaded toolchain.
pub open spec fn dist_bundle_of(
    version: Seq<char>,
    verbose: Seq<char>,
    host: Seq<char>,
    files: Digest,
) -> BundleView {
    BundleView {
        name: "rust-"@ + version + "-"@ + host,
        provider: "rustup-dist"@,
        files,
        metadata: Map::empty().insert("tong.rust.dist_version"@, version).insert(
            "tong.rust.rustc_verbose_version"@,
            trim_spec(verbose),
        ).insert("tong.rust.host_triple"@, host).insert("tong.execution.portable"@, "true"@),
    }
}

/// Makes the portable bundle of a downloaded toolchain.
pub fn dist_bundle(version: &str, version_verbose: &str, host_triple: &str, files: &Digest) -> (r:
    Bundle)
    ensures
        r@ == dist_bundle_of(version@, version_verbose@, host_triple@, *files),
{
    let mut metadata: StrMap<String> = StrMap::new();
    assert(metadata_view(metadata) =~= Map::<Seq<char>, Seq<char>>::empty());
    put(&mut metadata, "tong.rust.dist_version", owned(version));
    put(&mut metadata, "tong.rust.rustc_verbose_version", trim(version_verbose));
    put(&mut metadata, "tong.rust.host_triple", owned(host_triple));
    put(&mut metadata, "tong.execution.portable", owned("true"));
    Bundle {
        name: cat4("rust-", version, "-", host_triple),
        provider: owned("rustup-dist"),
        files: *files,
        metadata,
    }
}

/// A captured Rust toolchain.
pub struct SystemRust {
    /// Toolchain root (the sysroot).
    pub root: String,
    /// The real rustc binary (never a shim).
    pub rustc: String,
    /// Host target triple.
    pub host_triple: String,
    /// Full `rustc -vV` output, used as an action property.
    pub version_verbose: String,
    /// Digest of the rustc binary itself.
    pub rustc_blob: Digest,
    /// Fingerprint of the sysroot's `bin/` and `lib/` trees.
    pub sysroot_tree: Digest,
    /// The environment bundle.
    pub bundle: Bundle,
}

/// Puts a captured system toolchain together.
pub fn system_rust(
    located: Located,
    version_verbose: &str,
    rustc_blob: &Digest,
    sysroot_tree: &Digest,
) -> (r: SystemRust)
    ensures
        r.root@ == located.root@,
        r.rustc@ == located.rustc@,
        r.host_triple@ == trim_spec(located.host_triple@),
        r.version_verbose@ == trim_spec(version_verbose@),
        r.rustc_blob == *rustc_blob,
        r.sysroot_tree == *sysroot_tree,
        r.bundle@ == system_bundle_of(version_verbose@, located.host_triple@, *sysroot_tree),
{
    let bundle = system_bundle(version_verbose, &located.host_triple, sysroot_tree);
    SystemRust {
        root: located.root,
        rustc: located.rustc,
        host_triple: trim(&located.host_triple),
        version_verbose: trim(version_verbose),
        rustc_blob: *rustc_blob,
        sysroot_tree: *sysroot_tree,
        bundle,
    }
}

/// Puts a captured downloaded toolchain together.
pub fn dist_rust(
    located: Located,
    version: &str,
    version_verbose: &str,
    rustc_blob: &Digest,
    sysroot_tree: &Digest,
) -> (r: SystemRust)
    ensures
        r.root@ == located.root@,
        r.rustc@ == located.rustc@,
        r.host_triple@ == located.host_triple@,
        r.version_verbose@ == trim_spec(version_verbose@),
        r.rustc_blob == *rustc_blob,
        r.sysroot_tree == *sysroot_tree,
        r.bundle@ == dist_bundle_of(
            version@,
            version_verbose@,
            located.host_triple@,
            *sysroot_tree,
        ),
{
    let bundle = dist_bundle(version, version_verbose, &located.host_triple, sysroot_tree);
    SystemRust {
        root: located.root,
        rustc: located.rustc,
        host_triple: located.host_triple,
        version_verbose: trim(version_verbose),
        rustc_blob: *rustc_blob,
        sysroot_tree: *sysroot_tree,
        bundle,
    }
}

} // verus!
