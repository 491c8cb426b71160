//! Downloaded Rust toolchains.
//!
//! The rustc and rust-std components for the host triple are downloaded, verified
//! against the channel manifest, and extracted. Builds never touch the network: a
//! missing toolchain is an error that names the fetch command.

use vstd::prelude::*;
use vstd::string::*;
use std::io::Read;
use crate::disk::Disk;
use crate::paths::{components, components_spec, joined, path_join};
use crate::strmap::StrMap;
use crate::text::{
    cat, cat3, cat4, cat5, cat7, ends, ends_with, owned, quote, quoted, same, starts, starts_with,
    strip_prefix, strip_prefix_spec, texts,
};
use crate::toolchain::{
    host_triple, reported_host, Located, ToolchainError, ToolchainErrorView,
};

verus! {

/// Where toolchains are downloaded from.
pub const DIST_BASE: &'static str = "https://static.rust-lang.org/dist";

// ---- Places ------------------------------------------------------------------------------

/// The extracted toolchain root for a version and triple.
pub open spec fn dist_dir(store: Seq<char>, version: Seq<char>, triple: Seq<char>) -> Seq<char> {
    joined(joined(store, "toolchains"@), "rust-"@ + version + "-"@ + triple)
}

/// The extracted toolchain root for a version and triple.
pub fn dist_root(store: &str, version: &str, triple: &str) -> (r: String)
    ensures
        r@ == dist_dir(store@, version@, triple@),
{
    path_join(&path_join(store, "toolchains"), &cat4("rust-", version, "-", triple))
}

/// The rustc binary of an extracted toolchain.
pub open spec fn dist_rustc_of(root: Seq<char>) -> Seq<char> {
    joined(joined(joined(root, "rustc"@), "bin"@), "rustc"@)
}

/// The rustc binary of an extracted toolchain.
pub fn dist_rustc(root: &str) -> (r: String)
    ensures
        r@ == dist_rustc_of(root@),
{
    path_join(&path_join(&path_join(root, "rustc"), "bin"), "rustc")
}

/// Whether a toolchain for a version and triple is already extracted, where it is
/// known whether its rustc binary is there.
pub fn dist_available(disk: &Disk, store: &str, version: &str, triple: &str) -> (r: Option<bool>)
    ensures
        ({
            let rustc = dist_rustc_of(dist_dir(store@, version@, triple@));
            r == (if disk.files@.contains_key(rustc) {
                Some(disk.files@[rustc])
            } else {
                None
            })
        }),
{
    match disk.files.get(&dist_rustc(&dist_root(store, version, triple))) {
        Some(there) => Some(*there),
        None => None,
    }
}

/// The directory that components are extracted in.
pub fn dist_tmp(store: &str, version: &str, triple: &str) -> (r: String)
    ensures
        r@ == joined(joined(store@, "toolchains"@), ".tmp-"@ + version@ + "-"@ + triple@),
{
    path_join(&path_join(store, "toolchains"), &cat4(".tmp-", version, "-", triple))
}

/// The channel manifest of a version.
pub fn manifest_url(version: &str) -> (r: String)
    ensures
        r@ == DIST_BASE@ + "/channel-rust-"@ + version@ + ".toml"@,
{
    cat4(DIST_BASE, "/channel-rust-", version, ".toml")
}

// ---- Requests ----------------------------------------------------------------------------

/// What is done about a toolchain that is asked for.
#[derive(Clone, Copy, Debug, PartialEq, Eq, Structural)]
pub enum FetchPlan {
    /// It is downloaded, then captured.
    Download,
    /// It is there, and captured.
    Reuse,
}

/// Decides what is done about a toolchain that is asked for. Targets other than
/// the host are rejected.
pub fn plan_fetch(triple: &str, host_triple: &str, extracted: bool) -> (r: Result<
    FetchPlan,
    ToolchainError,
>)
    ensures
        match r {
            Ok(plan) => {
                &&& triple@ == host_triple@
                &&& plan == (if extracted {
                    FetchPlan::Reuse
                } else {
                    FetchPlan::Download
                })
            },
            Err(e) => {
                &&& triple@ != host_triple@
                &&& e@ == ToolchainErrorView::Dist(
                    "toolchain target "@ + quoted(triple@) + " differs from the host "@ + quoted(
                        host_triple@,
                    ) + "; cross toolchains are not supported"@,
                )
            },
        },
{
    if !same(triple, host_triple) {
        return Err(
            ToolchainError::Dist(
                cat5(
                    "toolchain target ",
                    &quote(triple),
                    " differs from the host ",
                    &quote(host_triple),
                    "; cross toolchains are not supported",
                ),
            ),
        );
    }
    if extracted {
        Ok(FetchPlan::Reuse)
    } else {
        Ok(FetchPlan::Download)
    }
}

/// Checks that a toolchain is extracted: without it, says how to fetch it.
pub fn require_dist(version: &str, triple: &str, available: bool) -> (r: Result<
    (),
    ToolchainError,
>)
    ensures
        r is Ok <==> available,
        r is Err ==> r->Err_0@ == ToolchainErrorView::Dist(
            "toolchain rust "@ + version@ + " ("@ + triple@
                + ") is not fetched; run `tong toolchain fetch rust --version "@ + version@ + "`"@,
        ),
{
    if available {
        return Ok(());
    }
    Err(
        ToolchainError::Dist(
            cat7(
                "toolchain rust ",
                version,
                " (",
                triple,
                ") is not fetched; run `tong toolchain fetch rust --version ",
                version,
                "`",
            ),
        ),
    )
}

/// Checks that an extracted toolchain has a rustc binary.
pub fn check_extracted(root: &str, has_rustc: bool) -> (r: Result<(), ToolchainError>)
    ensures
        r is Ok <==> has_rustc,
        r is Err ==> r->Err_0@ == ToolchainErrorView::Dist(
            "extracted toolchain at "@ + root@ + " is incomplete (missing rustc)"@,
        ),
{
    if has_rustc {
        return Ok(());
    }
    Err(
        ToolchainError::Dist(
            cat3("extracted toolchain at ", root, " is incomplete (missing rustc)"),
        ),
    )
}

/// Locates an extracted toolchain, from what its `rustc -vV` prints.
pub fn locate_dist_rust(root: &str, version_verbose: &str) -> (r: Result<Located, ToolchainError>)
    ensures
        match r {
            Ok(l) => {
                &&& reported_host(version_verbose@) == Some(l.host_triple@)
                &&& l.root@ == joined(root@, "rustc"@)
                &&& l.rustc@ == dist_rustc_of(root@)
            },
            Err(e) => {
                &&& reported_host(version_verbose@) is None
                &&& e@ == ToolchainErrorView::Dist("extracted rustc reported no host"@)
            },
        },
{
    match host_triple(version_verbose) {
        Some(host) => Ok(
            Located { root: path_join(root, "rustc"), rustc: dist_rustc(root), host_triple: host },
        ),
        None => Err(ToolchainError::Dist(owned("extracted rustc reported no host"))),
    }
}

// ---- Components --------------------------------------------------------------------------

/// A component for a target.
pub struct ChannelTarget {
    /// Where its archive is.
    pub url: Option<String>,
    /// The archive's hash.
    pub hash: Option<String>,
}

/// A component of a channel.
pub struct ChannelPkg {
    /// Its targets, by triple.
    pub target: StrMap<ChannelTarget>,
}

/// A channel manifest.
pub struct ChannelManifest {
    /// Its components, by name.
    pub pkg: StrMap<ChannelPkg>,
}

/// The archive of a component.
pub struct Archive {
    /// Where it is.
    pub url: String,
    /// Its SHA-256 in hexadecimal.
    pub sha256: String,
}

/// What the archive of a component is, or why there is none.
pub open spec fn archive_of(
    m: Map<Seq<char>, ChannelPkg>,
    component: Seq<char>,
    triple: Seq<char>,
) -> Result<(Seq<char>, Seq<char>), ToolchainErrorView> {
    if !m.contains_key(component) || !m[component].target@.contains_key(triple) {
        Err(
            ToolchainErrorView::Dist(
                "channel manifest has no "@ + component + " component for "@ + triple,
            ),
        )
    } else {
        let t = m[component].target@[triple];
        match t.url {
            None => Err(ToolchainErrorView::Dist("no url for "@ + component + " "@ + triple)),
            Some(url) => match hash_of(t) {
                None => Err(
                    ToolchainErrorView::Dist("no sha256 hash for "@ + component + " "@ + triple),
                ),
                Some(hex) => Ok(
                    (
                        if starts(url@, "/"@) {
                            DIST_BASE@ + url@
                        } else {
                            url@
                        },
                        hex,
                    ),
                ),
            },
        }
    }
}

/// The SHA-256 that a channel manifest gives for an archive, if it gives one.
pub open spec fn hash_of(t: ChannelTarget) -> Option<Seq<char>> {
    match t.hash {
        None => None,
        Some(hash) => strip_prefix_spec(hash@, "sha256:"@),
    }
}

/// Finds the archive of a component in a channel manifest.
pub fn find_archive(m: &ChannelManifest, component: &str, triple: &str) -> (r: Result<
    Archive,
    ToolchainError,
>)
    ensures
        match r {
            Ok(a) => archive_of(m.pkg@, component@, triple@) == Ok::<
                (Seq<char>, Seq<char>),
                ToolchainErrorView,
            >((a.url@, a.sha256@)),
            Err(e) => archive_of(m.pkg@, component@, triple@) == Err::<
                (Seq<char>, Seq<char>),
                ToolchainErrorView,
            >(e@),
        },
{
    let pkg = match m.pkg.get(component) {
        Some(p) => p,
        None => {
            return Err(
                ToolchainError::Dist(
                    cat4("channel manifest has no ", component, " component for ", triple),
                ),
            );
        },
    };
    let target = match pkg.target.get(triple) {
        Some(t) => t,
        None => {
            return Err(
                ToolchainError::Dist(
                    cat4("channel manifest has no ", component, " component for ", triple),
                ),
            );
        },
    };
    let url = match &target.url {
        Some(u) => u,
        None => {
            return Err(ToolchainError::Dist(cat4("no url for ", component, " ", triple)));
        },
    };
    let given = match &target.hash {
        None => None,
        Some(hash) => strip_prefix(hash, "sha256:"),
    };
    let sha256 = match given {
        Some(hex) => hex,
        None => {
            return Err(ToolchainError::Dist(cat4("no sha256 hash for ", component, " ", triple)));
        },
    };
    let url = if starts_with(url, "/") {
        cat(DIST_BASE, url)
    } else {
        url.clone()
    };
    Ok(Archive { url, sha256 })
}

/// Holds the SHA-256 of an archive against the one in the channel manifest.
pub fn verify_archive(component: &str, version: &str, expected: &str, got: &str) -> (r: Result<
    (),
    ToolchainError,
>)
    ensures
        r is Ok <==> expected@ == got@,
        r is Err ==> r->Err_0@ == ToolchainErrorView::Dist(
            "checksum mismatch for "@ + component@ + " "@ + version@ + ": expected "@ + expected@
                + ", got "@ + got@,
        ),
{
    if same(expected, got) {
        return Ok(());
    }
    let head = cat4("checksum mismatch for ", component, " ", version);
    Err(ToolchainError::Dist(cat5(&head, ": expected ", expected, ", got ", got)))
}

// ---- Archives ----------------------------------------------------------------------------

/// How an archive is compressed.
#[derive(Clone, Copy, Debug, PartialEq, Eq, Structural)]
pub enum Compression {
    /// As `.tar.xz`.
    Xz,
    /// As `.tar.gz`.
    Gzip,
}

/// Tells how the archive at a URL is compressed.
pub fn compression_of(url: &str) -> (r: Result<Compression, ToolchainError>)
    ensures
        match r {
            Ok(Compression::Xz) => ends(url@, ".tar.xz"@),
            Ok(Compression::Gzip) => !ends(url@, ".tar.xz"@) && ends(url@, ".tar.gz"@),
            Err(e) => {
                &&& !ends(url@, ".tar.xz"@)
                &&& !ends(url@, ".tar.gz"@)
                &&& e@ == ToolchainErrorView::Dist(
                    "unsupported component archive format in "@ + url@,
                )
            },
        },
{
    if ends_with(url, ".tar.xz") {
        Ok(Compression::Xz)
    } else if ends_with(url, ".tar.gz") {
        Ok(Compression::Gzip)
    } else {
        Err(ToolchainError::Dist(cat("unsupported component archive format in ", url)))
    }
}

/// What `flate2::read::GzDecoder` reads out of bytes: the contents of the first
/// gzip member, or the text of the error.
pub uninterp spec fn gunzipped(bytes: Seq<u8>) -> Result<Seq<u8>, Seq<char>>;

/// What bytes or an error text are.
pub open spec fn bytes_view(r: Result<Vec<u8>, String>) -> Result<Seq<u8>, Seq<char>> {
    match r {
        Ok(v) => Ok(v@),
        Err(e) => Err(e@),
    }
}

/// Reads `flate2::read::GzDecoder` on bytes to its end. The contract claims that
/// what comes out, or the text of the error, is a function of the bytes.
#[verifier::external_body]
fn gunzip(bytes: &Vec<u8>) -> (r: Result<Vec<u8>, String>)
    ensures
        bytes_view(r) == gunzipped(bytes@),
{
    let mut plain: Vec<u8> = Vec::new();
    match flate2::read::GzDecoder::new(bytes.as_slice()).read_to_end(&mut plain) {
        Ok(_) => Ok(plain),
        Err(err) => Err(err.to_string()),
    }
}

/// What an archive decompresses to, given what the decoder returned.
pub open spec fn decompressed(r: Result<Seq<u8>, Seq<char>>) -> Result<
    Seq<u8>,
    ToolchainErrorView,
> {
    match r {
        Ok(plain) => Ok(plain),
        Err(err) => Err(ToolchainErrorView::Dist("gzip decompress failed: "@ + err)),
    }
}

/// What an outcome of decompression is.
pub open spec fn plain_view(r: Result<Vec<u8>, ToolchainError>) -> Result<
    Seq<u8>,
    ToolchainErrorView,
> {
    match r {
        Ok(v) => Ok(v@),
        Err(e) => Err(e@),
    }
}

/// Turns what the gzip decoder returned into an archive or a failure.
pub fn gzip_outcome(decoded: Result<Vec<u8>, String>) -> (r: Result<Vec<u8>, ToolchainError>)
    ensures
        plain_view(r) == decompressed(bytes_view(decoded)),
{
    match decoded {
        Ok(plain) => Ok(plain),
        Err(err) => Err(ToolchainError::Dist(cat("gzip decompress failed: ", &err))),
    }
}

/// Decompresses a gzip archive.
pub fn decompress_gzip(archive: &Vec<u8>) -> (r: Result<Vec<u8>, ToolchainError>)
    ensures
        plain_view(r) == decompressed(gunzipped(archive@)),
{
    gzip_outcome(gunzip(archive))
}

// ---- Layout ------------------------------------------------------------------------------

/// Whether a path is that of the compiler in an extracted rustc component:
/// `rustc-<version>-<triple>/rustc`.
pub open spec fn compiler_dir(path: Seq<char>) -> bool {
    let c = components_spec(path);
    c.len() >= 2 && c[c.len() - 1] == "rustc"@ && starts(c[c.len() - 2], "rustc-"@)
}

/// Tells whether a path is that of the compiler in an extracted rustc component.
pub fn is_compiler_dir(path: &str) -> (r: bool)
    ensures
        r == compiler_dir(path@),
{
    let c = components(path);
    assert(texts(c@).len() == c@.len());
    if c.len() < 2 {
        return false;
    }
    assert(texts(c@)[c@.len() - 1] == c@[c@.len() - 1]@);
    assert(texts(c@)[c@.len() - 2] == c@[c@.len() - 2]@);
    same(&c[c.len() - 1], "rustc") && starts_with(&c[c.len() - 2], "rustc-")
}

/// Whether a path is that of the standard library in an extracted rust-std
/// component: it ends in `rust-std-<triple>`, and so does its last name begin.
pub open spec fn std_dir(path: Seq<char>, triple: Seq<char>) -> bool {
    let c = components_spec(path);
    let d = components_spec("rust-std-"@ + triple);
    &&& c.len() > 0
    &&& starts(c.last(), "rust-std-"@)
    &&& d.len() <= c.len()
    &&& c.skip(c.len() - d.len()) == d
}

/// Tells whether a path is that of the standard library in an extracted rust-std
/// component.
pub fn is_std_dir(path: &str, triple: &str) -> (r: bool)
    ensures
        r == std_dir(path@, triple@),
{
    let c = components(path);
    let d = components(&cat("rust-std-", triple));
    let ghost x = texts(c@);
    let ghost y = texts(d@);
    assert(x.len() == c@.len() && y.len() == d@.len());
    if c.len() == 0 || d.len() > c.len() {
        return false;
    }
    assert(x.last() == c@[c@.len() - 1]@);
    if !starts_with(&c[c.len() - 1], "rust-std-") {
        return false;
    }
    let from: usize = c.len() - d.len();
    let mut i: usize = 0;
    while i < d.len()
        invariant
            i <= d@.len(),
            x == texts(c@),
            y == texts(d@),
            from + d.len() == c.len(),
            x == components_spec(path@),
            y == components_spec("rust-std-"@ + triple@),
            forall|k: int| 0 <= k < i ==> x[from + k] == y[k],
        decreases d@.len() - i,
    {
        assert(x[from + i] == c@[from + i]@);
        assert(y[i as int] == d@[i as int]@);
        if !same(&c[from + i], &d[i]) {
            assert(x.skip(from as int)[i as int] != y[i as int]);
            return false;
        }
        i += 1;
    }
    assert(x.skip(from as int) =~= y);
    true
}

} // verus!
