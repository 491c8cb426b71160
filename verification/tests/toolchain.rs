//! Toolchains: what rustc says, bundles, and downloaded components.

use std::io::Write;
use tong::digest::Digest;
use tong::disk::Disk;
use tong::strmap::StrMap;
use tong::toolchain::{
    dist_rust, first_line_of, host_triple, locate_system_rust, run_failure, sysroot_rustc,
    system_rust, ToolchainError,
};
use tong::toolchain_dist::{
    check_extracted, compression_of, decompress_gzip, dist_available, dist_root, dist_rustc, dist_tmp,
    find_archive, gzip_outcome, is_compiler_dir, is_std_dir, locate_dist_rust, manifest_url,
    plan_fetch, require_dist, verify_archive, ChannelManifest, ChannelPkg, ChannelTarget,
    Compression, FetchPlan, DIST_BASE,
};

const VERBOSE: &str = "rustc 1.85.0 (abc 2025-01-01)\nbinary: rustc\nhost: aarch64-apple-darwin \nrelease: 1.85.0\n";

fn digest(n: u64) -> Digest {
    Digest { a: n, b: n, c: n, d: n }
}

#[test]
fn the_host_triple_is_read_out() {
    assert_eq!(host_triple(VERBOSE).as_deref(), Some("aarch64-apple-darwin"));
    assert_eq!(host_triple("release: 1\n"), None);
    assert_eq!(first_line_of(VERBOSE).as_deref(), Some("rustc 1.85.0 (abc 2025-01-01)"));
    assert_eq!(first_line_of(""), None);
}

#[test]
fn system_toolchains_are_located() {
    assert_eq!(sysroot_rustc("/tc\n"), "/tc/bin/rustc");
    let located = match locate_system_rust("/tc\n", VERBOSE, true) {
        Ok(located) => located,
        Err(err) => panic!("{err:?}"),
    };
    assert_eq!(located.root, "/tc");
    let rust = system_rust(located, VERBOSE, &digest(1), &digest(2));
    assert_eq!(rust.rustc, "/tc/bin/rustc");
    assert_eq!(rust.version_verbose, VERBOSE.trim());
    assert_eq!(
        rust.bundle.name,
        "system-rustc-rustc 1.85.0 (abc 2025-01-01)-aarch64-apple-darwin"
    );
    assert_eq!(rust.bundle.provider, "system-capture");
    assert_eq!(rust.bundle.files, digest(2));
    assert_eq!(
        rust.bundle.metadata.get("tong.rust.host_triple").unwrap(),
        "aarch64-apple-darwin"
    );
    assert!(rust.bundle.metadata.get("tong.execution.portable").is_none());
}

#[test]
fn toolchain_failures_are_described() {
    let err = locate_system_rust("/tc\n", VERBOSE, false).err().unwrap();
    assert_eq!(err, ToolchainError::InvalidSysroot("/tc".to_owned()));
    assert_eq!(
        err.to_text(),
        "rustc reported sysroot /tc but no rustc binary exists there"
    );
    let err = locate_system_rust("/tc\n", "", false).err().unwrap();
    assert_eq!(
        err.to_text(),
        "cannot locate Rust toolchain: rustc -vV reported no host triple"
    );
    let args = vec!["--print".to_owned(), "sysroot".to_owned()];
    assert_eq!(
        run_failure("rustc", &args, "no").to_text(),
        "cannot locate Rust toolchain: rustc [\"--print\", \"sysroot\"] failed: no"
    );
    assert_eq!(
        ToolchainError::Io("denied".to_owned()).to_text(),
        "toolchain capture failed: denied"
    );
    assert_eq!(ToolchainError::Dist("x".to_owned()).to_text(), "x");
}

#[test]
fn downloaded_toolchains_are_portable() {
    let root = dist_root("/store", "1.85.0", "aarch64-apple-darwin");
    assert_eq!(root, "/store/toolchains/rust-1.85.0-aarch64-apple-darwin");
    assert_eq!(
        dist_tmp("/store", "1.85.0", "t"),
        "/store/toolchains/.tmp-1.85.0-t"
    );
    assert_eq!(dist_rustc(&root), format!("{root}/rustc/bin/rustc"));
    let located = locate_dist_rust(&root, VERBOSE).ok().unwrap();
    let rust = dist_rust(located, "1.85.0", VERBOSE, &digest(1), &digest(2));
    assert_eq!(rust.root, format!("{root}/rustc"));
    assert_eq!(rust.bundle.name, "rust-1.85.0-aarch64-apple-darwin");
    assert_eq!(rust.bundle.provider, "rustup-dist");
    assert_eq!(rust.bundle.metadata.get("tong.execution.portable").unwrap(), "true");
    assert_eq!(rust.bundle.metadata.len(), 4);
    assert_eq!(
        locate_dist_rust(&root, "").err().unwrap().to_text(),
        "extracted rustc reported no host"
    );
    assert!(check_extracted("/r", true).is_ok());
    assert_eq!(
        check_extracted("/r", false).err().unwrap().to_text(),
        "extracted toolchain at /r is incomplete (missing rustc)"
    );
}

#[test]
fn extracted_toolchains_are_available() {
    let mut disk = Disk::new();
    assert_eq!(dist_available(&disk, "/store", "1", "t"), None);
    disk.files.insert("/store/toolchains/rust-1-t/rustc/bin/rustc".to_owned(), true);
    assert_eq!(dist_available(&disk, "/store", "1", "t"), Some(true));
    assert_eq!(dist_available(&disk, "/store", "2", "t"), None);
}

#[test]
fn fetches_are_for_the_host_only() {
    assert_eq!(plan_fetch("t", "t", false), Ok(FetchPlan::Download));
    assert_eq!(plan_fetch("t", "t", true), Ok(FetchPlan::Reuse));
    assert_eq!(
        plan_fetch("t", "h", true).err().unwrap().to_text(),
        "toolchain target \"t\" differs from the host \"h\"; cross toolchains are not supported"
    );
    assert!(require_dist("1.85.0", "t", true).is_ok());
    assert_eq!(
        require_dist("1.85.0", "t", false).err().unwrap().to_text(),
        "toolchain rust 1.85.0 (t) is not fetched; run `tong toolchain fetch rust --version 1.85.0`"
    );
    assert_eq!(
        manifest_url("1.85.0"),
        "https://static.rust-lang.org/dist/channel-rust-1.85.0.toml"
    );
}

fn manifest(url: Option<&str>, hash: Option<&str>) -> ChannelManifest {
    let mut target = StrMap::new();
    target.insert(
        "t".to_owned(),
        ChannelTarget {
            url: url.map(str::to_owned),
            hash: hash.map(str::to_owned),
        },
    );
    let mut pkg = StrMap::new();
    pkg.insert("rustc".to_owned(), ChannelPkg { target });
    ChannelManifest { pkg }
}

#[test]
fn archives_are_found_in_the_channel_manifest() {
    let m = manifest(Some("/2025/rustc.tar.xz"), Some("sha256:abcd"));
    let archive = find_archive(&m, "rustc", "t").ok().unwrap();
    assert_eq!(archive.url, format!("{DIST_BASE}/2025/rustc.tar.xz"));
    assert_eq!(archive.sha256, "abcd");
    let m = manifest(Some("https://elsewhere/rustc.tar.gz"), Some("sha256:ef"));
    let archive = find_archive(&m, "rustc", "t").ok().unwrap();
    assert_eq!(archive.url, "https://elsewhere/rustc.tar.gz");
    assert_eq!(archive.sha256, "ef");
    // Without a SHA-256 there is nothing to check an archive against.
    for hash in [None, Some("md5:abcd")] {
        assert_eq!(
            find_archive(&manifest(Some("/x"), hash), "rustc", "t").err().unwrap().to_text(),
            "no sha256 hash for rustc t"
        );
    }
    assert_eq!(
        find_archive(&m, "rust-std", "t").err().unwrap().to_text(),
        "channel manifest has no rust-std component for t"
    );
    assert_eq!(
        find_archive(&m, "rustc", "u").err().unwrap().to_text(),
        "channel manifest has no rustc component for u"
    );
    assert_eq!(
        find_archive(&manifest(None, None), "rustc", "t").err().unwrap().to_text(),
        "no url for rustc t"
    );
}

#[test]
fn archives_are_verified() {
    assert!(verify_archive("rustc", "1", "", "ff").is_err());
    assert!(verify_archive("rustc", "1", "ff", "ff").is_ok());
    assert_eq!(
        verify_archive("rustc", "1", "aa", "ff").err().unwrap().to_text(),
        "checksum mismatch for rustc 1: expected aa, got ff"
    );
    assert_eq!(compression_of("x/rustc.tar.xz"), Ok(Compression::Xz));
    assert_eq!(compression_of("x/rustc.tar.gz"), Ok(Compression::Gzip));
    assert_eq!(
        compression_of("x/rustc.zip").err().unwrap().to_text(),
        "unsupported component archive format in x/rustc.zip"
    );
}

#[test]
fn gzip_archives_are_decompressed() {
    let mut encoder =
        flate2::write::GzEncoder::new(Vec::new(), flate2::Compression::default());
    encoder.write_all(b"component").unwrap();
    let archive = encoder.finish().unwrap();
    assert_eq!(decompress_gzip(&archive).ok().unwrap(), b"component");
    let err = decompress_gzip(&b"not an archive".to_vec()).err().unwrap();
    assert!(err.to_text().starts_with("gzip decompress failed: "));
    assert_eq!(gzip_outcome(Ok(vec![1, 2])).ok().unwrap(), vec![1, 2]);
    assert_eq!(
        gzip_outcome(Err("bad".to_owned())).err().unwrap().to_text(),
        "gzip decompress failed: bad"
    );
}

#[test]
fn extracted_layouts_are_recognized() {
    assert!(is_compiler_dir("/tmp/rustc-1.85.0-t/rustc"));
    assert!(!is_compiler_dir("/tmp/rustc-1.85.0-t/rustc/bin"));
    assert!(!is_compiler_dir("/tmp/other/rustc"));
    assert!(is_std_dir("/tmp/rust-std-1.85.0-t/rust-std-t", "t"));
    assert!(!is_std_dir("/tmp/rust-std-1.85.0-t", "t"));
}
