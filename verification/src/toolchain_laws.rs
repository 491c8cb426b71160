//! What is known of a toolchain.

use vstd::prelude::*;
use vstd::string::*;
use crate::digest::Digest;
use crate::paths::{components_spec, joined};
use crate::text::{lines_spec, starts, trim_spec};
use crate::toolchain::{dist_bundle_of, host_from, reported_host, rustc_under, system_bundle_of};
use crate::toolchain_dist::{archive_of, compiler_dir, dist_dir, dist_rustc_of, std_dir, ChannelPkg};

verus! {

proof fn lemma_host(v: Seq<Seq<char>>, i: int, k: int)
    requires
        0 <= i <= k <= v.len(),
        forall|j: int| i <= j < k ==> !starts(#[trigger] v[j], "host: "@),
        k < v.len() ==> starts(v[k], "host: "@),
    ensures
        k < v.len() ==> host_from(v, i) == Some(trim_spec(v[k].skip("host: "@.len() as int))),
        k == v.len() ==> host_from(v, i) is None,
    decreases k - i,
{
    if i < k {
        assert(!starts(v[i], "host: "@));
        lemma_host(v, i + 1, k);
    }
}

/// The host is what stands behind `host: ` in the first line that begins so; without
/// such a line none is reported.
pub proof fn hosts_are_reported_in_a_line(verbose: Seq<char>, k: int, rest: Seq<char>)
    requires
        0 <= k <= lines_spec(verbose).len(),
        forall|j: int|
            0 <= j < k ==> !"host: "@.is_prefix_of(#[trigger] lines_spec(verbose)[j]),
    ensures
        k < lines_spec(verbose).len() && lines_spec(verbose)[k] == "host: "@ + rest
            ==> reported_host(verbose) == Some(trim_spec(rest)),
        k == lines_spec(verbose).len() ==> reported_host(verbose) is None,
{
    let v = lines_spec(verbose);
    let n = "host: "@.len() as int;
    assert forall|j: int| 0 <= j < k implies !starts(#[trigger] v[j], "host: "@) by {
        assert(!"host: "@.is_prefix_of(v[j]));
        if v[j].len() >= n {
            assert(v[j].take(n) == v[j].subrange(0, n));
        }
    }
    if k < v.len() && v[k] == "host: "@ + rest {
        assert(v[k].take(n) =~= "host: "@);
        assert(v[k].skip(n) =~= rest);
        lemma_host(v, 0, k);
    }
    if k == v.len() {
        lemma_host(v, 0, k);
    }
}

/// The bundle of a system toolchain is named after its version and its host, and is
/// not for other machines.
pub proof fn system_bundles_say_what_they_hold(verbose: Seq<char>, host: Seq<char>, files: Digest)
    ensures
        ({
            let b = system_bundle_of(verbose, host, files);
            &&& b.files == files
            &&& b.provider == "system-capture"@
            &&& lines_spec(verbose).len() > 0 ==> b.name == "system-rustc-"@ + trim_spec(
                lines_spec(verbose)[0],
            ) + "-"@ + host
            &&& lines_spec(verbose).len() == 0 ==> b.name == "system-rustc-"@ + "unknown"@ + "-"@
                + host
            &&& b.metadata.contains_key("tong.rust.rustc_verbose_version"@)
                && b.metadata["tong.rust.rustc_verbose_version"@] == trim_spec(verbose)
            &&& b.metadata.contains_key("tong.rust.host_triple"@)
                && b.metadata["tong.rust.host_triple"@] == trim_spec(host)
            &&& !b.metadata.contains_key("tong.execution.portable"@)
            &&& !b.metadata.contains_key("tong.rust.dist_version"@)
        }),
{
    lemma_keys();
}

/// The bundle of a downloaded toolchain is named after its version and its host, and
/// is for any machine.
pub proof fn downloaded_bundles_say_what_they_hold(
    version: Seq<char>,
    verbose: Seq<char>,
    host: Seq<char>,
    files: Digest,
)
    ensures
        ({
            let b = dist_bundle_of(version, verbose, host, files);
            &&& b.files == files
            &&& b.provider == "rustup-dist"@
            &&& b.name == "rust-"@ + version + "-"@ + host
            &&& b.metadata.contains_key("tong.rust.dist_version"@)
                && b.metadata["tong.rust.dist_version"@] == version
            &&& b.metadata.contains_key("tong.rust.rustc_verbose_version"@)
                && b.metadata["tong.rust.rustc_verbose_version"@] == trim_spec(verbose)
            &&& b.metadata.contains_key("tong.rust.host_triple"@)
                && b.metadata["tong.rust.host_triple"@] == host
            &&& b.metadata.contains_key("tong.execution.portable"@)
                && b.metadata["tong.execution.portable"@] == "true"@
        }),
{
    lemma_keys();
}

proof fn lemma_keys()
    ensures
        "tong.rust.dist_version"@ != "tong.rust.rustc_verbose_version"@,
        "tong.rust.dist_version"@ != "tong.rust.host_triple"@,
        "tong.rust.dist_version"@ != "tong.execution.portable"@,
        "tong.rust.rustc_verbose_version"@ != "tong.rust.host_triple"@,
        "tong.rust.rustc_verbose_version"@ != "tong.execution.portable"@,
        "tong.rust.host_triple"@ != "tong.execution.portable"@,
{
    reveal_strlit("tong.rust.dist_version");
    reveal_strlit("tong.rust.rustc_verbose_version");
    reveal_strlit("tong.rust.host_triple");
    reveal_strlit("tong.execution.portable");
    assert("tong.rust.dist_version"@.len() == 22);
    assert("tong.rust.rustc_verbose_version"@.len() == 31);
    assert("tong.rust.host_triple"@.len() == 21);
    assert("tong.execution.portable"@.len() == 23);
}

/// The compiler of a sysroot lies in its `bin`; that of a downloaded toolchain in the
/// `bin` of its rustc component. Each downloaded toolchain has a directory of its own
/// below the store.
pub proof fn compilers_lie_in_their_toolchain(
    root: Seq<char>,
    store: Seq<char>,
    version: Seq<char>,
    triple: Seq<char>,
)
    requires
        root.len() > 0,
        root.last() != '/',
        store.len() > 0,
        store.last() != '/',
    ensures
        rustc_under(root) == root + "/bin/rustc"@,
        dist_rustc_of(root) == root + "/rustc/bin/rustc"@,
        dist_dir(store, version, triple) == store + "/toolchains/rust-"@ + version + "-"@ + triple,
{
    reveal_strlit("/");
    reveal_strlit("bin");
    reveal_strlit("rustc");
    reveal_strlit("toolchains");
    reveal_strlit("rust-");
    reveal_strlit("/bin/rustc");
    reveal_strlit("/rustc/bin/rustc");
    reveal_strlit("/toolchains/rust-");
    let a = joined(root, "bin"@);
    assert("bin"@.take(1)[0] == 'b');
    assert("/"@[0] == '/');
    assert(a =~= root + "/"@ + "bin"@);
    assert(a.last() == 'n');
    assert("rustc"@.take(1)[0] == 'r');
    assert(rustc_under(root) =~= a + "/"@ + "rustc"@);
    assert(rustc_under(root) =~= root + "/bin/rustc"@);
    let b = joined(root, "rustc"@);
    assert(b =~= root + "/"@ + "rustc"@);
    assert(b.last() == 'c');
    let c = joined(b, "bin"@);
    assert(c =~= b + "/"@ + "bin"@);
    assert(c.last() == 'n');
    assert(dist_rustc_of(root) =~= c + "/"@ + "rustc"@);
    assert(dist_rustc_of(root) =~= root + "/rustc/bin/rustc"@);
    let d = joined(store, "toolchains"@);
    assert("toolchains"@.take(1)[0] == 't');
    assert(d =~= store + "/"@ + "toolchains"@);
    assert(d.last() == 's');
    let name = "rust-"@ + version + "-"@ + triple;
    assert(name.take(1)[0] == 'r');
    assert(dist_dir(store, version, triple) =~= d + "/"@ + name);
    assert(dist_dir(store, version, triple) =~= store + "/toolchains/rust-"@ + version + "-"@
        + triple);
}

/// The archive of a component is where its channel says, below the place of all
/// toolchains where it gives a path alone, and has the SHA-256 that it gives. One
/// without a place or a SHA-256 is refused.
pub proof fn archives_are_where_channels_say(
    m: Map<Seq<char>, ChannelPkg>,
    component: Seq<char>,
    triple: Seq<char>,
    hex: Seq<char>,
)
    requires
        m.contains_key(component),
        m[component].target@.contains_key(triple),
    ensures
        ({
            let t = m[component].target@[triple];
            let r = archive_of(m, component, triple);
            &&& t.url is None || t.hash is None ==> r is Err
            &&& t.hash is Some && !"sha256:"@.is_prefix_of(t.hash->0@) ==> r is Err
            &&& t.url is Some && t.hash is Some && t.hash->0@ == "sha256:"@ + hex ==> {
                &&& r is Ok
                &&& r->Ok_0.1 == hex
                &&& t.url->0@.len() > 0 && t.url->0@[0] == '/' ==> r->Ok_0.0
                    == "https://static.rust-lang.org/dist"@ + t.url->0@
                &&& t.url->0@.len() == 0 || t.url->0@[0] != '/' ==> r->Ok_0.0 == t.url->0@
            }
        }),
        forall|other: Seq<char>|
            !m.contains_key(other) ==> #[trigger] archive_of(m, other, triple) is Err,
{
    let t = m[component].target@[triple];
    reveal_strlit("sha256:");
    reveal_strlit("/");
    if let Some(hash) = t.hash {
        if hash@.len() >= 7 {
            assert(hash@.take(7) == hash@.subrange(0, 7));
        }
        if hash@ == "sha256:"@ + hex {
            assert(hash@.take(7) =~= "sha256:"@);
            assert(hash@.skip(7) =~= hex);
        }
    }
    if let Some(url) = t.url {
        assert("/"@ =~= seq!['/']);
        if url@.len() > 0 {
            assert(url@.take(1) =~= seq![url@[0]]);
            assert(url@.take(1)[0] == url@[0]);
            assert(seq!['/'][0] == '/');
        }
    }
}

/// A compiler's directory is one named `rustc` in one whose name begins with
/// `rustc-`; a standard library's ends in its triple.
pub proof fn components_are_told_by_their_directories(path: Seq<char>, triple: Seq<char>)
    ensures
        ({
            let c = components_spec(path);
            &&& compiler_dir(path) ==> c.len() >= 2 && c.last() == "rustc"@
                && "rustc-"@.is_prefix_of(c[c.len() - 2])
            &&& c.len() >= 2 && c.last() == "rustc"@ && "rustc-"@.is_prefix_of(c[c.len() - 2])
                ==> compiler_dir(path)
            &&& std_dir(path, triple) ==> c.len() > 0 && "rust-std-"@.is_prefix_of(c.last())
                && components_spec("rust-std-"@ + triple).is_suffix_of(c)
            &&& c.len() > 0 && "rust-std-"@.is_prefix_of(c.last()) && components_spec(
                "rust-std-"@ + triple,
            ).is_suffix_of(c) ==> std_dir(path, triple)
        }),
{
    let c = components_spec(path);
    let d = components_spec("rust-std-"@ + triple);
    if c.len() >= 2 {
        let name = c[c.len() - 2];
        let n = "rustc-"@.len() as int;
        if name.len() >= n {
            assert(name.take(n) == name.subrange(0, n));
        }
    }
    if c.len() > 0 {
        let n = "rust-std-"@.len() as int;
        if c.last().len() >= n {
            assert(c.last().take(n) == c.last().subrange(0, n));
        }
        if d.len() <= c.len() {
            assert(c.skip(c.len() - d.len()) == c.subrange(c.len() - d.len(), c.len() as int));
        }
    }
}

} // verus!
