//! How packages and failures are named.

use vstd::prelude::*;
use vstd::string::*;
use crate::canonical_laws::shows;
use crate::manifest::{import_fault_text, ImportFault};
use crate::model::{
    lock_source_parsed, lock_source_text, package_id_text, Dep, PackageIdView, RustModel,
    SourceView,
};
use crate::resolution::{find, native};
use crate::toolchain::{toolchain_text, ToolchainErrorView};
use crate::units::{dep_spec_of, label_of, meta_name, DepSpecView, PlanFault, Planner};
use crate::version::version_text;

verus! {

/// A lockfile names a registry by its address behind `registry+`, a repository by its
/// address and its revision behind `git+`, and a path behind `path+`.
pub proof fn lockfiles_name_sources(url: Seq<char>, rev: Seq<char>, rel: Seq<char>)
    ensures
        lock_source_text(SourceView::Registry(url)) == "registry+"@ + url,
        lock_source_text(SourceView::Git { url, rev }) == "git+"@ + url + "#"@ + rev,
        lock_source_text(SourceView::Workspace(rel)) == "path+"@ + rel,
        lock_source_text(SourceView::Path(rel)) == "path+"@ + rel,
        lock_source_parsed("registry+"@ + url) is Ok,
        lock_source_parsed("path+"@ + rel) is Err,
        !url.contains('#') ==> lock_source_parsed("git+"@ + url) is Err,
{
    reveal_strlit("registry+");
    reveal_strlit("git+");
    reveal_strlit("path+");
    let a = "registry+"@ + url;
    assert(a.take(9) =~= "registry+"@);
    let b = "path+"@ + rel;
    assert(b[0] == 'p');
    if b.len() >= 9 {
        assert(b.take(9)[0] == 'p');
        assert("registry+"@[0] == 'r');
    }
    assert(b.take(4)[0] == 'p');
    assert("git+"@[0] == 'g');
    let c = "git+"@ + url;
    assert(c[0] == 'g');
    if c.len() >= 9 {
        assert(c.take(9)[0] == 'g');
        assert("registry+"@[0] == 'r');
    }
    assert(c.take(4) =~= "git+"@);
    assert(c.skip(4) =~= url);
    url.index_of_first_ensures('#');
}

/// An identity shows its name and its version first, then the registry or the
/// repository that it comes from; a path is not shown.
pub proof fn identities_show_where_they_come_from(id: PackageIdView)
    ensures
        ({
            let head = id.name + "@"@ + version_text(id.version);
            match id.source {
                SourceView::Registry(url) => package_id_text(id) == head + " (registry "@ + url
                    + ")"@,
                SourceView::Git { url, rev } => package_id_text(id) == head + " (git "@ + url + "#"@
                    + rev + ")"@,
                _ => package_id_text(id) == head,
            }
        }),
{
}

/// A package goes by its name where no other has it; packages of one name are told
/// apart by their versions and sources, in labels and in metadata alike.
pub proof fn labels_tell_namesakes_apart(m: RustModel, i: int, crate_text: Seq<char>)
    ensures
        ({
            let p = m.packages@[i];
            let alone = forall|j: int|
                0 <= j < m.packages@.len() && j != i ==> (#[trigger] m.packages@[j]).name@
                    != p.name@;
            let source = if p.id@.source is Workspace {
                "workspace+"@ + p.id@.source->Workspace_0
            } else {
                lock_source_text(p.id@.source)
            };
            let suffix = "@"@ + version_text(p.id@.version) + "#"@ + source;
            &&& alone ==> label_of(m, i) == p.name@ && meta_name(m, i, crate_text) == crate_text
            &&& !alone ==> label_of(m, i) == p.name@ + suffix && meta_name(m, i, crate_text)
                == crate_text + suffix
        }),
{
}

/// An edge is linked only where it leads to a package with a library; to a native
/// import it leads to no crate.
pub proof fn unlinkable_edges_are_refused(p: Planner<'_>, dep: Dep, host: bool)
    ensures
        native(*p.model, dep.package.name@) ==> dep_spec_of(p, dep, host) == Ok::<
            DepSpecView,
            PlanFault,
        >(DepSpecView::Native),
        !native(*p.model, dep.package.name@) && find(p.model.packages@, dep.package@) is None
            ==> dep_spec_of(p, dep, host) is Err && dep_spec_of(p, dep, host)->Err_0 is Message,
        !native(*p.model, dep.package.name@) && (find(
            p.model.packages@,
            dep.package@,
        ) matches Some(j) && p.model.packages@[j].lib is None) ==> dep_spec_of(p, dep, host) is Err
            && dep_spec_of(p, dep, host)->Err_0 is Message,
        dep_spec_of(p, dep, host) is Ok && !native(*p.model, dep.package.name@) ==> (find(
            p.model.packages@,
            dep.package@,
        ) matches Some(j) && p.model.packages@[j].lib is Some),
{
}

/// The message of a failed import says which path it is about and why.
pub proof fn import_failures_say_why(path: Seq<char>, why: Seq<char>)
    ensures
        shows(import_fault_text(ImportFault::Io(path, why)), path),
        shows(import_fault_text(ImportFault::Io(path, why)), why),
        shows(import_fault_text(ImportFault::Parse(path, why)), path),
        shows(import_fault_text(ImportFault::Parse(path, why)), why),
        import_fault_text(ImportFault::Io(path, why)) != import_fault_text(
            ImportFault::Parse(path, why),
        ),
        import_fault_text(ImportFault::Unsupported(why)) == "unsupported Cargo feature: "@ + why,
{
    reveal_strlit("cannot read ");
    reveal_strlit("cannot parse ");
    let none = Seq::<char>::empty();
    let a = import_fault_text(ImportFault::Io(path, why));
    let b = import_fault_text(ImportFault::Parse(path, why));
    assert(a =~= "cannot read "@ + path + (": "@ + why));
    assert(a =~= ("cannot read "@ + path + ": "@) + why + none);
    assert(b =~= "cannot parse "@ + path + (": "@ + why));
    assert(b =~= ("cannot parse "@ + path + ": "@) + why + none);
    assert(a[7] == 'r' && b[7] == 'p');
}

/// The message of a toolchain that failed says what it is about.
pub proof fn toolchain_failures_say_why(why: Seq<char>)
    ensures
        toolchain_text(ToolchainErrorView::Missing(why)) == "cannot locate Rust toolchain: "@ + why,
        shows(toolchain_text(ToolchainErrorView::InvalidSysroot(why)), why),
        toolchain_text(ToolchainErrorView::Io(why)) == "toolchain capture failed: "@ + why,
        toolchain_text(ToolchainErrorView::Dist(why)) == why,
{
    assert(toolchain_text(ToolchainErrorView::InvalidSysroot(why)) == "rustc reported sysroot "@
        + why + " but no rustc binary exists there"@);
}

} // verus!
