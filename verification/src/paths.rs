//! Lexical paths: `/`-separated texts, never looked up on a disk.

use vstd::prelude::*;
use vstd::string::*;
use crate::strmap::{less, lt};
use crate::text::{
    cat, join, join_spec, owned, push_text, replace_char, replace_spec, same, split, split_spec,
    starts, starts_with, texts,
};

verus! {

/// Whether a segment counts as a component: it is not empty, and a `.` counts
/// only as the first of all.
pub open spec fn counts(segment: Seq<char>, first: bool) -> bool {
    segment != ""@ && (segment != "."@ || first)
}

/// The segments that count as components.
pub open spec fn kept(segments: Seq<Seq<char>>) -> Seq<Seq<char>>
    decreases segments.len(),
{
    if segments.len() == 0 {
        Seq::empty()
    } else if counts(segments.last(), segments.len() == 1) {
        kept(segments.drop_last()).push(segments.last())
    } else {
        kept(segments.drop_last())
    }
}

/// The components of a path; that of an absolute path begin with `/`.
pub open spec fn components_spec(path: Seq<char>) -> Seq<Seq<char>> {
    let named = kept(split_spec(path, '/'));
    if starts(path, "/"@) {
        seq!["/"@] + named
    } else {
        named
    }
}

/// The components of a path.
pub fn components(path: &str) -> (r: Vec<String>)
    ensures
        texts(r@) == components_spec(path@),
{
    let segments = split(path, '/');
    let ghost all = texts(segments@);
    let mut out: Vec<String> = Vec::new();
    let absolute = starts_with(path, "/");
    let ghost lead = if absolute {
        seq!["/"@]
    } else {
        Seq::empty()
    };
    if absolute {
        push_text(&mut out, "/");
    }
    assert(texts(out@) =~= lead + kept(all.take(0)));
    let mut i: usize = 0;
    while i < segments.len()
        invariant
            i <= segments.len(),
            all == texts(segments@),
            texts(out@) == lead + kept(all.take(i as int)),
        decreases segments.len() - i,
    {
        let s = segments[i].as_str();
        proof {
            let t = all.take(i as int + 1);
            assert(t.drop_last() =~= all.take(i as int));
            assert(t.last() == s@);
        }
        if !same(s, "") && (!same(s, ".") || i == 0) {
            push_text(&mut out, s);
            assert(lead + kept(all.take(i as int)).push(s@) =~= (lead + kept(
                all.take(i as int),
            )).push(s@));
        }
        i += 1;
    }
    assert(all.take(all.len() as int) =~= all);
    assert(texts(out@) =~= components_spec(path@));
    out
}

/// The components with `.` dropped and each `..` taking the one before it away;
/// above the root, or above the beginning, there is nothing to take.
pub open spec fn resolved(parts: Seq<Seq<char>>) -> Seq<Seq<char>>
    decreases parts.len(),
{
    if parts.len() == 0 {
        Seq::empty()
    } else {
        let before = resolved(parts.drop_last());
        let last = parts.last();
        if last == "."@ {
            before
        } else if last == ".."@ {
            if before.len() == 0 || before == seq!["/"@] {
                before
            } else {
                before.drop_last()
            }
        } else {
            before.push(last)
        }
    }
}

/// The components of a path after `.` and `..` are resolved.
fn resolve(path: &str) -> (r: Vec<String>)
    ensures
        texts(r@) == resolved(components_spec(path@)),
{
    let parts = components(path);
    let ghost all = texts(parts@);
    let mut out: Vec<String> = Vec::new();
    let mut i: usize = 0;
    assert(texts(out@) =~= resolved(all.take(0)));
    while i < parts.len()
        invariant
            i <= parts.len(),
            all == texts(parts@),
            texts(out@) == resolved(all.take(i as int)),
        decreases parts.len() - i,
    {
        let s = parts[i].as_str();
        let ghost before = texts(out@);
        proof {
            let t = all.take(i as int + 1);
            assert(t.drop_last() =~= all.take(i as int));
            assert(t.last() == s@);
            assert(before.len() == out@.len());
        }
        if same(s, ".") {
        } else if same(s, "..") {
            if out.len() > 0 {
                if out.len() == 1 && same(out[0].as_str(), "/") {
                    assert(before =~= seq!["/"@]);
                } else {
                    assert(before != seq!["/"@]) by {
                        if before == seq!["/"@] {
                            assert(before[0] == out@[0]@);
                        }
                    }
                    out.pop();
                    assert(texts(out@) =~= before.drop_last());
                }
            }
        } else {
            push_text(&mut out, s);
        }
        i += 1;
    }
    assert(all.take(all.len() as int) =~= all);
    out
}

/// The path that components stand for.
pub open spec fn rendered(parts: Seq<Seq<char>>) -> Seq<char> {
    if parts.len() > 0 && parts[0] == "/"@ {
        "/"@ + join_spec(parts.skip(1), "/"@)
    } else {
        join_spec(parts, "/"@)
    }
}

/// The elements of `v` from `from` on.
pub fn tail(v: &Vec<String>, from: usize) -> (r: Vec<String>)
    requires
        from <= v.len(),
    ensures
        texts(r@) == texts(v@).skip(from as int),
{
    let mut out: Vec<String> = Vec::new();
    let mut i: usize = from;
    while i < v.len()
        invariant
            from <= i <= v.len(),
            texts(out@) == texts(v@).subrange(from as int, i as int),
        decreases v.len() - i,
    {
        push_text(&mut out, v[i].as_str());
        i += 1;
        assert(texts(out@) =~= texts(v@).subrange(from as int, i as int));
    }
    assert(texts(out@) =~= texts(v@).skip(from as int));
    out
}

/// Writes components as a path.
fn render(parts: &Vec<String>) -> (r: String)
    ensures
        r@ == rendered(texts(parts@)),
{
    if parts.len() > 0 {
        assert(texts(parts@)[0] == parts@[0]@);
        if same(parts[0].as_str(), "/") {
            return cat("/", join(&tail(parts, 1), "/").as_str());
        }
    }
    join(parts, "/")
}

/// A lexical path with `.` and `..` components resolved, without touching the
/// filesystem.
pub open spec fn normalized(path: Seq<char>) -> Seq<char> {
    rendered(resolved(components_spec(path)))
}

/// Normalizes a lexical path: resolves `.`/`..` components without touching the
/// filesystem.
pub fn normalize_lexical(path: &str) -> (r: String)
    ensures
        r@ == normalized(path@),
{
    render(&resolve(path))
}

/// How many components two paths have in common from the beginning.
pub open spec fn common_len(a: Seq<Seq<char>>, b: Seq<Seq<char>>) -> nat
    decreases a.len(),
{
    if a.len() > 0 && b.len() > 0 && a[0] == b[0] {
        1 + common_len(a.skip(1), b.skip(1))
    } else {
        0
    }
}

/// `n` steps up.
pub open spec fn ups(n: nat) -> Seq<Seq<char>> {
    Seq::new(n, |i: int| ".."@)
}

/// The path that leads from the directory `root` to the directory `dir`, by
/// their components.
pub open spec fn relative_from(dir: Seq<Seq<char>>, root: Seq<Seq<char>>) -> Seq<char> {
    let common = common_len(dir, root);
    if common == 0 && dir.len() > 0 && dir[0] == "/"@ {
        rendered(dir)
    } else {
        join_spec(ups((root.len() - common) as nat) + dir.skip(common as int), "/"@)
    }
}

/// The normalized path of one directory relative to another, with forward
/// slashes.
pub open spec fn rel_path(dir: Seq<char>, root: Seq<char>) -> Seq<char> {
    replace_spec(
        relative_from(resolved(components_spec(dir)), resolved(components_spec(root))),
        '\\',
        '/',
    )
}

/// The normalized forward-slash path of `dir` relative to `workspace_root`
/// (lexical; leading `../` when the directory lies outside the root).
pub fn source_rel_path(dir: &str, workspace_root: &str) -> (r: String)
    ensures
        r@ == rel_path(dir@, workspace_root@),
{
    let d = resolve(dir);
    let w = resolve(workspace_root);
    let ghost ds = texts(d@);
    let ghost ws = texts(w@);
    let mut common: usize = 0;
    assert(ds.skip(0) =~= ds);
    assert(ws.skip(0) =~= ws);
    while common < d.len() && common < w.len() && same(d[common].as_str(), w[common].as_str())
        invariant
            common <= d.len(),
            common <= w.len(),
            ds == texts(d@),
            ws == texts(w@),
            common_len(ds, ws) == common + common_len(
                ds.skip(common as int),
                ws.skip(common as int),
            ),
        decreases d.len() - common,
    {
        assert(ds.skip(common as int)[0] == d@[common as int]@);
        assert(ws.skip(common as int)[0] == w@[common as int]@);
        assert(ds.skip(common as int).skip(1) =~= ds.skip(common as int + 1));
        assert(ws.skip(common as int).skip(1) =~= ws.skip(common as int + 1));
        common += 1;
    }
    proof {
        if common < d.len() && common < w.len() {
            assert(ds.skip(common as int)[0] == d@[common as int]@);
            assert(ws.skip(common as int)[0] == w@[common as int]@);
        }
        if d.len() > 0 {
            assert(ds[0] == d@[0]@);
        }
    }
    if common == 0 && d.len() > 0 && same(d[0].as_str(), "/") {
        return replace_char(render(&d).as_str(), '\\', '/');
    }
    let mut out: Vec<String> = Vec::new();
    let mut i: usize = common;
    assert(texts(out@) =~= ups(0));
    while i < w.len()
        invariant
            common <= i <= w.len(),
            texts(out@) == ups((i - common) as nat),
        decreases w.len() - i,
    {
        push_text(&mut out, "..");
        i += 1;
        assert(texts(out@) =~= ups((i - common) as nat));
    }
    let mut j: usize = common;
    assert(texts(out@) =~= ups((w@.len() - common) as nat) + ds.subrange(common as int, j as int));
    while j < d.len()
        invariant
            common <= j <= d.len(),
            ds == texts(d@),
            texts(out@) == ups((w@.len() - common) as nat) + ds.subrange(common as int, j as int),
        decreases d.len() - j,
    {
        push_text(&mut out, d[j].as_str());
        j += 1;
        assert(texts(out@) =~= ups((w@.len() - common) as nat) + ds.subrange(
            common as int,
            j as int,
        ));
    }
    assert(ds.subrange(common as int, d@.len() as int) =~= ds.skip(common as int));
    replace_char(join(&out, "/").as_str(), '\\', '/')
}

/// A path below another: `path` itself where it is absolute.
pub open spec fn joined(base: Seq<char>, path: Seq<char>) -> Seq<char> {
    if starts(path, "/"@) || base.len() == 0 {
        path
    } else if base.last() == '/' {
        base + path
    } else {
        base + "/"@ + path
    }
}

/// Joins two paths.
pub fn path_join(base: &str, path: &str) -> (r: String)
    ensures
        r@ == joined(base@, path@),
{
    if starts_with(path, "/") || base.unicode_len() == 0 {
        owned(path)
    } else if base.get_char(base.unicode_len() - 1) == '/' {
        cat(base, path)
    } else {
        let mut out = cat(base, "/");
        out.append(path);
        out
    }
}

/// Whether components come before others: by the first component in which they
/// differ, a path before what lies below it.
pub open spec fn components_lt(a: Seq<Seq<char>>, b: Seq<Seq<char>>) -> bool
    decreases a.len(),
{
    if b.len() == 0 {
        false
    } else if a.len() == 0 {
        true
    } else if a[0] == b[0] {
        components_lt(a.skip(1), b.skip(1))
    } else {
        lt(a[0], b[0])
    }
}

/// The order of paths.
pub open spec fn path_lt(a: Seq<char>, b: Seq<char>) -> bool {
    components_lt(components_spec(a), components_spec(b))
}

/// Whether one path comes before another.
pub fn path_less(a: &str, b: &str) -> (r: bool)
    ensures
        r == path_lt(a@, b@),
{
    let x = components(a);
    let y = components(b);
    let ghost xs = texts(x@);
    let ghost ys = texts(y@);
    let mut i: usize = 0;
    assert(xs.skip(0) =~= xs);
    assert(ys.skip(0) =~= ys);
    while i < x.len() && i < y.len()
        invariant
            i <= x.len(),
            i <= y.len(),
            xs == texts(x@),
            ys == texts(y@),
            xs == components_spec(a@),
            ys == components_spec(b@),
            components_lt(xs, ys) == components_lt(xs.skip(i as int), ys.skip(i as int)),
        decreases x.len() - i,
    {
        assert(xs.skip(i as int)[0] == x@[i as int]@);
        assert(ys.skip(i as int)[0] == y@[i as int]@);
        if !same(x[i].as_str(), y[i].as_str()) {
            return less(x[i].as_str(), y[i].as_str());
        }
        assert(xs.skip(i as int).skip(1) =~= xs.skip(i as int + 1));
        assert(ys.skip(i as int).skip(1) =~= ys.skip(i as int + 1));
        i += 1;
    }
    i < y.len()
}

} // verus!
