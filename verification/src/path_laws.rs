//! What relative paths lead to.

use vstd::prelude::*;
use vstd::string::*;
use crate::paths::{
    common_len, components_lt, components_spec, joined, kept, normalized, rel_path, relative_from,
    rendered, resolved, ups,
};
use crate::strmap::lt;
use crate::text::{
    join_spec, lemma_split_nonempty, lemma_split_push, lemma_split_single, replace_spec, split_spec,
    starts,
};

verus! {

// ---- Segments ---------------------------------------------------------------------

proof fn lemma_words()
    ensures
        ""@ == Seq::<char>::empty(),
        "/"@ == seq!['/'],
        "/"@ != "."@,
        "/"@ != ".."@,
        "."@ != ".."@,
        "."@ != ""@,
        ".."@ != ""@,
        ".."@ != "."@,
        !".."@.contains('/'),
{
    reveal_strlit("");
    reveal_strlit("/");
    reveal_strlit(".");
    reveal_strlit("..");
    assert(""@ =~= Seq::<char>::empty());
    assert("/"@ =~= seq!['/']);
    assert("/"@[0] == '/' && "."@[0] == '.');
    assert("."@.len() == 1 && ".."@.len() == 2 && "/"@.len() == 1 && ""@.len() == 0);
}

proof fn lemma_split_parts(s: Seq<char>, c: char)
    ensures
        forall|k: int|
            0 <= k < split_spec(s, c).len() ==> !(#[trigger] split_spec(s, c)[k]).contains(c),
    decreases s.len(),
{
    s.index_of_last_ensures(c);
    if !s.contains(c) {
        lemma_split_single(s, c);
    } else {
        let i = s.index_of_last(c)->0;
        let rest = s.skip(i + 1);
        lemma_split_push(s, c, i);
        lemma_split_parts(s.take(i), c);
        if rest.contains(c) {
            let k = choose|k: int| 0 <= k < rest.len() && rest[k] == c;
            assert(s[i + 1 + k] == c);
        }
    }
}

proof fn lemma_split_concat(a: Seq<char>, b: Seq<char>, c: char)
    ensures
        split_spec(a + seq![c] + b, c) == split_spec(a, c) + split_spec(b, c),
    decreases b.len(),
{
    let s = a + seq![c] + b;
    b.index_of_last_ensures(c);
    if !b.contains(c) {
        assert(s[a.len() as int] == c);
        assert forall|j: int| a.len() < j < s.len() implies s[j] != c by {
            assert(s[j] == b[j - a.len() - 1]);
        }
        lemma_split_push(s, c, a.len() as int);
        lemma_split_single(b, c);
        assert(s.take(a.len() as int) =~= a);
        assert(s.skip(a.len() as int + 1) =~= b);
        assert(split_spec(a, c).push(b) =~= split_spec(a, c) + seq![b]);
    } else {
        let i = b.index_of_last(c)->0;
        let at = a.len() + 1 + i;
        assert(s[at] == c);
        assert forall|j: int| at < j < s.len() implies s[j] != c by {
            assert(s[j] == b[j - a.len() - 1]);
        }
        lemma_split_push(s, c, at);
        lemma_split_push(b, c, i);
        lemma_split_concat(a, b.take(i), c);
        assert(s.take(at) =~= a + seq![c] + b.take(i));
        assert(s.skip(at + 1) =~= b.skip(i + 1));
        assert((split_spec(a, c) + split_spec(b.take(i), c)).push(b.skip(i + 1)) =~= split_spec(
            a,
            c,
        ) + split_spec(b.take(i), c).push(b.skip(i + 1)));
    }
}

/// Whether each part counts as a component wherever it stands.
spec fn solid(parts: Seq<Seq<char>>) -> bool {
    forall|k: int|
        0 <= k < parts.len() ==> (#[trigger] parts[k]) != ""@ && parts[k] != "."@
            && !parts[k].contains('/')
}

/// Whether each part counts as a component and is no step up.
spec fn settled(parts: Seq<Seq<char>>) -> bool {
    solid(parts) && forall|k: int| 0 <= k < parts.len() ==> (#[trigger] parts[k]) != ".."@
}

proof fn lemma_split_joined(parts: Seq<Seq<char>>)
    requires
        parts.len() > 0,
        solid(parts),
    ensures
        split_spec(join_spec(parts, "/"@), '/') == parts,
    decreases parts.len(),
{
    lemma_words();
    assert(!parts.last().contains('/'));
    if parts.len() == 1 {
        lemma_split_single(parts[0], '/');
        assert(seq![parts[0]] =~= parts);
    } else {
        let before = parts.drop_last();
        assert(solid(before)) by {
            assert forall|k: int| 0 <= k < before.len() implies (#[trigger] before[k]) != ""@
                && before[k] != "."@ && !before[k].contains('/') by {
                assert(before[k] == parts[k]);
            }
        }
        lemma_split_joined(before);
        lemma_split_concat(join_spec(before, "/"@), parts.last(), '/');
        lemma_split_single(parts.last(), '/');
        assert(before + seq![parts.last()] =~= parts);
    }
}

proof fn lemma_join_relative(parts: Seq<Seq<char>>)
    requires
        solid(parts),
    ensures
        !starts(join_spec(parts, "/"@), "/"@),
{
    lemma_words();
    let s = join_spec(parts, "/"@);
    if starts(s, "/"@) {
        assert(s[0] == s.take(1)[0]);
        let none = Seq::<char>::empty();
        assert(s =~= none + seq!['/'] + s.skip(1));
        if parts.len() > 0 {
            lemma_split_concat(none, s.skip(1), '/');
            lemma_split_single(none, '/');
            lemma_split_joined(parts);
            assert(parts[0] == none);
        }
    }
}

proof fn lemma_kept_concat(a: Seq<Seq<char>>, b: Seq<Seq<char>>)
    requires
        a.len() > 0,
        solid(b),
    ensures
        kept(a + b) == kept(a) + b,
    decreases b.len(),
{
    if b.len() == 0 {
        assert(a + b =~= a);
        assert(kept(a) + b =~= kept(a));
    } else {
        let less = b.drop_last();
        assert(solid(less)) by {
            assert forall|k: int| 0 <= k < less.len() implies (#[trigger] less[k]) != ""@
                && less[k] != "."@ && !less[k].contains('/') by {
                assert(less[k] == b[k]);
            }
        }
        lemma_kept_concat(a, less);
        assert(b[b.len() - 1] == b.last());
        assert((a + b).drop_last() =~= a + less);
        assert((a + b).last() == b.last());
        assert((kept(a) + less).push(b.last()) =~= kept(a) + b);
    }
}

proof fn lemma_kept_empty(a: Seq<Seq<char>>)
    ensures
        kept(a.push(""@)) == kept(a),
{
    assert(a.push(""@).drop_last() =~= a);
}

proof fn lemma_kept_solid(b: Seq<Seq<char>>)
    requires
        solid(b),
    ensures
        kept(b) == b,
    decreases b.len(),
{
    if b.len() > 0 {
        let less = b.drop_last();
        assert(solid(less)) by {
            assert forall|k: int| 0 <= k < less.len() implies (#[trigger] less[k]) != ""@
                && less[k] != "."@ && !less[k].contains('/') by {
                assert(less[k] == b[k]);
            }
        }
        lemma_kept_solid(less);
        assert(b[b.len() - 1] == b.last());
        assert(less.push(b.last()) =~= b);
    }
}

/// Whether each part is a name between slashes.
spec fn named(parts: Seq<Seq<char>>) -> bool {
    forall|k: int| 0 <= k < parts.len() ==> (#[trigger] parts[k]) != ""@ && !parts[k].contains('/')
}

proof fn lemma_kept_named(segments: Seq<Seq<char>>)
    requires
        forall|k: int| 0 <= k < segments.len() ==> !(#[trigger] segments[k]).contains('/'),
    ensures
        named(kept(segments)),
    decreases segments.len(),
{
    if segments.len() > 0 {
        let less = segments.drop_last();
        assert forall|k: int| 0 <= k < less.len() implies !(#[trigger] less[k]).contains('/') by {
            assert(less[k] == segments[k]);
        }
        lemma_kept_named(less);
        assert(!segments[segments.len() - 1].contains('/'));
    }
}

// ---- Components -------------------------------------------------------------------

/// The component that an absolute path begins with.
spec fn lead_of(path: Seq<char>) -> Seq<Seq<char>> {
    if starts(path, "/"@) {
        seq!["/"@]
    } else {
        Seq::empty()
    }
}

/// The components of a path behind what it begins with.
spec fn names_of(path: Seq<char>) -> Seq<Seq<char>> {
    resolved(components_spec(path)).skip(lead_of(path).len() as int)
}

proof fn lemma_resolved_named(lead: Seq<Seq<char>>, parts: Seq<Seq<char>>)
    requires
        lead == Seq::<Seq<char>>::empty() || lead == seq!["/"@],
        named(parts),
    ensures
        resolved(lead + parts).len() >= lead.len(),
        resolved(lead + parts).take(lead.len() as int) == lead,
        settled(resolved(lead + parts).skip(lead.len() as int)),
    decreases parts.len(),
{
    lemma_words();
    let n = lead.len() as int;
    if parts.len() == 0 {
        assert(lead + parts =~= lead);
        if lead.len() > 0 {
            assert(lead.drop_last() =~= Seq::<Seq<char>>::empty());
            assert(resolved(lead.drop_last()) =~= Seq::<Seq<char>>::empty());
            assert(lead.last() == "/"@);
            assert(resolved(lead) =~= seq!["/"@]);
        }
        assert(resolved(lead) =~= lead);
    } else {
        let less = parts.drop_last();
        assert forall|k: int| 0 <= k < less.len() implies (#[trigger] less[k]) != ""@
            && !less[k].contains('/') by {
            assert(less[k] == parts[k]);
        }
        lemma_resolved_named(lead, less);
        assert((lead + parts).drop_last() =~= lead + less);
        assert((lead + parts).last() == parts.last());
        assert(parts[parts.len() - 1] == parts.last());
        let before = resolved(lead + less);
        let after = resolved(lead + parts);
        assert(before =~= lead + before.skip(n));
        if parts.last() == ".."@ {
            if !(before.len() == 0 || before == seq!["/"@]) {
                assert(before.skip(n).len() > 0) by {
                    if before.skip(n).len() == 0 {
                        assert(before =~= lead);
                    }
                }
                assert(after == before.drop_last());
                assert(after.skip(n) =~= before.skip(n).drop_last());
                assert(after.take(n) =~= before.take(n));
                assert forall|k: int| 0 <= k < after.skip(n).len() implies (#[trigger] after.skip(
                    n,
                )[k]) == before.skip(n)[k] by {}
            }
        } else if parts.last() != "."@ {
            assert(after == before.push(parts.last()));
            assert(after.skip(n) =~= before.skip(n).push(parts.last()));
            assert(after.take(n) =~= before.take(n));
        }
    }
}

proof fn lemma_shape(path: Seq<char>)
    ensures
        resolved(components_spec(path)) == lead_of(path) + names_of(path),
        settled(names_of(path)),
{
    let segments = split_spec(path, '/');
    lemma_split_parts(path, '/');
    lemma_kept_named(segments);
    let lead = lead_of(path);
    assert(components_spec(path) =~= lead + kept(segments));
    lemma_resolved_named(lead, kept(segments));
    let all = resolved(components_spec(path));
    assert(all =~= all.take(lead.len() as int) + all.skip(lead.len() as int));
}

proof fn lemma_resolve_names(parts: Seq<Seq<char>>, rest: Seq<Seq<char>>)
    requires
        settled(rest),
    ensures
        resolved(parts + rest) == resolved(parts) + rest,
    decreases rest.len(),
{
    if rest.len() == 0 {
        assert(parts + rest =~= parts);
        assert(resolved(parts) + rest =~= resolved(parts));
    } else {
        let less = rest.drop_last();
        assert(settled(less)) by {
            assert forall|k: int| 0 <= k < less.len() implies (#[trigger] less[k]) != ""@
                && less[k] != "."@ && !less[k].contains('/') && less[k] != ".."@ by {
                assert(less[k] == rest[k]);
            }
        }
        lemma_resolve_names(parts, less);
        assert(rest[rest.len() - 1] == rest.last());
        assert((parts + rest).drop_last() =~= parts + less);
        assert((parts + rest).last() == rest.last());
        assert((resolved(parts) + less).push(rest.last()) =~= resolved(parts) + rest);
    }
}

proof fn lemma_resolve_ups(parts: Seq<Seq<char>>, n: nat)
    requires
        n <= resolved(parts).len(),
        n > 0 && resolved(parts)[0] == "/"@ ==> n < resolved(parts).len(),
    ensures
        resolved(parts + ups(n)) == resolved(parts).take(resolved(parts).len() - n),
    decreases n,
{
    lemma_words();
    let all = resolved(parts);
    if n == 0 {
        assert(parts + ups(n) =~= parts);
        assert(all.take(all.len() as int) =~= all);
    } else {
        let less = (n - 1) as nat;
        lemma_resolve_ups(parts, less);
        assert((parts + ups(n)).drop_last() =~= parts + ups(less));
        assert((parts + ups(n)).last() == ".."@);
        let before = all.take(all.len() - less);
        assert(before.len() > 0);
        if before == seq!["/"@] {
            assert(before[0] == all[0]);
        }
        assert(before.drop_last() =~= all.take(all.len() - n));
    }
}

proof fn lemma_common(a: Seq<Seq<char>>, b: Seq<Seq<char>>)
    ensures
        common_len(a, b) <= a.len(),
        common_len(a, b) <= b.len(),
        a.take(common_len(a, b) as int) == b.take(common_len(a, b) as int),
    decreases a.len(),
{
    let n = common_len(a, b) as int;
    if a.len() > 0 && b.len() > 0 && a[0] == b[0] {
        lemma_common(a.skip(1), b.skip(1));
        assert forall|k: int| 0 <= k < n implies a[k] == b[k] by {
            if k > 0 {
                assert(a[k] == a.skip(1).take(n - 1)[k - 1]);
                assert(b[k] == b.skip(1).take(n - 1)[k - 1]);
            }
        }
    }
    assert(a.take(n) =~= b.take(n));
}

proof fn lemma_components_below(base: Seq<char>, parts: Seq<Seq<char>>)
    requires
        solid(parts),
    ensures
        components_spec(joined(base, join_spec(parts, "/"@))) == components_spec(base) + parts,
{
    lemma_words();
    let rel = join_spec(parts, "/"@);
    let all = joined(base, rel);
    lemma_join_relative(parts);
    let segments = if parts.len() == 0 {
        seq![""@]
    } else {
        parts
    };
    if parts.len() == 0 {
        assert(rel =~= Seq::<char>::empty());
        lemma_split_single(rel, '/');
        assert(split_spec(rel, '/') =~= segments);
    } else {
        lemma_split_joined(parts);
    }
    if base.len() == 0 {
        assert(base =~= Seq::<char>::empty());
        lemma_split_single(base, '/');
        assert(kept(seq![""@]) =~= Seq::<Seq<char>>::empty()) by {
            lemma_kept_empty(Seq::empty());
            assert(Seq::<Seq<char>>::empty().push(""@) =~= seq![""@]);
        }
        assert(split_spec(base, '/') =~= seq![""@]);
        lemma_kept_solid(parts);
        assert(!starts(base, "/"@));
        assert(components_spec(base) =~= Seq::<Seq<char>>::empty());
        assert(components_spec(all) =~= components_spec(base) + parts);
    } else {
        let slash = base.last() == '/';
        let inner = if slash {
            base.drop_last()
        } else {
            base
        };
        assert(all =~= inner + seq!['/'] + rel);
        lemma_split_concat(inner, rel, '/');
        let front = split_spec(inner, '/');
        lemma_split_nonempty(inner, '/');
        if parts.len() == 0 {
            lemma_kept_empty(front);
            assert(front + segments =~= front.push(""@));
        } else {
            lemma_kept_concat(front, parts);
        }
        assert(kept(split_spec(all, '/')) =~= kept(front) + parts);
        assert(kept(split_spec(base, '/')) == kept(front)) by {
            if slash {
                let none = Seq::<char>::empty();
                assert(base =~= inner + seq!['/'] + none);
                lemma_split_concat(inner, none, '/');
                lemma_split_single(none, '/');
                assert(front + seq![none] =~= front.push(""@));
                lemma_kept_empty(front);
            }
        }
        assert(all[0] == base[0]);
        assert(all.take(1) =~= base.take(1));
        assert(starts(all, "/"@) == starts(base, "/"@));
        assert(components_spec(all) =~= components_spec(base) + parts);
    }
}

proof fn lemma_rendered_absolute(names: Seq<Seq<char>>)
    requires
        settled(names),
    ensures
        starts(rendered(seq!["/"@] + names), "/"@),
        resolved(components_spec(rendered(seq!["/"@] + names))) == seq!["/"@] + names,
{
    lemma_words();
    let all = seq!["/"@] + names;
    assert(all.skip(1) =~= names);
    let rest = join_spec(names, "/"@);
    let path = rendered(all);
    let none = Seq::<char>::empty();
    assert(path =~= none + seq!['/'] + rest);
    assert(path.take(1) =~= "/"@);
    lemma_split_concat(none, rest, '/');
    lemma_split_single(none, '/');
    let front = seq![none];
    assert(front =~= Seq::<Seq<char>>::empty().push(""@));
    lemma_kept_empty(Seq::empty());
    assert(kept(front) =~= Seq::<Seq<char>>::empty());
    if names.len() == 0 {
        assert(rest =~= none);
        assert(front + seq![none] =~= front.push(""@));
        lemma_kept_empty(front);
    } else {
        lemma_split_joined(names);
        lemma_kept_concat(front, names);
    }
    assert(components_spec(path) =~= all);
    lemma_resolve_names(seq!["/"@], names);
    let lead = seq!["/"@];
    assert(lead.drop_last() =~= Seq::<Seq<char>>::empty());
    assert(resolved(lead.drop_last()) =~= Seq::<Seq<char>>::empty());
    assert(lead.last() == "/"@);
    assert(resolved(lead) =~= lead);
}

/// The path of a directory relative to a root leads back from the root to the
/// directory. An absolute root says nothing of where a relative directory lies,
/// and backslashes come out as slashes; such paths aside, this holds of every two.
pub proof fn source_paths_lead_back(dir: Seq<char>, root: Seq<char>)
    requires
        starts(root, "/"@) ==> starts(dir, "/"@),
        !relative_from(
            resolved(components_spec(dir)),
            resolved(components_spec(root)),
        ).contains('\\'),
    ensures
        normalized(joined(root, rel_path(dir, root))) == normalized(dir),
{
    lemma_words();
    lemma_shape(dir);
    lemma_shape(root);
    let d = resolved(components_spec(dir));
    let r = resolved(components_spec(root));
    let rel = relative_from(d, r);
    lemma_replaced(rel);
    lemma_common(d, r);
    let common = common_len(d, r);
    let names = names_of(dir);
    if starts(dir, "/"@) {
        assert(d[0] == "/"@);
    } else {
        assert(d =~= names);
        if d.len() > 0 {
            assert(names[0] != "/"@) by {
                assert(!names[0].contains('/'));
                assert("/"@.contains('/')) by {
                    assert("/"@[0] == '/');
                }
            }
        }
    }
    if common == 0 && d.len() > 0 && d[0] == "/"@ {
        lemma_rendered_absolute(names);
    } else {
        if starts(root, "/"@) {
            assert(r[0] == "/"@);
            assert(common > 0);
        } else {
            assert(r =~= names_of(root));
            if r.len() > 0 {
                assert(!names_of(root)[0].contains('/'));
                assert("/"@[0] == '/');
                assert("/"@.contains('/'));
            }
        }
        let up = (r.len() - common) as nat;
        let rest = d.skip(common as int);
        let parts = ups(up) + rest;
        lemma_rest_settled(dir, rest, common as int);
        lemma_parts_solid(up, rest);
        lemma_components_below(root, parts);
        let base = components_spec(root);
        assert(base + parts =~= base + ups(up) + rest);
        lemma_resolve_ups(base, up);
        lemma_resolve_names(base + ups(up), rest);
        assert(r.take(r.len() - up) == d.take(common as int));
        assert(d.take(common as int) + rest =~= d);
    }
}

/// Whether a directory lies under another, or is it.
pub open spec fn lies_under(dir: Seq<char>, root: Seq<char>) -> bool {
    let d = resolved(components_spec(dir));
    let r = resolved(components_spec(root));
    r.len() <= d.len() && d.take(r.len() as int) == r
}

proof fn lemma_common_all(a: Seq<Seq<char>>, b: Seq<Seq<char>>)
    requires
        b.len() <= a.len(),
        a.take(b.len() as int) == b,
    ensures
        common_len(a, b) == b.len(),
    decreases a.len(),
{
    if b.len() > 0 {
        assert(a[0] == a.take(b.len() as int)[0]);
        assert(a.skip(1).take(b.len() - 1) =~= b.skip(1)) by {
            assert forall|k: int| 0 <= k < b.len() - 1 implies a.skip(1)[k] == b.skip(1)[k] by {
                assert(a.take(b.len() as int)[k + 1] == b[k + 1]);
            }
        }
        lemma_common_all(a.skip(1), b.skip(1));
    }
}

proof fn lemma_components_joined(parts: Seq<Seq<char>>)
    requires
        solid(parts),
    ensures
        components_spec(join_spec(parts, "/"@)) == parts,
{
    lemma_words();
    let none = Seq::<char>::empty();
    lemma_components_below(none, parts);
    lemma_split_single(none, '/');
    assert(kept(seq![none]) =~= Seq::<Seq<char>>::empty()) by {
        lemma_kept_empty(Seq::empty());
        assert(Seq::<Seq<char>>::empty().push(""@) =~= seq![none]);
    }
    assert(!starts(none, "/"@));
    assert(components_spec(none) =~= Seq::<Seq<char>>::empty());
    assert(Seq::<Seq<char>>::empty() + parts =~= parts);
}

/// The path of a directory relative to a root is relative: it climbs first and
/// only then descends, by no `.`, and it climbs exactly where the directory does
/// not lie under the root. A directory that is absolute has no path from a
/// relative root, and backslashes come out as slashes; such paths aside, this
/// holds of every two.
pub proof fn source_paths_climb_first(dir: Seq<char>, root: Seq<char>)
    requires
        starts(dir, "/"@) ==> starts(root, "/"@),
        !relative_from(
            resolved(components_spec(dir)),
            resolved(components_spec(root)),
        ).contains('\\'),
    ensures
        ({
            let parts = components_spec(rel_path(dir, root));
            &&& !starts(rel_path(dir, root), "/"@)
            &&& forall|k: int| 0 <= k < parts.len() ==> (#[trigger] parts[k]) != "."@
            &&& forall|j: int, k: int|
                0 <= j < k < parts.len() && (#[trigger] parts[k]) == ".."@ ==> (
                #[trigger] parts[j]) == ".."@
            &&& (parts.len() == 0 || parts[0] != ".."@) <==> lies_under(dir, root)
        }),
{
    lemma_words();
    lemma_shape(dir);
    lemma_shape(root);
    let d = resolved(components_spec(dir));
    let r = resolved(components_spec(root));
    let rel = relative_from(d, r);
    lemma_replaced(rel);
    assert(rel_path(dir, root) == rel);
    lemma_common(d, r);
    let common = common_len(d, r);
    let names = names_of(dir);
    if starts(dir, "/"@) {
        assert(d[0] == "/"@);
        assert(r[0] == "/"@);
        assert(common > 0);
    } else {
        assert(d =~= names);
        if d.len() > 0 {
            assert(!names[0].contains('/'));
            assert("/"@[0] == '/');
            assert("/"@.contains('/'));
        }
    }
    let up = (r.len() - common) as nat;
    let rest = d.skip(common as int);
    let parts = ups(up) + rest;
    lemma_rest_settled(dir, rest, common as int);
    lemma_parts_solid(up, rest);
    lemma_components_joined(parts);
    lemma_join_relative(parts);
    assert forall|j: int, k: int|
        0 <= j < k < parts.len() && (#[trigger] parts[k]) == ".."@ implies (#[trigger] parts[j])
        == ".."@ by {
        if k >= up {
            assert(parts[k] == rest[k - up]);
        }
    }
    if lies_under(dir, root) {
        lemma_common_all(d, r);
        if parts.len() > 0 {
            assert(parts[0] == rest[0]);
        }
    } else {
        if up == 0 {
            assert(r.take(common as int) =~= r);
        }
        assert(parts[0] == ".."@);
    }
}

proof fn lemma_replaced(path: Seq<char>)
    requires
        !path.contains('\\'),
    ensures
        replace_spec(path, '\\', '/') == path,
{
    assert forall|k: int| 0 <= k < path.len() implies path[k] != '\\' by {
        assert(path.contains(path[k]));
    }
    assert(replace_spec(path, '\\', '/') =~= path);
}

proof fn lemma_rest_settled(dir: Seq<char>, rest: Seq<Seq<char>>, common: int)
    requires
        lead_of(dir).len() <= common <= resolved(components_spec(dir)).len(),
        rest == resolved(components_spec(dir)).skip(common),
    ensures
        settled(rest),
{
    lemma_shape(dir);
    let names = names_of(dir);
    let lead = lead_of(dir).len();
    assert forall|k: int| 0 <= k < rest.len() implies (#[trigger] rest[k]) != ""@ && rest[k]
        != "."@ && !rest[k].contains('/') && rest[k] != ".."@ by {
        assert(rest[k] == names[common + k - lead]);
    }
}

proof fn lemma_parts_solid(up: nat, rest: Seq<Seq<char>>)
    requires
        settled(rest),
    ensures
        solid(ups(up) + rest),
{
    lemma_words();
    let parts = ups(up) + rest;
    assert forall|k: int| 0 <= k < parts.len() implies (#[trigger] parts[k]) != ""@ && parts[k]
        != "."@ && !parts[k].contains('/') by {
        if k < up {
            assert(parts[k] == ".."@);
        } else {
            assert(parts[k] == rest[k - up]);
        }
    }
}

// ---- Components -------------------------------------------------------------------

/// Names with slashes between them are the components of the path that they make up.
pub proof fn paths_are_made_of_their_names(names: Seq<Seq<char>>)
    requires
        names.len() > 0,
        forall|k: int|
            #![trigger names[k]]
            0 <= k < names.len() ==> names[k].len() > 0 && names[k] != "."@ && !names[k].contains(
                '/',
            ),
    ensures
        components_spec(join_spec(names, "/"@)) == names,
{
    lemma_words();
    assert forall|k: int| 0 <= k < names.len() implies (#[trigger] names[k]) != ""@ by {
        assert(""@.len() == 0);
    }
    lemma_components_joined(names);
}

/// A name stays where nothing takes it away; `.` stays where one is, and `..` takes
/// the name before it away. There is nothing above the root.
pub proof fn steps_up_undo_steps_down(parts: Seq<Seq<char>>, name: Seq<char>)
    requires
        name != "."@,
        name != ".."@,
        name != "/"@,
    ensures
        resolved(parts.push(name)) == resolved(parts).push(name),
        resolved(parts.push("."@)) == resolved(parts),
        resolved(parts.push(name).push(".."@)) == resolved(parts),
        resolved(seq!["/"@].push(".."@)) == seq!["/"@],
        resolved(Seq::<Seq<char>>::empty().push(".."@)) == Seq::<Seq<char>>::empty(),
{
    lemma_words();
    let a = parts.push(name);
    assert(a.drop_last() =~= parts);
    assert(parts.push("."@).drop_last() =~= parts);
    let b = a.push(".."@);
    assert(b.drop_last() =~= a);
    let r = resolved(parts);
    assert(resolved(a) == r.push(name));
    assert(r.push(name).last() == name);
    assert(r.push(name) != seq!["/"@]) by {
        if r.push(name) == seq!["/"@] {
            assert(r.push(name)[0] == "/"@);
        }
    }
    assert(r.push(name).drop_last() =~= r);
    let root = seq!["/"@];
    assert(root.drop_last() =~= Seq::<Seq<char>>::empty());
    reveal_with_fuel(resolved, 3);
    assert(resolved(root) =~= root);
    assert(root.push(".."@).drop_last() =~= root);
    let none = Seq::<Seq<char>>::empty();
    assert(none.push(".."@).drop_last() =~= none);
}

/// Paths are ordered by the first component in which they differ; one comes before
/// what lies below it.
pub proof fn paths_sort_by_component(
    way: Seq<Seq<char>>,
    x: Seq<char>,
    a: Seq<Seq<char>>,
    y: Seq<char>,
    b: Seq<Seq<char>>,
)
    requires
        x != y,
    ensures
        components_lt(way + seq![x] + a, way + seq![y] + b) <==> lt(x, y),
        components_lt(way, way + seq![y] + b),
        !components_lt(way + seq![x] + a, way),
        !components_lt(way, way),
    decreases way.len(),
{
    let p = way + seq![x] + a;
    let q = way + seq![y] + b;
    if way.len() > 0 {
        let rest = way.skip(1);
        paths_sort_by_component(rest, x, a, y, b);
        assert(p.skip(1) =~= rest + seq![x] + a);
        assert(q.skip(1) =~= rest + seq![y] + b);
        assert(p[0] == way[0] && q[0] == way[0]);
    }
}

} // verus!
