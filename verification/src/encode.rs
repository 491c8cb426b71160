//! The canonical values of identities and of resolved features.

use vstd::prelude::*;
use vstd::string::*;
use crate::features::{FeatureMap, PackageSets};
use crate::model::{PackageId, PackageIdView, SourceId, SourceView};
use crate::strmap::{ascending_of, StrSet};
use crate::text::texts;
use crate::tokens::{push_token, tokens_view, Token, TokenView};
use crate::version::version_text;
use crate::workspace::{ids_view, sort_ids, sorted_ids};

verus! {

/// The values of a source: its kind, then what identifies it.
pub open spec fn source_tokens(source: SourceView) -> Seq<TokenView> {
    match source {
        SourceView::Workspace(rel) => seq![TokenView::U32(0), TokenView::Str(rel)],
        SourceView::Path(rel) => seq![TokenView::U32(1), TokenView::Str(rel)],
        SourceView::Registry(url) => seq![TokenView::U32(2), TokenView::Str(url)],
        SourceView::Git { url, rev } => seq![
            TokenView::U32(3),
            TokenView::Str(url),
            TokenView::Str(rev),
        ],
    }
}

/// The values of an identity.
pub open spec fn id_tokens(id: PackageIdView) -> Seq<TokenView> {
    seq![TokenView::Str(id.name), TokenView::Str(version_text(id.version))] + source_tokens(
        id.source,
    )
}

fn push_id(out: &mut Vec<Token>, id: &PackageId)
    ensures
        tokens_view(final(out)@) == tokens_view(old(out)@) + id_tokens(id@),
{
    let ghost before = tokens_view(out@);
    push_token(out, Token::Str(id.name.clone()));
    push_token(out, Token::Str(id.version.to_text()));
    match &id.source {
        SourceId::Workspace(rel) => {
            push_token(out, Token::U32(0));
            push_token(out, Token::Str(rel.clone()));
        },
        SourceId::Path(rel) => {
            push_token(out, Token::U32(1));
            push_token(out, Token::Str(rel.clone()));
        },
        SourceId::Registry(url) => {
            push_token(out, Token::U32(2));
            push_token(out, Token::Str(url.clone()));
        },
        SourceId::Git { url, rev } => {
            push_token(out, Token::U32(3));
            push_token(out, Token::Str(url.clone()));
            push_token(out, Token::Str(rev.clone()));
        },
    }
    assert(tokens_view(out@) =~= before + id_tokens(id@));
}

impl PackageId {
    /// Lists the values of the identity.
    pub fn encode(&self) -> (r: Vec<Token>)
        ensures
            tokens_view(r@) == id_tokens(self@),
    {
        let mut out: Vec<Token> = Vec::new();
        push_id(&mut out, self);
        assert(tokens_view(out@) =~= id_tokens(self@));
        out
    }
}

/// Identities of one version with the same values are the same.
pub proof fn identities_are_told_apart(a: PackageIdView, b: PackageIdView)
    requires
        a.version == b.version,
        id_tokens(a) == id_tokens(b),
    ensures
        a == b,
{
    let x = id_tokens(a);
    let y = id_tokens(b);
    assert(x[0] == TokenView::Str(a.name) && y[0] == TokenView::Str(b.name));
    assert(x[2] == source_tokens(a.source)[0] && y[2] == source_tokens(b.source)[0]);
    assert(x[3] == source_tokens(a.source)[1] && y[3] == source_tokens(b.source)[1]);
    if let SourceView::Git { url, rev } = a.source {
        assert(x[4] == source_tokens(a.source)[2]);
        assert(y[4] == source_tokens(b.source)[2]);
    }
}

/// The values of a set, in order.
pub open spec fn set_token(m: Map<PackageIdView, Set<Seq<char>>>, id: PackageIdView) -> TokenView {
    TokenView::Strings(
        if m.contains_key(id) {
            ascending_of(m[id])
        } else {
            Seq::empty()
        },
    )
}

/// The values of the sets of the first `n` packages.
pub open spec fn sets_tokens(
    m: Map<PackageIdView, Set<Seq<char>>>,
    ids: Seq<PackageIdView>,
    n: int,
) -> Seq<TokenView>
    decreases n,
{
    if n <= 0 {
        seq![TokenView::U64(ids.len() as u64)]
    } else {
        (sets_tokens(m, ids, n - 1) + id_tokens(ids[n - 1])).push(set_token(m, ids[n - 1]))
    }
}

/// The identities of packages with a set.
pub open spec fn set_ids(sets: PackageSets) -> Seq<PackageIdView> {
    sets.entries().map_values(|e: (PackageId, StrSet)| e.0@)
}

/// The values of a domain: its packages in the order of identities, each with its
/// set.
pub open spec fn domain_tokens(sets: PackageSets) -> Seq<TokenView> {
    let ids = sorted_ids(set_ids(sets));
    sets_tokens(sets@, ids, ids.len() as int)
}

fn push_domain(out: &mut Vec<Token>, sets: &PackageSets)
    ensures
        tokens_view(final(out)@) == tokens_view(old(out)@) + domain_tokens(*sets),
{
    let ghost before = tokens_view(out@);
    let n = sets.len();
    let mut ids: Vec<PackageId> = Vec::new();
    let ghost all = set_ids(*sets);
    let mut i: usize = 0;
    assert(ids_view(ids@) =~= all.take(0));
    while i < n
        invariant
            i <= n,
            n == sets.entries().len(),
            all == set_ids(*sets),
            ids_view(ids@) == all.take(i as int),
        decreases n - i,
    {
        let ghost before_ids = ids@;
        let id = sets.entry(i).0.clone();
        assert(all[i as int] == id@);
        ids.push(id);
        assert(ids_view(ids@) =~= ids_view(before_ids).push(id@));
        i += 1;
        assert(ids_view(ids@) =~= all.take(i as int));
    }
    assert(all.take(n as int) =~= all);
    let sorted = sort_ids(&ids);
    let ghost v = ids_view(sorted@);
    push_token(out, Token::U64(sorted.len() as u64));
    let mut k: usize = 0;
    assert(tokens_view(out@) =~= before + sets_tokens(sets@, v, 0));
    while k < sorted.len()
        invariant
            k <= sorted@.len(),
            v == ids_view(sorted@),
            tokens_view(out@) == before + sets_tokens(sets@, v, k as int),
        decreases sorted@.len() - k,
    {
        assert(v[k as int] == sorted@[k as int]@);
        push_id(out, &sorted[k]);
        let list = match sets.get(&sorted[k]) {
            Some(set) => set.to_list(),
            None => {
                let none: Vec<String> = Vec::new();
                assert(texts(none@) =~= Seq::<Seq<char>>::empty());
                none
            },
        };
        push_token(out, Token::Strings(list));
        k += 1;
        assert(tokens_view(out@) =~= before + sets_tokens(sets@, v, k as int));
    }
}

/// The values of resolved features.
pub open spec fn feature_tokens(m: FeatureMap) -> Seq<TokenView> {
    domain_tokens(m.packages) + domain_tokens(m.active_optional_deps) + domain_tokens(
        m.build_features,
    ) + domain_tokens(m.active_build_optional_deps)
}

impl FeatureMap {
    /// Lists the values of the resolved features, domain by domain.
    pub fn encode(&self) -> (r: Vec<Token>)
        ensures
            tokens_view(r@) == feature_tokens(*self),
    {
        let mut out: Vec<Token> = Vec::new();
        push_domain(&mut out, &self.packages);
        push_domain(&mut out, &self.active_optional_deps);
        push_domain(&mut out, &self.build_features);
        push_domain(&mut out, &self.active_build_optional_deps);
        assert(tokens_view(out@) =~= feature_tokens(*self));
        out
    }
}

} // verus!
