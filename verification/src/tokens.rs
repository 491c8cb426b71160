//! Records as sequences of typed values.
//!
//! A record is written as a sequence of values, each of a kind that the
//! canonical encoding knows; how a value becomes bytes is the encoding's own
//! matter.

use vstd::prelude::*;
use crate::digest::Digest;
use crate::text::texts;

verus! {

/// A value of a record.
#[derive(Debug, PartialEq, Eq)]
pub enum Token {
    /// A number of 32 bits.
    U32(u32),
    /// A number of 64 bits.
    U64(u64),
    /// A signed number of 64 bits.
    I64(i64),
    /// A text.
    Str(String),
    /// A digest.
    Digest(Digest),
    /// A digest that there may be.
    Optional(Option<Digest>),
    /// A list of texts.
    Strings(Vec<String>),
    /// A list of digests.
    Digests(Vec<Digest>),
}

/// What a value is.
pub enum TokenView {
    U32(u32),
    U64(u64),
    I64(i64),
    Str(Seq<char>),
    Digest(Digest),
    Optional(Option<Digest>),
    Strings(Seq<Seq<char>>),
    Digests(Seq<Digest>),
}

/// The kind of a value.
#[derive(Clone, Copy, Debug, PartialEq, Eq, Structural)]
pub enum Kind {
    /// A number of 32 bits.
    U32,
    /// A number of 64 bits.
    U64,
    /// A signed number of 64 bits.
    I64,
    /// A text.
    Str,
    /// A digest.
    Digest,
    /// A digest that there may be.
    Optional,
    /// A list of texts.
    Strings,
    /// A list of digests.
    Digests,
}

/// The kind of a value.
pub open spec fn kind_of(t: TokenView) -> Kind {
    match t {
        TokenView::U32(_) => Kind::U32,
        TokenView::U64(_) => Kind::U64,
        TokenView::I64(_) => Kind::I64,
        TokenView::Str(_) => Kind::Str,
        TokenView::Digest(_) => Kind::Digest,
        TokenView::Optional(_) => Kind::Optional,
        TokenView::Strings(_) => Kind::Strings,
        TokenView::Digests(_) => Kind::Digests,
    }
}

impl View for Token {
    type V = TokenView;

    open spec fn view(&self) -> TokenView {
        match *self {
            Token::U32(n) => TokenView::U32(n),
            Token::U64(n) => TokenView::U64(n),
            Token::I64(n) => TokenView::I64(n),
            Token::Str(s) => TokenView::Str(s@),
            Token::Digest(d) => TokenView::Digest(d),
            Token::Optional(d) => TokenView::Optional(d),
            Token::Strings(v) => TokenView::Strings(texts(v@)),
            Token::Digests(v) => TokenView::Digests(v@),
        }
    }
}

/// What values are.
pub open spec fn tokens_view(v: Seq<Token>) -> Seq<TokenView> {
    v.map_values(|t: Token| t@)
}

/// Appends a value.
pub fn push_token(out: &mut Vec<Token>, t: Token)
    ensures
        tokens_view(final(out)@) == tokens_view(old(out)@).push(t@),
{
    let ghost before = out@;
    out.push(t);
    assert(tokens_view(out@) =~= tokens_view(before).push(t@));
}

/// A list of digests of its own.
pub fn copy_digests(v: &Vec<Digest>) -> (r: Vec<Digest>)
    ensures
        r@ == v@,
{
    let mut out: Vec<Digest> = Vec::new();
    let mut i: usize = 0;
    while i < v.len()
        invariant
            i <= v@.len(),
            out@ == v@.take(i as int),
        decreases v@.len() - i,
    {
        out.push(v[i]);
        i += 1;
        assert(out@ =~= v@.take(i as int));
    }
    assert(out@ =~= v@);
    out
}

/// Why a record cannot be read.
#[derive(Clone, Copy, Debug, PartialEq, Eq, Structural)]
pub enum ReadError {
    /// It is of another schema version.
    InvalidTag(u32),
    /// Its values are not those of the record.
    Malformed,
}

} // verus!
