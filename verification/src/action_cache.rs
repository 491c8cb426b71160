//! The local action cache.
//!
//! Maps an action's semantic digest to its recorded result. Only successful,
//! fully validated results are ever committed; failed and partial results are
//! discarded. Cached results are immutable and keyed purely by digest.

use vstd::prelude::*;
use vstd::string::*;
use crate::cas::{sharded, sharded_path};
use crate::digest::Digest;
use crate::paths::{joined, path_join};
use crate::text::owned;
use crate::tokens::{push_token, tokens_view, Token, TokenView};

verus! {

/// A recorded successful action result.
#[derive(Clone, Copy, Debug, PartialEq, Eq, Structural)]
pub struct CachedResult {
    /// Tree of the action's captured output directory.
    pub outputs: Digest,
    /// Captured stdout.
    pub stdout: Digest,
    /// Captured stderr.
    pub stderr: Digest,
    /// Wall-clock execution time, informational only.
    pub duration_millis: u64,
}

/// The values of a cached result.
pub open spec fn result_tokens(c: CachedResult) -> Seq<TokenView> {
    seq![
        TokenView::Digest(c.outputs),
        TokenView::Digest(c.stdout),
        TokenView::Digest(c.stderr),
        TokenView::U64(c.duration_millis),
    ]
}

/// The cached result that values stand for.
pub open spec fn result_of(t: Seq<TokenView>) -> Option<CachedResult> {
    if t.len() != 4 {
        None
    } else {
        match (t[0], t[1], t[2], t[3]) {
            (
                TokenView::Digest(outputs),
                TokenView::Digest(stdout),
                TokenView::Digest(stderr),
                TokenView::U64(duration_millis),
            ) => Some(CachedResult { outputs, stdout, stderr, duration_millis }),
            _ => None,
        }
    }
}

/// What is read back of a written result is the result.
pub proof fn results_round_trip(c: CachedResult)
    ensures
        result_of(result_tokens(c)) == Some(c),
{
}

impl CachedResult {
    /// Lists the values of the result.
    pub fn encode(&self) -> (r: Vec<Token>)
        ensures
            tokens_view(r@) == result_tokens(*self),
    {
        let mut out: Vec<Token> = Vec::new();
        push_token(&mut out, Token::Digest(self.outputs));
        push_token(&mut out, Token::Digest(self.stdout));
        push_token(&mut out, Token::Digest(self.stderr));
        push_token(&mut out, Token::U64(self.duration_millis));
        assert(tokens_view(out@) =~= result_tokens(*self));
        out
    }

    /// Reads a result from its values.
    pub fn decode(t: &Vec<Token>) -> (r: Option<CachedResult>)
        ensures
            r == result_of(tokens_view(t@)),
    {
        let ghost v = tokens_view(t@);
        if t.len() != 4 {
            return None;
        }
        proof {
            assert(v[0] == t@[0]@);
            assert(v[1] == t@[1]@);
            assert(v[2] == t@[2]@);
            assert(v[3] == t@[3]@);
        }
        match (&t[0], &t[1], &t[2], &t[3]) {
            (
                Token::Digest(outputs),
                Token::Digest(stdout),
                Token::Digest(stderr),
                Token::U64(duration_millis),
            ) => Some(
                CachedResult {
                    outputs: *outputs,
                    stdout: *stdout,
                    stderr: *stderr,
                    duration_millis: *duration_millis,
                },
            ),
            _ => None,
        }
    }
}

/// Digest-keyed action result cache (`<store>/results/`).
#[derive(Clone, Debug)]
pub struct ActionCache {
    root: String,
}

impl ActionCache {
    /// The directory of the cache.
    pub closed spec fn view(self) -> Seq<char> {
        self.root@
    }

    /// The cache inside a store root.
    pub fn open(store_root: &str) -> (r: ActionCache)
        ensures
            r@ == joined(store_root@, "results"@),
    {
        ActionCache { root: path_join(store_root, "results") }
    }

    /// The directory of the cache.
    pub fn root(&self) -> (r: String)
        ensures
            r@ == self@,
    {
        owned(&self.root)
    }

    /// The file that holds an action's result.
    pub fn path(&self, action: &Digest) -> (r: String)
        ensures
            r@ == sharded(self@, *action),
    {
        sharded_path(&self.root, action)
    }
}

} // verus!
