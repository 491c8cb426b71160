//! Build-state manifests: the GC root set and the "last successful graph".
//!
//! Every successful build records a [`BuildManifest`]: the full object closure
//! of the build. An object that no manifest references is garbage.
//!
//! Layout: `<store>/state/projects/<project_hash_hex>/<ts>-<graph>.state`. The
//! `ts` prefix makes file names sort chronologically, so keeping the newest
//! files per project is a directory scan.

use vstd::prelude::*;
use vstd::seq_lib::seq_to_set_is_finite;
use vstd::string::*;
use crate::digest::{digest_hex, Digest, DigestSet};
use crate::paths::{joined, path_join};
use crate::strmap::{
    ascending, ascending_of, lemma_ascending_distinct, lemma_ascending_of,
    lemma_ascending_unique, lt, StrMap, StrSet,
};
use crate::text::{
    cat4, copy_texts, digit, ends, ends_with, opt_view, owned, push_text, same, texts,
};
use crate::tokens::{
    copy_digests, kind_of, push_token, tokens_view, Kind, ReadError, Token, TokenView,
};

verus! {

/// Schema version of the build-manifest encoding.
pub const BUILD_MANIFEST_SCHEMA_VERSION: u32 = 1;

/// Manifests kept per project; older ones are superseded state and are deleted
/// at write time.
pub const MANIFESTS_KEPT_PER_PROJECT: usize = 3;

/// One recorded action of a build.
#[derive(Debug, PartialEq, Eq)]
pub struct RecordedAction {
    /// The action's semantic digest: the `results/` cache key.
    pub action_digest: Digest,
    /// Graph identity (diagnostics only).
    pub logical_id: String,
    /// Diagnostic mnemonic.
    pub mnemonic: String,
    /// Input root; re-execution needs these inputs.
    pub input_root: Digest,
    /// Executable blob digest, when the executable is a store blob.
    pub executable: Option<Digest>,
    /// Environment-bundle digest, when one was attached.
    pub env_bundle: Option<Digest>,
    /// Captured output tree.
    pub outputs: Digest,
    /// Captured stdout.
    pub stdout: Digest,
    /// Captured stderr.
    pub stderr: Digest,
    /// Wall-clock execution time, informational.
    pub duration_millis: u64,
}

/// What a recorded action is.
pub struct RecordedView {
    pub action_digest: Digest,
    pub logical_id: Seq<char>,
    pub mnemonic: Seq<char>,
    pub input_root: Digest,
    pub executable: Option<Digest>,
    pub env_bundle: Option<Digest>,
    pub outputs: Digest,
    pub stdout: Digest,
    pub stderr: Digest,
    pub duration_millis: u64,
}

impl View for RecordedAction {
    type V = RecordedView;

    open spec fn view(&self) -> RecordedView {
        RecordedView {
            action_digest: self.action_digest,
            logical_id: self.logical_id@,
            mnemonic: self.mnemonic@,
            input_root: self.input_root,
            executable: self.executable,
            env_bundle: self.env_bundle,
            outputs: self.outputs,
            stdout: self.stdout,
            stderr: self.stderr,
            duration_millis: self.duration_millis,
        }
    }
}

/// The recorded object closure of one successful build.
#[derive(Debug, PartialEq, Eq)]
pub struct BuildManifest {
    /// Encoding schema version.
    pub schema_version: u32,
    /// Identifies the project in shared stores.
    pub project_hash: Digest,
    /// Wall-clock creation time (unix seconds), informational.
    pub created_at_unix_secs: u64,
    /// Digest of the canonical sorted `(logical_id, action_digest)` pairs.
    pub graph_digest: Digest,
    /// Build profiles used (usually one).
    pub profiles: Vec<String>,
    /// Union of all planned action input-root digests.
    pub sources: Vec<Digest>,
    /// Union of environment-bundle digests.
    pub toolchains: Vec<Digest>,
    /// Every action of the build, in execution order.
    pub actions: Vec<RecordedAction>,
    /// Materialized final artifacts: artifact name and outputs tree.
    pub artifacts: Vec<(String, Digest)>,
}

/// What a build manifest is.
pub struct ManifestView {
    pub schema_version: u32,
    pub project_hash: Digest,
    pub created_at_unix_secs: u64,
    pub graph_digest: Digest,
    pub profiles: Seq<Seq<char>>,
    pub sources: Seq<Digest>,
    pub toolchains: Seq<Digest>,
    pub actions: Seq<RecordedView>,
    pub artifacts: Seq<(Seq<char>, Digest)>,
}

/// What recorded actions are.
pub open spec fn actions_view(v: Seq<RecordedAction>) -> Seq<RecordedView> {
    v.map_values(|a: RecordedAction| a@)
}

/// What artifacts are.
pub open spec fn artifacts_view(v: Seq<(String, Digest)>) -> Seq<(Seq<char>, Digest)> {
    v.map_values(|a: (String, Digest)| (a.0@, a.1))
}

impl View for BuildManifest {
    type V = ManifestView;

    open spec fn view(&self) -> ManifestView {
        ManifestView {
            schema_version: self.schema_version,
            project_hash: self.project_hash,
            created_at_unix_secs: self.created_at_unix_secs,
            graph_digest: self.graph_digest,
            profiles: texts(self.profiles@),
            sources: self.sources@,
            toolchains: self.toolchains@,
            actions: actions_view(self.actions@),
            artifacts: artifacts_view(self.artifacts@),
        }
    }
}

// ---- Records -----------------------------------------------------------------------------

/// The values of a recorded action.
pub open spec fn action_tokens(a: RecordedView) -> Seq<TokenView> {
    seq![
        TokenView::Digest(a.action_digest),
        TokenView::Str(a.logical_id),
        TokenView::Str(a.mnemonic),
        TokenView::Digest(a.input_root),
        TokenView::Optional(a.executable),
        TokenView::Optional(a.env_bundle),
        TokenView::Digest(a.outputs),
        TokenView::Digest(a.stdout),
        TokenView::Digest(a.stderr),
        TokenView::U64(a.duration_millis),
    ]
}

/// The values of the first `n` actions.
pub open spec fn actions_tokens(v: Seq<RecordedView>, n: int) -> Seq<TokenView>
    decreases n,
{
    if n <= 0 {
        Seq::empty()
    } else {
        actions_tokens(v, n - 1) + action_tokens(v[n - 1])
    }
}

/// The values of the first `n` artifacts.
pub open spec fn artifacts_tokens(v: Seq<(Seq<char>, Digest)>, n: int) -> Seq<TokenView>
    decreases n,
{
    if n <= 0 {
        Seq::empty()
    } else {
        artifacts_tokens(v, n - 1).push(TokenView::Str(v[n - 1].0)).push(
            TokenView::Digest(v[n - 1].1),
        )
    }
}

/// The values of a manifest before its actions.
pub open spec fn header_tokens(m: ManifestView) -> Seq<TokenView> {
    seq![
        TokenView::U32(m.schema_version),
        TokenView::Digest(m.project_hash),
        TokenView::U64(m.created_at_unix_secs),
        TokenView::Digest(m.graph_digest),
        TokenView::Strings(m.profiles),
        TokenView::Digests(m.sources),
        TokenView::Digests(m.toolchains),
        TokenView::U64(m.actions.len() as u64),
    ]
}

/// The values of a manifest.
pub open spec fn manifest_tokens(m: ManifestView) -> Seq<TokenView> {
    header_tokens(m) + actions_tokens(m.actions, m.actions.len() as int) + seq![
        TokenView::U64(m.artifacts.len() as u64),
    ] + artifacts_tokens(m.artifacts, m.artifacts.len() as int)
}

fn push_action(out: &mut Vec<Token>, a: &RecordedAction)
    ensures
        tokens_view(final(out)@) == tokens_view(old(out)@) + action_tokens(a@),
{
    let ghost before = tokens_view(out@);
    push_token(out, Token::Digest(a.action_digest));
    push_token(out, Token::Str(a.logical_id.clone()));
    push_token(out, Token::Str(a.mnemonic.clone()));
    push_token(out, Token::Digest(a.input_root));
    push_token(out, Token::Optional(a.executable));
    push_token(out, Token::Optional(a.env_bundle));
    push_token(out, Token::Digest(a.outputs));
    push_token(out, Token::Digest(a.stdout));
    push_token(out, Token::Digest(a.stderr));
    push_token(out, Token::U64(a.duration_millis));
    assert(tokens_view(out@) =~= before + action_tokens(a@));
}

impl RecordedAction {
    /// Lists the values of a recorded action.
    pub fn encode(&self) -> (r: Vec<Token>)
        ensures
            tokens_view(r@) == action_tokens(self@),
    {
        let mut out: Vec<Token> = Vec::new();
        push_action(&mut out, self);
        assert(tokens_view(out@) =~= action_tokens(self@));
        out
    }
}

impl BuildManifest {
    /// Lists the values of a manifest.
    pub fn encode(&self) -> (r: Vec<Token>)
        ensures
            tokens_view(r@) == manifest_tokens(self@),
    {
        let mut out: Vec<Token> = Vec::new();
        push_token(&mut out, Token::U32(self.schema_version));
        push_token(&mut out, Token::Digest(self.project_hash));
        push_token(&mut out, Token::U64(self.created_at_unix_secs));
        push_token(&mut out, Token::Digest(self.graph_digest));
        push_token(&mut out, Token::Strings(copy_texts(&self.profiles)));
        push_token(&mut out, Token::Digests(copy_digests(&self.sources)));
        push_token(&mut out, Token::Digests(copy_digests(&self.toolchains)));
        push_token(&mut out, Token::U64(self.actions.len() as u64));
        let ghost header = header_tokens(self@);
        let ghost actions = actions_view(self.actions@);
        assert(tokens_view(out@) =~= header);
        let mut i: usize = 0;
        assert(header =~= header + actions_tokens(actions, 0));
        while i < self.actions.len()
            invariant
                i <= self.actions@.len(),
                actions == actions_view(self.actions@),
                tokens_view(out@) == header + actions_tokens(actions, i as int),
            decreases self.actions@.len() - i,
        {
            assert(actions[i as int] == self.actions@[i as int]@);
            push_action(&mut out, &self.actions[i]);
            i += 1;
            assert(tokens_view(out@) =~= header + actions_tokens(actions, i as int));
        }
        push_token(&mut out, Token::U64(self.artifacts.len() as u64));
        let ghost start = tokens_view(out@);
        let ghost artifacts = artifacts_view(self.artifacts@);
        let mut k: usize = 0;
        assert(start =~= start + artifacts_tokens(artifacts, 0));
        while k < self.artifacts.len()
            invariant
                k <= self.artifacts@.len(),
                artifacts == artifacts_view(self.artifacts@),
                tokens_view(out@) == start + artifacts_tokens(artifacts, k as int),
            decreases self.artifacts@.len() - k,
        {
            assert(artifacts[k as int] == (self.artifacts@[k as int].0@, self.artifacts@[k as int].1));
            push_token(&mut out, Token::Str(self.artifacts[k].0.clone()));
            push_token(&mut out, Token::Digest(self.artifacts[k].1));
            k += 1;
            assert(tokens_view(out@) =~= start + artifacts_tokens(artifacts, k as int));
        }
        assert(tokens_view(out@) =~= manifest_tokens(self@));
        out
    }
}

/// The recorded action whose values stand at a position.
pub open spec fn action_at(t: Seq<TokenView>, at: int) -> Option<RecordedView> {
    if at < 0 || at + 10 > t.len() {
        None
    } else {
        match (
            (t[at], t[at + 1], t[at + 2], t[at + 3], t[at + 4]),
            (t[at + 5], t[at + 6], t[at + 7], t[at + 8], t[at + 9]),
        ) {
            (
                (
                    TokenView::Digest(action_digest),
                    TokenView::Str(logical_id),
                    TokenView::Str(mnemonic),
                    TokenView::Digest(input_root),
                    TokenView::Optional(executable),
                ),
                (
                    TokenView::Optional(env_bundle),
                    TokenView::Digest(outputs),
                    TokenView::Digest(stdout),
                    TokenView::Digest(stderr),
                    TokenView::U64(duration_millis),
                ),
            ) => Some(
                RecordedView {
                    action_digest,
                    logical_id,
                    mnemonic,
                    input_root,
                    executable,
                    env_bundle,
                    outputs,
                    stdout,
                    stderr,
                    duration_millis,
                },
            ),
            _ => None,
        }
    }
}

/// What an optional recorded action is.
pub open spec fn recorded_view(a: Option<RecordedAction>) -> Option<RecordedView> {
    match a {
        Some(r) => Some(r@),
        None => None,
    }
}

fn read_action(t: &Vec<Token>, at: usize) -> (r: Option<RecordedAction>)
    ensures
        recorded_view(r) == action_at(tokens_view(t@), at as int),
{
    let ghost v = tokens_view(t@);
    if t.len() < 10 || at > t.len() - 10 {
        return None;
    }
    proof {
        assert(v[at as int] == t@[at as int]@);
        assert(v[at + 1] == t@[at + 1]@);
        assert(v[at + 2] == t@[at + 2]@);
        assert(v[at + 3] == t@[at + 3]@);
        assert(v[at + 4] == t@[at + 4]@);
        assert(v[at + 5] == t@[at + 5]@);
        assert(v[at + 6] == t@[at + 6]@);
        assert(v[at + 7] == t@[at + 7]@);
        assert(v[at + 8] == t@[at + 8]@);
        assert(v[at + 9] == t@[at + 9]@);
    }
    let first = match (&t[at], &t[at + 1], &t[at + 2], &t[at + 3], &t[at + 4]) {
        (
            Token::Digest(action_digest),
            Token::Str(logical_id),
            Token::Str(mnemonic),
            Token::Digest(input_root),
            Token::Optional(executable),
        ) => (*action_digest, logical_id.clone(), mnemonic.clone(), *input_root, *executable),
        _ => return None,
    };
    match (&t[at + 5], &t[at + 6], &t[at + 7], &t[at + 8], &t[at + 9]) {
        (
            Token::Optional(env_bundle),
            Token::Digest(outputs),
            Token::Digest(stdout),
            Token::Digest(stderr),
            Token::U64(duration_millis),
        ) => Some(
            RecordedAction {
                action_digest: first.0,
                logical_id: first.1,
                mnemonic: first.2,
                input_root: first.3,
                executable: first.4,
                env_bundle: *env_bundle,
                outputs: *outputs,
                stdout: *stdout,
                stderr: *stderr,
                duration_millis: *duration_millis,
            },
        ),
        _ => None,
    }
}

impl RecordedAction {
    /// Reads a recorded action from its values.
    pub fn decode(t: &Vec<Token>) -> (r: Option<RecordedAction>)
        ensures
            recorded_view(r) == (if t@.len() == 10 {
                action_at(tokens_view(t@), 0)
            } else {
                None
            }),
    {
        if t.len() != 10 {
            return None;
        }
        read_action(t, 0)
    }
}

/// The first `n` actions whose values stand from a position on.
pub open spec fn actions_at(t: Seq<TokenView>, at: int, n: int) -> Option<Seq<RecordedView>>
    decreases n,
{
    if n <= 0 {
        Some(Seq::empty())
    } else {
        match (actions_at(t, at, n - 1), action_at(t, at + 10 * (n - 1))) {
            (Some(before), Some(a)) => Some(before.push(a)),
            _ => None,
        }
    }
}

/// The first `n` artifacts whose values stand from a position on.
pub open spec fn artifacts_at(t: Seq<TokenView>, at: int, n: int) -> Option<
    Seq<(Seq<char>, Digest)>,
>
    decreases n,
{
    if n <= 0 {
        Some(Seq::empty())
    } else {
        let k = at + 2 * (n - 1);
        match artifacts_at(t, at, n - 1) {
            Some(before) => if k + 2 <= t.len() {
                match (t[k], t[k + 1]) {
                    (TokenView::Str(name), TokenView::Digest(tree)) => Some(
                        before.push((name, tree)),
                    ),
                    _ => None,
                }
            } else {
                None
            },
            None => None,
        }
    }
}

/// The manifest that values stand for.
pub open spec fn manifest_of(t: Seq<TokenView>) -> Result<ManifestView, ReadError> {
    if t.len() == 0 {
        Err(ReadError::Malformed)
    } else {
        match t[0] {
            TokenView::U32(version) => if version != BUILD_MANIFEST_SCHEMA_VERSION {
                Err(ReadError::InvalidTag(version))
            } else if t.len() < 8 {
                Err(ReadError::Malformed)
            } else {
                match (t[1], t[2], t[3], t[4], t[5], t[6], t[7]) {
                    (
                        TokenView::Digest(project_hash),
                        TokenView::U64(created_at_unix_secs),
                        TokenView::Digest(graph_digest),
                        TokenView::Strings(profiles),
                        TokenView::Digests(sources),
                        TokenView::Digests(toolchains),
                        TokenView::U64(count),
                    ) => {
                        let at = 8 + 10 * count;
                        if at >= t.len() {
                            Err(ReadError::Malformed)
                        } else {
                            match (actions_at(t, 8, count as int), t[at]) {
                                (Some(actions), TokenView::U64(n)) => match artifacts_at(
                                    t,
                                    at + 1,
                                    n as int,
                                ) {
                                    Some(artifacts) => if t.len() == at + 1 + 2 * n {
                                        Ok(
                                            ManifestView {
                                                schema_version: version,
                                                project_hash,
                                                created_at_unix_secs,
                                                graph_digest,
                                                profiles,
                                                sources,
                                                toolchains,
                                                actions,
                                                artifacts,
                                            },
                                        )
                                    } else {
                                        Err(ReadError::Malformed)
                                    },
                                    None => Err(ReadError::Malformed),
                                },
                                _ => Err(ReadError::Malformed),
                            }
                        }
                    },
                    _ => Err(ReadError::Malformed),
                }
            },
            _ => Err(ReadError::Malformed),
        }
    }
}

proof fn lemma_actions_fail(t: Seq<TokenView>, at: int, a: int, b: int)
    requires
        0 <= a <= b,
        actions_at(t, at, a) is None,
    ensures
        actions_at(t, at, b) is None,
    decreases b,
{
    if a < b {
        lemma_actions_fail(t, at, a, b - 1);
    }
}

proof fn lemma_artifacts_fail(t: Seq<TokenView>, at: int, a: int, b: int)
    requires
        0 <= a <= b,
        artifacts_at(t, at, a) is None,
    ensures
        artifacts_at(t, at, b) is None,
    decreases b,
{
    if a < b {
        lemma_artifacts_fail(t, at, a, b - 1);
    }
}

/// What a manifest or an error is.
pub open spec fn manifest_result(r: Result<BuildManifest, ReadError>) -> Result<
    ManifestView,
    ReadError,
> {
    match r {
        Ok(m) => Ok(m@),
        Err(e) => Err(e),
    }
}

impl BuildManifest {
    /// Reads a manifest from its values.
    pub fn decode(t: &Vec<Token>) -> (r: Result<BuildManifest, ReadError>)
        ensures
            manifest_result(r) == manifest_of(tokens_view(t@)),
    {
        let ghost v = tokens_view(t@);
        if t.len() == 0 {
            return Err(ReadError::Malformed);
        }
        assert(v[0] == t@[0]@);
        match &t[0] {
            Token::U32(version) => {
                if *version != BUILD_MANIFEST_SCHEMA_VERSION {
                    return Err(ReadError::InvalidTag(*version));
                }
            },
            _ => return Err(ReadError::Malformed),
        }
        if t.len() < 8 {
            return Err(ReadError::Malformed);
        }
        proof {
            assert(v[1] == t@[1]@);
            assert(v[2] == t@[2]@);
            assert(v[3] == t@[3]@);
            assert(v[4] == t@[4]@);
            assert(v[5] == t@[5]@);
            assert(v[6] == t@[6]@);
            assert(v[7] == t@[7]@);
        }
        match (&t[1], &t[2], &t[3], &t[4], &t[5], &t[6], &t[7]) {
            (
                Token::Digest(project_hash),
                Token::U64(created_at_unix_secs),
                Token::Digest(graph_digest),
                Token::Strings(profiles),
                Token::Digests(sources),
                Token::Digests(toolchains),
                Token::U64(count),
            ) => {
                let left: u64 = (t.len() - 8) as u64;
                if *count > left / 10 || *count * 10 >= left {
                    return Err(ReadError::Malformed);
                }
                let n: usize = *count as usize;
                let at: usize = 8 + 10 * n;
                let mut actions: Vec<RecordedAction> = Vec::new();
                let mut i: usize = 0;
                assert(actions_view(actions@) =~= Seq::<RecordedView>::empty());
                while i < n
                    invariant
                        i <= n,
                        n == *count,
                        8 + 10 * n < t.len(),
                        v == tokens_view(t@),
                        v.len() == t@.len(),
                        v.len() >= 8,
                        v[0] == TokenView::U32(BUILD_MANIFEST_SCHEMA_VERSION),
                        v[1] == TokenView::Digest(*project_hash),
                        v[2] == TokenView::U64(*created_at_unix_secs),
                        v[3] == TokenView::Digest(*graph_digest),
                        v[4] == TokenView::Strings(texts(profiles@)),
                        v[5] == TokenView::Digests(sources@),
                        v[6] == TokenView::Digests(toolchains@),
                        v[7] == TokenView::U64(*count),
                        actions_at(v, 8, i as int) == Some(actions_view(actions@)),
                    decreases n - i,
                {
                    match read_action(t, 8 + 10 * i) {
                        Some(a) => {
                            let ghost before = actions@;
                            actions.push(a);
                            assert(actions_view(actions@) =~= actions_view(before).push(a@));
                        },
                        None => {
                            proof {
                                lemma_actions_fail(v, 8, i as int + 1, n as int);
                            }
                            return Err(ReadError::Malformed);
                        },
                    }
                    i += 1;
                }
                assert(v[at as int] == t@[at as int]@);
                let m: u64 = match &t[at] {
                    Token::U64(m) => *m,
                    _ => return Err(ReadError::Malformed),
                };
                let rest: u64 = (t.len() - at - 1) as u64;
                let mut artifacts: Vec<(String, Digest)> = Vec::new();
                let mut k: u64 = 0;
                assert(artifacts_view(artifacts@) =~= Seq::<(Seq<char>, Digest)>::empty());
                while k < m
                    invariant
                        k <= m,
                        n == *count,
                        at == 8 + 10 * n,
                        at < t.len(),
                        rest == t@.len() - at - 1,
                        2 * k <= rest,
                        v == tokens_view(t@),
                        v.len() == t@.len(),
                        v.len() >= 8,
                        v[0] == TokenView::U32(BUILD_MANIFEST_SCHEMA_VERSION),
                        v[1] == TokenView::Digest(*project_hash),
                        v[2] == TokenView::U64(*created_at_unix_secs),
                        v[3] == TokenView::Digest(*graph_digest),
                        v[4] == TokenView::Strings(texts(profiles@)),
                        v[5] == TokenView::Digests(sources@),
                        v[6] == TokenView::Digests(toolchains@),
                        v[7] == TokenView::U64(*count),
                        v[at as int] == TokenView::U64(m),
                        actions_at(v, 8, n as int) == Some(actions_view(actions@)),
                        artifacts_at(v, at + 1, k as int) == Some(artifacts_view(artifacts@)),
                    decreases m - k,
                {
                    if rest - 2 * k < 2 {
                        proof {
                            assert(artifacts_at(v, at + 1, k as int + 1) is None);
                            lemma_artifacts_fail(v, at + 1, k as int + 1, m as int);
                        }
                        return Err(ReadError::Malformed);
                    }
                    let x: usize = at + 1 + 2 * (k as usize);
                    proof {
                        assert(v[x as int] == t@[x as int]@);
                        assert(v[x + 1] == t@[x + 1]@);
                    }
                    match (&t[x], &t[x + 1]) {
                        (Token::Str(name), Token::Digest(tree)) => {
                            let ghost before = artifacts@;
                            artifacts.push((name.clone(), *tree));
                            assert(artifacts_view(artifacts@) =~= artifacts_view(before).push(
                                (name@, *tree),
                            ));
                        },
                        _ => {
                            proof {
                                lemma_artifacts_fail(v, at + 1, k as int + 1, m as int);
                            }
                            return Err(ReadError::Malformed);
                        },
                    }
                    k += 1;
                }
                if rest != 2 * m {
                    return Err(ReadError::Malformed);
                }
                Ok(
                    BuildManifest {
                        schema_version: BUILD_MANIFEST_SCHEMA_VERSION,
                        project_hash: *project_hash,
                        created_at_unix_secs: *created_at_unix_secs,
                        graph_digest: *graph_digest,
                        profiles: copy_texts(profiles),
                        sources: copy_digests(sources),
                        toolchains: copy_digests(toolchains),
                        actions,
                        artifacts,
                    },
                )
            },
            _ => Err(ReadError::Malformed),
        }
    }
}

proof fn lemma_actions_len(v: Seq<RecordedView>, n: int)
    requires
        0 <= n <= v.len(),
    ensures
        actions_tokens(v, n).len() == 10 * n,
    decreases n,
{
    if n > 0 {
        lemma_actions_len(v, n - 1);
    }
}

proof fn lemma_artifacts_len(v: Seq<(Seq<char>, Digest)>, n: int)
    requires
        0 <= n <= v.len(),
    ensures
        artifacts_tokens(v, n).len() == 2 * n,
    decreases n,
{
    if n > 0 {
        lemma_artifacts_len(v, n - 1);
    }
}

proof fn lemma_actions_back(v: Seq<RecordedView>, n: int, t: Seq<TokenView>, at: int)
    requires
        0 <= n <= v.len(),
        0 <= at,
        at + 10 * n <= t.len(),
        forall|k: int|
            0 <= k < 10 * n ==> t[at + k] == #[trigger] actions_tokens(v, n)[k],
    ensures
        actions_at(t, at, n) == Some(v.take(n)),
    decreases n,
{
    if n > 0 {
        let before = actions_tokens(v, n - 1);
        lemma_actions_len(v, n - 1);
        assert forall|k: int| 0 <= k < 10 * (n - 1) implies t[at + k] == #[trigger] before[k] by {
            assert(actions_tokens(v, n)[k] == before[k]);
        }
        lemma_actions_back(v, n - 1, t, at);
        let a = v[n - 1];
        let p = at + 10 * (n - 1);
        assert forall|j: int| 0 <= j < 10 implies t[p + j] == #[trigger] action_tokens(a)[j] by {
            assert(actions_tokens(v, n)[10 * (n - 1) + j] == action_tokens(a)[j]);
        }
        assert(t[p] == action_tokens(a)[0]);
        assert(t[p + 1] == action_tokens(a)[1]);
        assert(t[p + 2] == action_tokens(a)[2]);
        assert(t[p + 3] == action_tokens(a)[3]);
        assert(t[p + 4] == action_tokens(a)[4]);
        assert(t[p + 5] == action_tokens(a)[5]);
        assert(t[p + 6] == action_tokens(a)[6]);
        assert(t[p + 7] == action_tokens(a)[7]);
        assert(t[p + 8] == action_tokens(a)[8]);
        assert(t[p + 9] == action_tokens(a)[9]);
        assert(action_at(t, p) == Some(a));
        assert(v.take(n) =~= v.take(n - 1).push(a));
    } else {
        assert(v.take(0) =~= Seq::<RecordedView>::empty());
    }
}

proof fn lemma_artifacts_back(v: Seq<(Seq<char>, Digest)>, n: int, t: Seq<TokenView>, at: int)
    requires
        0 <= n <= v.len(),
        0 <= at,
        at + 2 * n <= t.len(),
        forall|k: int| 0 <= k < 2 * n ==> t[at + k] == #[trigger] artifacts_tokens(v, n)[k],
    ensures
        artifacts_at(t, at, n) == Some(v.take(n)),
    decreases n,
{
    if n > 0 {
        let before = artifacts_tokens(v, n - 1);
        lemma_artifacts_len(v, n - 1);
        assert forall|k: int| 0 <= k < 2 * (n - 1) implies t[at + k] == #[trigger] before[k] by {
            assert(artifacts_tokens(v, n)[k] == before[k]);
        }
        lemma_artifacts_back(v, n - 1, t, at);
        let p = at + 2 * (n - 1);
        assert(t[p] == artifacts_tokens(v, n)[2 * (n - 1)]);
        assert(t[p + 1] == artifacts_tokens(v, n)[2 * (n - 1) + 1]);
        assert(v.take(n) =~= v.take(n - 1).push(v[n - 1]));
    } else {
        assert(v.take(0) =~= Seq::<(Seq<char>, Digest)>::empty());
    }
}

/// What is read back of a written recorded action is the action.
pub proof fn actions_round_trip(a: RecordedView)
    ensures
        action_tokens(a).len() == 10,
        action_at(action_tokens(a), 0) == Some(a),
{
}

/// What is read back of a written manifest is the manifest.
pub proof fn manifests_round_trip(m: ManifestView)
    requires
        m.schema_version == BUILD_MANIFEST_SCHEMA_VERSION,
        m.actions.len() <= u64::MAX,
        m.artifacts.len() <= u64::MAX,
    ensures
        manifest_of(manifest_tokens(m)) == Ok::<ManifestView, ReadError>(m),
{
    let t = manifest_tokens(m);
    let h = header_tokens(m);
    let n = m.actions.len() as int;
    let k = m.artifacts.len() as int;
    lemma_actions_len(m.actions, n);
    lemma_artifacts_len(m.artifacts, k);
    assert(t[0] == h[0]);
    assert(t[1] == h[1]);
    assert(t[2] == h[2]);
    assert(t[3] == h[3]);
    assert(t[4] == h[4]);
    assert(t[5] == h[5]);
    assert(t[6] == h[6]);
    assert(t[7] == h[7]);
    assert forall|x: int| 0 <= x < 10 * n implies t[8 + x] == #[trigger] actions_tokens(
        m.actions,
        n,
    )[x] by {}
    lemma_actions_back(m.actions, n, t, 8);
    let at = 8 + 10 * n;
    assert(t[at] == TokenView::U64(m.artifacts.len() as u64));
    assert forall|x: int| 0 <= x < 2 * k implies t[at + 1 + x] == #[trigger] artifacts_tokens(
        m.artifacts,
        k,
    )[x] by {}
    lemma_artifacts_back(m.artifacts, k, t, at + 1);
    assert(m.actions.take(n) =~= m.actions);
    assert(m.artifacts.take(k) =~= m.artifacts);
}

/// A manifest of another schema version is rejected, and the version named.
pub proof fn other_schemas_are_rejected(m: ManifestView)
    requires
        m.schema_version != BUILD_MANIFEST_SCHEMA_VERSION,
    ensures
        manifest_of(manifest_tokens(m)) == Err::<ManifestView, ReadError>(
            ReadError::InvalidTag(m.schema_version),
        ),
{
    assert(manifest_tokens(m)[0] == header_tokens(m)[0]);
}

/// The kinds of the values of a recorded action.
pub open spec fn action_kinds() -> Seq<Kind> {
    seq![
        Kind::Digest,
        Kind::Str,
        Kind::Str,
        Kind::Digest,
        Kind::Optional,
        Kind::Optional,
        Kind::Digest,
        Kind::Digest,
        Kind::Digest,
        Kind::U64,
    ]
}

/// The kinds of a manifest's values before its actions.
pub open spec fn header_kinds() -> Seq<Kind> {
    seq![
        Kind::U32,
        Kind::Digest,
        Kind::U64,
        Kind::Digest,
        Kind::Strings,
        Kind::Digests,
        Kind::Digests,
        Kind::U64,
    ]
}

/// The kind of the value that follows some values of a manifest, where one does.
pub open spec fn kind_after(t: Seq<TokenView>) -> Option<Kind> {
    let n = t.len() as int;
    if n < 8 {
        Some(header_kinds()[n])
    } else {
        match t[7] {
            TokenView::U64(count) => {
                let at = 8 + 10 * count;
                if n < at {
                    Some(action_kinds()[(n - 8) % 10])
                } else if n == at {
                    Some(Kind::U64)
                } else {
                    match t[at] {
                        TokenView::U64(m) => if n >= at + 1 + 2 * m {
                            None
                        } else if (n - at - 1) % 2 == 0 {
                            Some(Kind::Str)
                        } else {
                            Some(Kind::Digest)
                        },
                        _ => None,
                    }
                }
            },
            _ => None,
        }
    }
}

/// Tells the kind of the value that follows some values of a manifest.
pub fn next_kind(t: &Vec<Token>) -> (r: Option<Kind>)
    ensures
        r == kind_after(tokens_view(t@)),
{
    let ghost v = tokens_view(t@);
    let n: usize = t.len();
    assert(v.len() == n);
    if n < 8 {
        return Some(
            match n {
                0 => Kind::U32,
                1 => Kind::Digest,
                2 => Kind::U64,
                3 => Kind::Digest,
                4 => Kind::Strings,
                5 => Kind::Digests,
                6 => Kind::Digests,
                _ => Kind::U64,
            },
        );
    }
    assert(v[7] == t@[7]@);
    let count: u64 = match &t[7] {
        Token::U64(count) => *count,
        _ => return None,
    };
    let read: u64 = (n - 8) as u64;
    if read / 10 < count {
        return Some(
            match read % 10 {
                0 => Kind::Digest,
                1 => Kind::Str,
                2 => Kind::Str,
                3 => Kind::Digest,
                4 => Kind::Optional,
                5 => Kind::Optional,
                6 => Kind::Digest,
                7 => Kind::Digest,
                8 => Kind::Digest,
                _ => Kind::U64,
            },
        );
    }
    let at: usize = 8 + 10 * (count as usize);
    if n == at {
        return Some(Kind::U64);
    }
    assert(v[at as int] == t@[at as int]@);
    match &t[at] {
        Token::U64(m) => {
            let rest: u64 = (n - at - 1) as u64;
            if rest / 2 >= *m {
                None
            } else if rest % 2 == 0 {
                Some(Kind::Str)
            } else {
                Some(Kind::Digest)
            }
        },
        _ => None,
    }
}

proof fn lemma_action_kinds(v: Seq<RecordedView>, n: int, k: int)
    requires
        0 <= k < 10 * n,
        n <= v.len(),
    ensures
        actions_tokens(v, n).len() == 10 * n,
        kind_of(actions_tokens(v, n)[k]) == action_kinds()[k % 10],
    decreases n,
{
    lemma_actions_len(v, n);
    lemma_actions_len(v, n - 1);
    if k < 10 * (n - 1) {
        lemma_action_kinds(v, n - 1, k);
    } else {
        let j = k - 10 * (n - 1);
        assert(k % 10 == j);
        assert(actions_tokens(v, n)[k] == action_tokens(v[n - 1])[j]);
    }
}

proof fn lemma_artifact_kinds(v: Seq<(Seq<char>, Digest)>, n: int, k: int)
    requires
        0 <= k < 2 * n,
        n <= v.len(),
    ensures
        artifacts_tokens(v, n).len() == 2 * n,
        kind_of(artifacts_tokens(v, n)[k]) == (if k % 2 == 0 {
            Kind::Str
        } else {
            Kind::Digest
        }),
    decreases n,
{
    lemma_artifacts_len(v, n);
    lemma_artifacts_len(v, n - 1);
    if k < 2 * (n - 1) {
        lemma_artifact_kinds(v, n - 1, k);
    }
}

/// Whoever reads a written manifest value by value asks for the kind of each one
/// in turn, and then for no more.
pub proof fn manifests_are_read_by_kind(m: ManifestView, n: int)
    requires
        m.actions.len() <= u64::MAX,
        m.artifacts.len() <= u64::MAX,
        0 <= n <= manifest_tokens(m).len(),
    ensures
        kind_after(manifest_tokens(m).take(n)) == (if n < manifest_tokens(m).len() {
            Some(kind_of(manifest_tokens(m)[n]))
        } else {
            None
        }),
{
    let t = manifest_tokens(m);
    let p = t.take(n);
    let h = header_tokens(m);
    let a = m.actions.len() as int;
    let b = m.artifacts.len() as int;
    lemma_actions_len(m.actions, a);
    lemma_artifacts_len(m.artifacts, b);
    let at = 8 + 10 * a;
    if n < 8 {
        assert(t[n] == h[n]);
    } else {
        assert(p[7] == h[7]);
        if n < at {
            lemma_action_kinds(m.actions, a, n - 8);
            assert(t[n] == actions_tokens(m.actions, a)[n - 8]);
        } else {
            assert(t[at] == TokenView::U64(b as u64));
            if n > at {
                assert(p[at] == t[at]);
                if n < t.len() {
                    lemma_artifact_kinds(m.artifacts, b, n - at - 1);
                    assert(t[n] == artifacts_tokens(m.artifacts, b)[n - at - 1]);
                }
            }
        }
    }
}

// ---- Names -------------------------------------------------------------------------------

/// A number as `width` decimal digits, its lowest ones.
pub open spec fn padded(n: nat, width: nat) -> Seq<char>
    decreases width,
{
    if width == 0 {
        Seq::empty()
    } else {
        padded(n / 10, (width - 1) as nat).push(digit(n % 10))
    }
}

fn padded_text(n: u64, width: usize) -> (r: String)
    ensures
        r@ == padded(n as nat, width as nat),
    decreases width,
{
    if width == 0 {
        let s = owned("");
        proof {
            reveal_strlit("");
            assert(s@ =~= padded(n as nat, 0));
        }
        return s;
    }
    let mut s = padded_text(n / 10, width - 1);
    s.push(digit_char((n % 10) as u8));
    s
}

fn digit_char(n: u8) -> (r: char)
    requires
        n < 10,
    ensures
        r == digit(n as nat),
{
    let c: u8 = 48 + n;
    c as char
}

/// The file name of a manifest.
pub open spec fn state_name(created: u64, graph: Digest) -> Seq<char> {
    padded(created as nat, 20) + "-"@ + digest_hex(graph) + ".state"@
}

/// 10 to the power of `n`.
pub open spec fn pow10(n: nat) -> nat
    decreases n,
{
    if n == 0 {
        1
    } else {
        10 * pow10((n - 1) as nat)
    }
}

proof fn lemma_lt_prefix(p: Seq<char>, x: Seq<char>, y: Seq<char>)
    requires
        lt(x, y),
    ensures
        lt(p + x, p + y),
    decreases p.len(),
{
    if p.len() == 0 {
        assert(p + x =~= x);
        assert(p + y =~= y);
    } else {
        lemma_lt_prefix(p.skip(1), x, y);
        assert((p + x).skip(1) =~= p.skip(1) + x);
        assert((p + y).skip(1) =~= p.skip(1) + y);
    }
}

proof fn lemma_padded_lt(a: nat, b: nat, width: nat, x: Seq<char>, y: Seq<char>)
    requires
        a < b < pow10(width),
    ensures
        lt(padded(a, width) + x, padded(b, width) + y),
    decreases width,
{
    if width > 0 {
        let w = (width - 1) as nat;
        let u = seq![digit(a % 10)] + x;
        let v = seq![digit(b % 10)] + y;
        assert(padded(a, width) + x =~= padded(a / 10, w) + u);
        assert(padded(b, width) + y =~= padded(b / 10, w) + v);
        assert(b / 10 < pow10(w));
        if a / 10 < b / 10 {
            lemma_padded_lt(a / 10, b / 10, w, u, v);
        } else {
            assert(a / 10 == b / 10);
            assert(a % 10 < b % 10);
            assert(lt(u, v)) by {
                assert(u[0] == digit(a % 10));
                assert(v[0] == digit(b % 10));
            }
            lemma_lt_prefix(padded(a / 10, w), u, v);
        }
    }
}

/// The names of manifests sort chronologically: that of an earlier build comes
/// first, whatever the graphs are.
pub proof fn names_sort_by_time(earlier: u64, later: u64, g: Digest, h: Digest)
    requires
        earlier < later,
    ensures
        lt(state_name(earlier, g), state_name(later, h)),
{
    let x = "-"@ + digest_hex(g) + ".state"@;
    let y = "-"@ + digest_hex(h) + ".state"@;
    assert(state_name(earlier, g) =~= padded(earlier as nat, 20) + x);
    assert(state_name(later, h) =~= padded(later as nat, 20) + y);
    assert(pow10(20) == 100_000_000_000_000_000_000) by {
        reveal_with_fuel(pow10, 21);
    }
    lemma_padded_lt(earlier as nat, later as nat, 20, x, y);
}

/// The names of manifests among the names of a directory.
pub open spec fn state_names(names: Seq<Seq<char>>) -> Set<Seq<char>> {
    Set::new(|n: Seq<char>| names.contains(n) && ends(n, ".state"@))
}

/// The manifests that newer ones have superseded, oldest first.
pub open spec fn superseded_names(names: Seq<Seq<char>>) -> Seq<Seq<char>> {
    let all = ascending_of(state_names(names));
    if all.len() > MANIFESTS_KEPT_PER_PROJECT {
        all.take(all.len() - MANIFESTS_KEPT_PER_PROJECT)
    } else {
        Seq::empty()
    }
}

/// The name of the newest manifest.
pub open spec fn newest_name(names: Seq<Seq<char>>) -> Option<Seq<char>> {
    let all = ascending_of(state_names(names));
    if all.len() > 0 {
        Some(all.last())
    } else {
        None
    }
}

fn sorted_state_names(names: &Vec<String>) -> (r: Vec<String>)
    ensures
        texts(r@) == ascending_of(state_names(texts(names@))),
{
    let ghost all = texts(names@);
    let mut set = StrSet::new();
    let mut i: usize = 0;
    while i < names.len()
        invariant
            i <= names@.len(),
            all == texts(names@),
            forall|n: Seq<char>|
                set@.contains(n) <==> all.take(i as int).contains(n) && ends(n, ".state"@),
        decreases names@.len() - i,
    {
        let ghost before = set@;
        assert(all[i as int] == names@[i as int]@);
        assert(all.take(i as int + 1) =~= all.take(i as int).push(all[i as int]));
        if ends_with(&names[i], ".state") {
            set.insert(names[i].clone());
        }
        proof {
            assert forall|n: Seq<char>|
                set@.contains(n) <==> all.take(i as int + 1).contains(n) && ends(n, ".state"@) by {
                let b = all.take(i as int);
                let c = all.take(i as int + 1);
                if c.contains(n) {
                    let k = choose|k: int| 0 <= k < c.len() && c[k] == n;
                    if k < i {
                        assert(b[k] == n);
                    }
                }
                if b.contains(n) {
                    let k = choose|k: int| 0 <= k < b.len() && b[k] == n;
                    assert(c[k] == n);
                }
                assert(c[i as int] == all[i as int]);
            }
        }
        i += 1;
    }
    assert(all.take(names@.len() as int) =~= all);
    let r = set.to_list();
    proof {
        let want = ascending_of(state_names(all));
        let got = texts(r@);
        assert(ascending(got) && forall|k: Seq<char>|
            got.contains(k) <==> state_names(all).contains(k));
        lemma_ascending_unique(got, want);
    }
    r
}

/// Picks out the manifests of a project's directory that newer ones have
/// superseded: all but the [`MANIFESTS_KEPT_PER_PROJECT`] newest, oldest first.
pub fn superseded(names: &Vec<String>) -> (r: Vec<String>)
    ensures
        texts(r@) == superseded_names(texts(names@)),
{
    let all = sorted_state_names(names);
    let mut out: Vec<String> = Vec::new();
    let keep: usize = MANIFESTS_KEPT_PER_PROJECT;
    let mut i: usize = 0;
    assert(texts(out@) =~= texts(all@).take(0));
    while i < all.len() && all.len() - i > keep
        invariant
            i <= all@.len(),
            keep == MANIFESTS_KEPT_PER_PROJECT,
            i == 0 || i + keep <= all@.len(),
            texts(out@) == texts(all@).take(i as int),
        decreases all@.len() - i,
    {
        push_text(&mut out, &all[i]);
        assert(texts(all@).take(i as int + 1) =~= texts(all@).take(i as int).push(
            all@[i as int]@,
        ));
        i += 1;
    }
    assert(texts(out@) =~= superseded_names(texts(names@)));
    out
}

/// Picks out the newest manifest of a project's directory.
pub fn newest(names: &Vec<String>) -> (r: Option<String>)
    ensures
        opt_view(r) == newest_name(texts(names@)),
{
    let all = sorted_state_names(names);
    if all.len() == 0 {
        return None;
    }
    assert(texts(all@).last() == all@.last()@);
    Some(all[all.len() - 1].clone())
}

/// No manifest is both the newest and superseded, and the newest one comes after
/// every other.
pub proof fn the_newest_manifest_stays(names: Seq<Seq<char>>)
    requires
        newest_name(names) is Some,
    ensures
        !superseded_names(names).contains(newest_name(names)->0),
        forall|n: Seq<char>|
            state_names(names).contains(n) && n != newest_name(names)->0 ==> lt(
                n,
                newest_name(names)->0,
            ),
{
    let all = ascending_of(state_names(names));
    let last = all.last();
    seq_to_set_is_finite(names);
    assert(state_names(names).subset_of(names.to_set()));
    vstd::set_lib::lemma_set_subset_finite(names.to_set(), state_names(names));
    lemma_ascending_of(state_names(names));
    lemma_ascending_distinct(all);
    assert forall|n: Seq<char>| state_names(names).contains(n) && n != last implies lt(n, last) by {
        assert(all.contains(n));
        let k = choose|k: int| 0 <= k < all.len() && all[k] == n;
        assert(lt(all[k], all[all.len() - 1]));
    }
    let old_ones = superseded_names(names);
    if old_ones.contains(last) {
        let k = choose|k: int| 0 <= k < old_ones.len() && old_ones[k] == last;
        assert(all[k] == all[all.len() - 1]);
    }
}

/// The per-project build-state directory: each project's manifests live under
/// its own `<project_hash_hex>/` subdirectory.
#[derive(Clone, Debug)]
pub struct StateStore {
    root: String,
}

impl StateStore {
    /// The directory that holds the projects.
    pub closed spec fn view(self) -> Seq<char> {
        self.root@
    }

    /// The state store inside a store root.
    pub fn open(store_root: &str) -> (r: StateStore)
        ensures
            r@ == joined(joined(store_root@, "state"@), "projects"@),
    {
        StateStore { root: path_join(&path_join(store_root, "state"), "projects") }
    }

    /// The directory that holds the projects.
    pub fn root(&self) -> (r: String)
        ensures
            r@ == self@,
    {
        owned(&self.root)
    }

    /// The directory of a project's manifests.
    pub fn project_dir(&self, project_hash: &Digest) -> (r: String)
        ensures
            r@ == joined(self@, digest_hex(*project_hash)),
    {
        path_join(&self.root, &project_hash.to_hex())
    }

    /// The file that a manifest is written to.
    pub fn manifest_path(&self, manifest: &BuildManifest) -> (r: String)
        ensures
            r@ == joined(
                joined(self@, digest_hex(manifest.project_hash)),
                state_name(manifest.created_at_unix_secs, manifest.graph_digest),
            ),
    {
        let stamp = padded_text(manifest.created_at_unix_secs, 20);
        let name = cat4(&stamp, "-", &manifest.graph_digest.to_hex(), ".state");
        assert(name@ =~= state_name(manifest.created_at_unix_secs, manifest.graph_digest));
        path_join(&self.project_dir(&manifest.project_hash), &name)
    }
}

// ---- Graphs and roots --------------------------------------------------------------------

/// The values that stand for a graph, up to the `n`th action: the number of
/// actions, then each one's identity and digest in the order of identities.
pub open spec fn graph_values(keys: Seq<Seq<char>>, pairs: Map<Seq<char>, Digest>, n: int) -> Seq<
    TokenView,
>
    decreases n,
{
    if n <= 0 {
        seq![TokenView::U64(keys.len() as u64)]
    } else {
        graph_values(keys, pairs, n - 1).push(TokenView::Str(keys[n - 1])).push(
            TokenView::Digest(pairs[keys[n - 1]]),
        )
    }
}

/// The values that stand for a graph of `(logical_id, action_digest)` pairs.
pub open spec fn graph_tokens_of(pairs: Map<Seq<char>, Digest>) -> Seq<TokenView> {
    let keys = ascending_of(pairs.dom());
    graph_values(keys, pairs, keys.len() as int)
}

/// Lists the values whose digest is the graph digest of `(logical_id,
/// action_digest)` pairs. They depend on the pairs alone, not on the order in
/// which they were added.
pub fn graph_tokens(pairs: &StrMap<Digest>) -> (r: Vec<Token>)
    ensures
        tokens_view(r@) == graph_tokens_of(pairs@),
{
    let mut out: Vec<Token> = Vec::new();
    let n = pairs.len();
    let ghost keys = pairs.keys();
    proof {
        let want = ascending_of(pairs@.dom());
        assert(ascending(keys) && forall|k: Seq<char>|
            keys.contains(k) <==> pairs@.dom().contains(k));
        lemma_ascending_unique(keys, want);
    }
    push_token(&mut out, Token::U64(n as u64));
    let mut i: usize = 0;
    assert(tokens_view(out@) =~= graph_values(keys, pairs@, 0));
    while i < n
        invariant
            i <= n,
            n == keys.len(),
            keys == pairs.keys(),
            tokens_view(out@) == graph_values(keys, pairs@, i as int),
        decreases n - i,
    {
        let d = *pairs.value(i);
        push_token(&mut out, Token::Str(pairs.key(i).clone()));
        push_token(&mut out, Token::Digest(d));
        i += 1;
    }
    out
}

proof fn lemma_graph_values(keys: Seq<Seq<char>>, pairs: Map<Seq<char>, Digest>, n: int)
    requires
        0 <= n <= keys.len(),
    ensures
        graph_values(keys, pairs, n).len() == 1 + 2 * n,
        graph_values(keys, pairs, n)[0] == TokenView::U64(keys.len() as u64),
        forall|i: int|
            0 <= i < n ==> graph_values(keys, pairs, n)[1 + 2 * i] == TokenView::Str(
                #[trigger] keys[i],
            ) && graph_values(keys, pairs, n)[2 + 2 * i] == TokenView::Digest(pairs[keys[i]]),
    decreases n,
{
    if n > 0 {
        lemma_graph_values(keys, pairs, n - 1);
    }
}

/// Different graphs have different values: the values of a graph determine its
/// pairs.
pub proof fn graphs_are_told_apart(a: Map<Seq<char>, Digest>, b: Map<Seq<char>, Digest>)
    requires
        a.dom().finite(),
        b.dom().finite(),
        a.dom().len() <= u64::MAX,
        b.dom().len() <= u64::MAX,
        graph_tokens_of(a) == graph_tokens_of(b),
    ensures
        a == b,
{
    lemma_ascending_of(a.dom());
    lemma_ascending_of(b.dom());
    let ka = ascending_of(a.dom());
    let kb = ascending_of(b.dom());
    lemma_graph_values(ka, a, ka.len() as int);
    lemma_graph_values(kb, b, kb.len() as int);
    assert(ka.len() == kb.len());
    assert forall|i: int| 0 <= i < ka.len() implies ka[i] == kb[i] && a[ka[i]] == b[ka[i]] by {
        let va = graph_values(ka, a, ka.len() as int);
        let vb = graph_values(kb, b, kb.len() as int);
        assert(va[1 + 2 * i] == TokenView::Str(ka[i]));
        assert(vb[1 + 2 * i] == TokenView::Str(kb[i]));
        assert(va[2 + 2 * i] == TokenView::Digest(a[ka[i]]));
        assert(vb[2 + 2 * i] == TokenView::Digest(b[kb[i]]));
    }
    assert(ka =~= kb);
    assert(a.dom() =~= b.dom());
    assert forall|k: Seq<char>| a.contains_key(k) implies a[k] == b[k] by {
        assert(ka.contains(k));
        let i = choose|i: int| 0 <= i < ka.len() && ka[i] == k;
        assert(a[ka[i]] == b[ka[i]]);
    }
    assert(a =~= b);
}

/// The position of the first recorded action of an identity.
pub open spec fn recorded_at(actions: Seq<RecordedView>, id: Seq<char>, i: int) -> bool {
    &&& 0 <= i < actions.len()
    &&& actions[i].logical_id == id
    &&& forall|k: int| 0 <= k < i ==> (#[trigger] actions[k]).logical_id != id
}

/// Whether a recorded action references a digest.
pub open spec fn action_references(a: RecordedView, d: Digest) -> bool {
    ||| d == a.action_digest
    ||| d == a.input_root
    ||| a.executable == Some(d)
    ||| a.env_bundle == Some(d)
    ||| d == a.outputs
    ||| d == a.stdout
    ||| d == a.stderr
}

/// Whether one of the first `n` recorded actions references a digest.
pub open spec fn actions_reference(v: Seq<RecordedView>, n: int, d: Digest) -> bool {
    exists|i: int| 0 <= i < n && action_references(#[trigger] v[i], d)
}

/// Whether one of the first `n` artifacts is a digest's tree.
pub open spec fn artifacts_reference(v: Seq<(Seq<char>, Digest)>, n: int, d: Digest) -> bool {
    exists|i: int| 0 <= i < n && (#[trigger] v[i]).1 == d
}

/// Whether a manifest references a digest.
pub open spec fn references(m: ManifestView, d: Digest) -> bool {
    ||| actions_reference(m.actions, m.actions.len() as int, d)
    ||| m.sources.contains(d)
    ||| m.toolchains.contains(d)
    ||| artifacts_reference(m.artifacts, m.artifacts.len() as int, d)
}

proof fn lemma_actions_reference(v: Seq<RecordedView>, n: int, d: Digest)
    requires
        0 <= n < v.len(),
    ensures
        actions_reference(v, n + 1, d) == (actions_reference(v, n, d) || action_references(v[n], d)),
{
    if actions_reference(v, n, d) {
        let i = choose|i: int| 0 <= i < n && action_references(#[trigger] v[i], d);
        assert(action_references(v[i], d));
    }
}

proof fn lemma_artifacts_reference(v: Seq<(Seq<char>, Digest)>, n: int, d: Digest)
    requires
        0 <= n < v.len(),
    ensures
        artifacts_reference(v, n + 1, d) == (artifacts_reference(v, n, d) || v[n].1 == d),
{
    if artifacts_reference(v, n, d) {
        let i = choose|i: int| 0 <= i < n && (#[trigger] v[i]).1 == d;
        assert(v[i].1 == d);
    }
    if v[n].1 == d {
        assert(artifacts_reference(v, n + 1, d));
    }
}

impl BuildManifest {
    /// Finds the action of an identity.
    pub fn find_action(&self, id: &str) -> (r: Option<usize>)
        ensures
            match r {
                Some(i) => recorded_at(self@.actions, id@, i as int),
                None => forall|k: int|
                    0 <= k < self@.actions.len() ==> (#[trigger] self@.actions[k]).logical_id
                        != id@,
            },
    {
        let ghost v = self@.actions;
        let mut i: usize = 0;
        while i < self.actions.len()
            invariant
                i <= self.actions@.len(),
                v == self@.actions,
                v.len() == self.actions@.len(),
                forall|k: int| 0 <= k < i ==> (#[trigger] v[k]).logical_id != id@,
            decreases self.actions@.len() - i,
        {
            assert(v[i as int] == self.actions@[i as int]@);
            if same(&self.actions[i].logical_id, id) {
                return Some(i);
            }
            i += 1;
        }
        None
    }

    /// Adds every digest that the manifest references.
    pub fn add_references(&self, out: &mut DigestSet)
        ensures
            forall|d: Digest|
                final(out)@.contains(d) <==> old(out)@.contains(d) || references(self@, d),
    {
        let ghost before = out@;
        let ghost v = self@.actions;
        let mut i: usize = 0;
        while i < self.actions.len()
            invariant
                i <= self.actions@.len(),
                v == self@.actions,
                v.len() == self.actions@.len(),
                forall|d: Digest| #[trigger]
                    out@.contains(d) <==> before.contains(d) || actions_reference(v, i as int, d),
            decreases self.actions@.len() - i,
        {
            let ghost so_far = out@;
            let a = &self.actions[i];
            assert(v[i as int] == a@);
            out.insert(a.action_digest);
            out.insert(a.input_root);
            if let Some(executable) = a.executable {
                out.insert(executable);
            }
            if let Some(bundle) = a.env_bundle {
                out.insert(bundle);
            }
            out.insert(a.outputs);
            out.insert(a.stdout);
            out.insert(a.stderr);
            assert forall|d: Digest| #[trigger]
                out@.contains(d) <==> before.contains(d) || actions_reference(
                    v,
                    i as int + 1,
                    d,
                ) by {
                assert(out@.contains(d) <==> so_far.contains(d) || action_references(a@, d));
                lemma_actions_reference(v, i as int, d);
            }
            i += 1;
        }
        add_all(out, &self.sources);
        add_all(out, &self.toolchains);
        let ghost so_far = out@;
        let ghost w = self@.artifacts;
        let mut k: usize = 0;
        while k < self.artifacts.len()
            invariant
                k <= self.artifacts@.len(),
                w == self@.artifacts,
                w.len() == self.artifacts@.len(),
                forall|d: Digest| #[trigger]
                    out@.contains(d) <==> so_far.contains(d) || artifacts_reference(
                        w,
                        k as int,
                        d,
                    ),
            decreases self.artifacts@.len() - k,
        {
            let ghost was = out@;
            assert(w[k as int].1 == self.artifacts@[k as int].1);
            out.insert(self.artifacts[k].1);
            assert forall|d: Digest| #[trigger]
                out@.contains(d) <==> so_far.contains(d) || artifacts_reference(
                    w,
                    k as int + 1,
                    d,
                ) by {
                assert(out@.contains(d) <==> was.contains(d) || w[k as int].1 == d);
                lemma_artifacts_reference(w, k as int, d);
            }
            k += 1;
        }
        assert(v == self@.actions && v.len() == self.actions@.len());
    }
}

fn add_all(out: &mut DigestSet, v: &Vec<Digest>)
    ensures
        forall|d: Digest| #[trigger]
            final(out)@.contains(d) <==> old(out)@.contains(d) || v@.contains(d),
{
    let ghost before = out@;
    let mut i: usize = 0;
    while i < v.len()
        invariant
            i <= v@.len(),
            forall|d: Digest| #[trigger]
                out@.contains(d) <==> before.contains(d) || v@.take(i as int).contains(d),
        decreases v@.len() - i,
    {
        let ghost was = out@;
        out.insert(v[i]);
        assert forall|d: Digest| #[trigger]
            out@.contains(d) <==> before.contains(d) || v@.take(i as int + 1).contains(d) by {
            let b = v@.take(i as int);
            let c = v@.take(i as int + 1);
            assert(was.contains(d) <==> before.contains(d) || b.contains(d));
            assert(c =~= b.push(v@[i as int]));
            if b.contains(d) {
                let k = choose|k: int| 0 <= k < b.len() && b[k] == d;
                assert(c[k] == d);
            }
            if c.contains(d) {
                let k = choose|k: int| 0 <= k < c.len() && c[k] == d;
                if k < i {
                    assert(b[k] == d);
                }
            }
            assert(c[i as int] == v@[i as int]);
        }
        i += 1;
    }
    assert(v@.take(v@.len() as int) =~= v@);
}

/// Whether one of some manifests references a digest.
pub open spec fn is_root(manifests: Seq<BuildManifest>, d: Digest) -> bool {
    exists|i: int| 0 <= i < manifests.len() && references((#[trigger] manifests[i])@, d)
}

/// Collects every digest that the manifests reference: the roots of garbage
/// collection.
pub fn gc_roots(manifests: &Vec<BuildManifest>) -> (r: DigestSet)
    ensures
        forall|d: Digest| r@.contains(d) <==> is_root(manifests@, d),
{
    let mut out = DigestSet::new();
    let mut i: usize = 0;
    while i < manifests.len()
        invariant
            i <= manifests@.len(),
            forall|d: Digest|
                out@.contains(d) <==> exists|k: int|
                    0 <= k < i && references((#[trigger] manifests@[k])@, d),
        decreases manifests@.len() - i,
    {
        let ghost before = out@;
        manifests[i].add_references(&mut out);
        assert forall|d: Digest|
            out@.contains(d) <==> exists|k: int|
                0 <= k < i + 1 && references((#[trigger] manifests@[k])@, d) by {
            if references(manifests@[i as int]@, d) {
                assert(out@.contains(d));
            }
        }
        i += 1;
    }
    out
}

} // verus!
