//! Package versions.

use vstd::prelude::*;
use vstd::string::*;
use crate::text::{decimal, same, u64_text};

verus! {

/// A semantic version.
#[derive(Debug, PartialEq, Eq, Hash)]
pub struct Version {
    /// Major number.
    pub major: u64,
    /// Minor number.
    pub minor: u64,
    /// Patch number.
    pub patch: u64,
    /// Pre-release identifiers, dot-separated; empty for a release.
    pub pre: String,
    /// Build metadata; empty where there is none.
    pub build: String,
}

/// What a version holds.
pub struct VersionView {
    pub major: u64,
    pub minor: u64,
    pub patch: u64,
    pub pre: Seq<char>,
    pub build: Seq<char>,
}

impl View for Version {
    type V = VersionView;

    open spec fn view(&self) -> VersionView {
        VersionView {
            major: self.major,
            minor: self.minor,
            patch: self.patch,
            pre: self.pre@,
            build: self.build@,
        }
    }
}

impl Clone for Version {
    fn clone(&self) -> (r: Version)
        ensures
            r == *self,
    {
        Version {
            major: self.major,
            minor: self.minor,
            patch: self.patch,
            pre: self.pre.clone(),
            build: self.build.clone(),
        }
    }
}

/// How a version is written: `major.minor.patch`, then `-` and the pre-release
/// identifiers and `+` and the build metadata where there are any.
pub open spec fn version_text(v: VersionView) -> Seq<char> {
    let core = decimal(v.major as nat) + "."@ + decimal(v.minor as nat) + "."@ + decimal(
        v.patch as nat,
    );
    let released = if v.pre.len() > 0 {
        core + "-"@ + v.pre
    } else {
        core
    };
    if v.build.len() > 0 {
        released + "+"@ + v.build
    } else {
        released
    }
}

/// The outcome of reading a text as a version: its three numbers, its
/// pre-release identifiers and its build metadata, or why it is none.
pub uninterp spec fn semver_parsed(text: Seq<char>) -> Result<
    (u64, u64, u64, Seq<char>, Seq<char>),
    Seq<char>,
>;

/// The texts of a parse result.
pub open spec fn parts_view(r: Result<(u64, u64, u64, String, String), String>) -> Result<
    (u64, u64, u64, Seq<char>, Seq<char>),
    Seq<char>,
> {
    match r {
        Ok((a, b, c, pre, build)) => Ok((a, b, c, pre@, build@)),
        Err(e) => Err(e@),
    }
}

/// `semver::Version::parse`, its fields taken apart; the error by its message.
/// The grammar of versions is semver's; nothing is claimed of it but that the
/// same text always reads the same.
#[verifier::external_body]
fn semver_parts(text: &str) -> (r: Result<(u64, u64, u64, String, String), String>)
    ensures
        parts_view(r) == semver_parsed(text@),
{
    match semver::Version::parse(text) {
        Ok(v) => Ok((v.major, v.minor, v.patch, v.pre.to_string(), v.build.to_string())),
        Err(err) => Err(err.to_string()),
    }
}

/// Whether one version comes before another in the order of versions, both
/// given as text; nothing where one of them is no version.
pub uninterp spec fn semver_before(a: Seq<char>, b: Seq<char>) -> Option<bool>;

/// The order of `semver::Version` (`<`), on versions given as text. It is a
/// function of the two texts; that releases come after their pre-releases, and
/// the other rules of precedence, are semver's and are not restated.
#[verifier::external_body]
fn semver_less(a: &str, b: &str) -> (r: Option<bool>)
    ensures
        r == semver_before(a@, b@),
{
    match (semver::Version::parse(a), semver::Version::parse(b)) {
        (Ok(x), Ok(y)) => Some(x < y),
        _ => None,
    }
}

/// The version that a parse result stands for.
pub open spec fn parsed_version(
    parts: Result<(u64, u64, u64, Seq<char>, Seq<char>), Seq<char>>,
) -> Result<VersionView, Seq<char>> {
    match parts {
        Ok((major, minor, patch, pre, build)) => Ok(
            VersionView { major, minor, patch, pre, build },
        ),
        Err(message) => Err(message),
    }
}

/// The view of a version or of an error message.
pub open spec fn version_result(r: Result<Version, String>) -> Result<VersionView, Seq<char>> {
    match r {
        Ok(v) => Ok(v@),
        Err(message) => Err(message@),
    }
}

impl Version {
    /// The release `major.minor.patch`.
    pub fn new(major: u64, minor: u64, patch: u64) -> (r: Version)
        ensures
            r@ == (VersionView {
                major,
                minor,
                patch,
                pre: Seq::empty(),
                build: Seq::empty(),
            }),
    {
        let r = Version { major, minor, patch, pre: String::new(), build: String::new() };
        proof {
            reveal_strlit("");
            assert(r.pre@ =~= Seq::<char>::empty());
            assert(r.build@ =~= Seq::<char>::empty());
        }
        r
    }

    /// The version that the parts of a parsed text give.
    pub fn from_parts(parts: Result<(u64, u64, u64, String, String), String>) -> (r: Result<
        Version,
        String,
    >)
        ensures
            version_result(r) == parsed_version(parts_view(parts)),
    {
        match parts {
            Ok((major, minor, patch, pre, build)) => Ok(Version { major, minor, patch, pre, build }),
            Err(message) => Err(message),
        }
    }

    /// Reads a version; the error is the reason why `text` is none.
    pub fn parse(text: &str) -> (r: Result<Version, String>)
        ensures
            version_result(r) == parsed_version(semver_parsed(text@)),
    {
        Version::from_parts(semver_parts(text))
    }

    /// The version as text.
    pub fn to_text(&self) -> (r: String)
        ensures
            r@ == version_text(self@),
    {
        let mut out = u64_text(self.major);
        out.append(".");
        out.append(u64_text(self.minor).as_str());
        out.append(".");
        out.append(u64_text(self.patch).as_str());
        if self.pre.as_str().unicode_len() > 0 {
            out.append("-");
            out.append(self.pre.as_str());
        }
        if self.build.as_str().unicode_len() > 0 {
            out.append("+");
            out.append(self.build.as_str());
        }
        out
    }

    /// Whether this version comes before another; nothing where one of them is
    /// no version that semver reads.
    pub fn precedes(&self, other: &Version) -> (r: Option<bool>)
        ensures
            r == semver_before(version_text(self@), version_text(other@)),
    {
        semver_less(self.to_text().as_str(), other.to_text().as_str())
    }

    /// Whether two versions are the same, build metadata included.
    pub fn same(&self, other: &Version) -> (r: bool)
        ensures
            r == (self@ == other@),
    {
        self.major == other.major && self.minor == other.minor && self.patch == other.patch && same(
            self.pre.as_str(),
            other.pre.as_str(),
        ) && same(self.build.as_str(), other.build.as_str())
    }
}

} // verus!
