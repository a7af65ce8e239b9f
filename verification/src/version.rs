//! Versions of the interface that a mapping is written against.
use vstd::prelude::*;

verus! {

/// A semantic version.
#[derive(Debug, PartialEq, Eq)]
pub struct Version {
    pub major: u64,
    pub minor: u64,
    pub patch: u64,
    pub pre: String,
    pub build: String,
}

impl View for Version {
    type V = (u64, u64, u64, Seq<char>, Seq<char>);

    open spec fn view(&self) -> (u64, u64, u64, Seq<char>, Seq<char>) {
        (self.major, self.minor, self.patch, self.pre@, self.build@)
    }
}

impl Clone for Version {
    fn clone(&self) -> (r: Self)
        ensures
            r@ == self@,
    {
        Version {
            major: self.major,
            minor: self.minor,
            patch: self.patch,
            pre: self.pre.clone(),
            build: self.build.clone(),
        }
    }
}

/// What a text is refused with as a semantic version.
#[verifier::external_type_specification]
#[verifier::external_body]
pub struct ExVersionError(semver::Error);

/// The version that `semver::Version::parse` reads in `text`, if it reads one:
/// the three numbers, the pre-release and the build metadata.
pub uninterp spec fn version_in(text: Seq<char>) -> Option<(u64, u64, u64, Seq<char>, Seq<char>)>;

/// `semver::Version::parse`: whether it succeeds, and the version that it then
/// gives, depend on the text alone.
#[verifier::external_body]
pub(crate) fn parse_version(text: &str) -> (r: Result<Version, semver::Error>)
    ensures
        match r {
            Ok(version) => version_in(text@) == Some(version@),
            Err(_) => version_in(text@) is None,
        },
{
    semver::Version::parse(text).map(
        |v| Version {
            major: v.major,
            minor: v.minor,
            patch: v.patch,
            pre: v.pre.as_str().to_owned(),
            build: v.build.as_str().to_owned(),
        },
    )
}

} // verus!
