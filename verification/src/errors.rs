//! Error values produced when a version string or a coordinate string cannot
//! be parsed.

use vstd::prelude::*;

verus! {

/// Error for a version string whose exploded segment list holds no numeric
/// segment, so nothing comparable could be read out of it.
#[derive(Debug, PartialEq)]
pub struct UnparseableVersionError {
    pub version_string: String,
}

impl View for UnparseableVersionError {
    type V = Seq<char>;

    open spec fn view(&self) -> Seq<char> {
        self.version_string@
    }
}

impl UnparseableVersionError {
    /// Builds the error from the offending version string.
    pub fn from(version_string: &str) -> (r: Self)
        ensures
            r@ == version_string@,
    {
        UnparseableVersionError { version_string: version_string.to_owned() }
    }

    /// The version string that could not be parsed.
    pub fn version_string(&self) -> (r: &str)
        ensures
            r@ == self@,
    {
        self.version_string.as_str()
    }
}

/// Why a coordinate string did not turn into a dependency.
#[derive(Debug, PartialEq)]
pub enum DependencyParseError {
    /// The string does not split into `group:artifact:version` with all three
    /// parts non-empty (the version part must hold a non-blank character).
    /// Carries the original coordinate string.
    CoordinateError(String),
    /// The coordinate structure was valid, but a version string seen for this
    /// group/artifact pair could not be parsed. Carries the group, the
    /// artifact, and the inner version error.
    VersionError(String, String, UnparseableVersionError),
}

/// Specification-level shape of a `DependencyParseError`.
pub ghost enum ErrView {
    Coordinate(Seq<char>),
    Version(Seq<char>, Seq<char>, Seq<char>),
}

impl View for DependencyParseError {
    type V = ErrView;

    open spec fn view(&self) -> ErrView {
        match self {
            DependencyParseError::CoordinateError(s) => ErrView::Coordinate(s@),
            DependencyParseError::VersionError(g, a, e) => ErrView::Version(g@, a@, e@),
        }
    }
}

} // verus!
