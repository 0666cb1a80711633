//! The ways in which mapping a host path can fail.

use vstd::prelude::*;

verus! {

/// A host path has no final component from which a virtual path could be named.
#[derive(Debug, PartialEq, Eq, Clone, Copy)]
pub struct RelativePathError;

impl RelativePathError {
    /// The text that describes this error.
    pub fn message(&self) -> (text: String)
        ensures
            text@ == "couldn't extract relative path"@,
    {
        "couldn't extract relative path".to_owned()
    }
}

/// What the host reported when a file could not be read or a directory not
/// listed: the number of the error, where the host gave one, and its words.
#[derive(Debug, PartialEq, Eq)]
pub struct HostError {
    pub code: Option<i32>,
    pub detail: String,
}

/// The mathematical value of a `HostError`.
pub struct Report {
    pub code: Option<i32>,
    pub detail: Seq<char>,
}

impl View for HostError {
    type V = Report;

    open spec fn view(&self) -> Report {
        Report { code: self.code, detail: self.detail@ }
    }
}

impl HostError {
    /// An error of its own with the same report.
    pub fn duplicate(&self) -> (copy: HostError)
        ensures
            copy@ == self@,
    {
        HostError { code: self.code, detail: self.detail.clone() }
    }
}

/// Why a mapping stopped.
#[derive(Debug, PartialEq, Eq)]
pub enum MapError {
    /// A host file could not be opened or read to its end.
    Read(HostError),
    /// The children of a host directory could not be listed.
    List(HostError),
    /// A host path has no final component.
    RelativePath(RelativePathError),
}

/// The mathematical value of a `MapError`.
pub enum FailureModel {
    Read(Report),
    List(Report),
    RelativePath,
}

impl View for MapError {
    type V = FailureModel;

    open spec fn view(&self) -> FailureModel {
        match self {
            MapError::Read(e) => FailureModel::Read(e@),
            MapError::List(e) => FailureModel::List(e@),
            MapError::RelativePath(_) => FailureModel::RelativePath,
        }
    }
}

} // verus!
