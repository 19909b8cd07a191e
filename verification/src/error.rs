//! The errors that building a codebase can end in.

use vstd::prelude::*;
use vstd::string::StringExecFns;

verus! {

/// What went wrong.
#[derive(Debug)]
pub enum CunwErrorKind {
    /// A file could not be read, or did not hold valid text.
    Io(String),
    /// The tree of the codebase could not be completed.
    CodebaseBuild(String),
    /// The rules of an ignore file could not be turned into a matcher.
    GitignoreBuild(String),
}

/// An error, with the file it concerns when there is one.
#[derive(Debug)]
pub struct CunwError {
    pub source: CunwErrorKind,
    pub related_to_file: Option<String>,
}

impl CunwErrorKind {
    /// The words that introduce each kind of error.
    pub open spec fn heading(&self) -> Seq<char> {
        match self {
            CunwErrorKind::Io(_) => "IO error: "@,
            CunwErrorKind::CodebaseBuild(_) => "Failed to build codebase: "@,
            CunwErrorKind::GitignoreBuild(_) => "Failed to build gitignore: "@,
        }
    }

    /// The detail that the error carries.
    pub open spec fn detail(&self) -> Seq<char> {
        match self {
            CunwErrorKind::Io(detail) => detail@,
            CunwErrorKind::CodebaseBuild(detail) => detail@,
            CunwErrorKind::GitignoreBuild(detail) => detail@,
        }
    }

    /// The message of this kind of error: its heading, then its detail.
    pub open spec fn message(&self) -> Seq<char> {
        self.heading() + self.detail()
    }

    /// The message of this kind of error as text.
    pub fn to_text(&self) -> (text: String)
        ensures
            text@ == self.message(),
    {
        match self {
            CunwErrorKind::Io(detail) => String::from_str("IO error: ").concat(detail.as_str()),
            CunwErrorKind::CodebaseBuild(detail) => String::from_str(
                "Failed to build codebase: ",
            ).concat(detail.as_str()),
            CunwErrorKind::GitignoreBuild(detail) => String::from_str(
                "Failed to build gitignore: ",
            ).concat(detail.as_str()),
        }
    }
}

impl CunwError {
    /// An error of the given kind that concerns no file in particular.
    pub fn new(source: CunwErrorKind) -> (error: Self)
        ensures
            error.source == source,
            error.related_to_file is None,
    {
        Self { source, related_to_file: None }
    }

    /// The same error, said to concern `file`.
    pub fn with_file(self, file: String) -> (error: Self)
        ensures
            error.source == self.source,
            error.related_to_file == Some(file),
    {
        let mut error = self;
        error.related_to_file = Some(file);
        error
    }

    /// The message of the error.
    pub open spec fn message(&self) -> Seq<char> {
        "Cunw error: "@ + self.source.message()
    }

    /// The message of the error as text.
    pub fn to_text(&self) -> (text: String)
        ensures
            text@ == self.message(),
    {
        let source = self.source.to_text();
        String::from_str("Cunw error: ").concat(source.as_str())
    }
}

} // verus!
