//! The failures that the library reports.

use vstd::prelude::*;
use vstd::string::StringExecFns;

verus! {

/// Why a request was turned down.
#[derive(Debug, PartialEq, Eq)]
pub enum Error {
    /// The string names none of the supported binding targets.
    UnsupportedLanguage,
    /// The loader definition that anchors the patch is missing from the
    /// bindings file at `file`.
    AnchorNotFound { file: String },
}

impl Error {
    /// The text shown to the operator for this error.
    pub open spec fn message(self) -> Seq<char> {
        match self {
            Error::UnsupportedLanguage => "UnsupportedLanguage"@,
            Error::AnchorNotFound { file } => "loadIndirect not found in `"@ + file@ + "`"@,
        }
    }

    /// Renders the error for the operator; a missing anchor names the file
    /// that was searched.
    pub fn to_string(&self) -> (s: String)
        ensures
            s@ == self.message(),
    {
        match self {
            Error::UnsupportedLanguage => "UnsupportedLanguage".to_owned(),
            Error::AnchorNotFound { file } => {
                let mut s = "loadIndirect not found in `".to_owned();
                s.append(file.as_str());
                s.append("`");
                s
            },
        }
    }
}

} // verus!
