//! The closed set of binding targets and the error raised for anything else.

use vstd::prelude::*;
use crate::error::Error;
use crate::text::str_eq;

verus! {

/// A binding target the generator can emit.
#[derive(Debug, PartialEq, Eq, Structural, Clone, Copy)]
pub enum Language {
    KOTLIN,
    PYTHON,
    SWIFT,
}

/// The language that a string names, if it names one: the match is exact,
/// with no case folding and no trimming.
pub open spec fn language_named(s: Seq<char>) -> Option<Language> {
    if s == "kotlin"@ {
        Some(Language::KOTLIN)
    } else if s == "python"@ {
        Some(Language::PYTHON)
    } else if s == "swift"@ {
        Some(Language::SWIFT)
    } else {
        None
    }
}

impl Language {
    /// The canonical lower-case name of the language.
    pub open spec fn name(self) -> Seq<char> {
        match self {
            Language::KOTLIN => "kotlin"@,
            Language::PYTHON => "python"@,
            Language::SWIFT => "swift"@,
        }
    }

    /// The canonical name, as handed to the generator and shown to the
    /// operator.
    pub fn as_str(&self) -> (s: &'static str)
        ensures
            s@ == self.name(),
    {
        match self {
            Language::KOTLIN => "kotlin",
            Language::PYTHON => "python",
            Language::SWIFT => "swift",
        }
    }

    /// Renders the language as its canonical name.
    pub fn to_string(&self) -> (s: String)
        ensures
            s@ == self.name(),
    {
        self.as_str().to_owned()
    }

    /// Parses a language name. Exactly the three canonical names are
    /// accepted; every other string is an unsupported language.
    pub fn from_str(s: &str) -> (r: Result<Language, Error>)
        ensures
            match r {
                Ok(language) => language_named(s@) == Some(language),
                Err(e) => language_named(s@) is None && e == Error::UnsupportedLanguage,
            },
    {
        if str_eq(s, "kotlin") {
            Ok(Language::KOTLIN)
        } else if str_eq(s, "python") {
            Ok(Language::PYTHON)
        } else if str_eq(s, "swift") {
            Ok(Language::SWIFT)
        } else {
            Err(Error::UnsupportedLanguage)
        }
    }
}

impl core::str::FromStr for Language {
    type Err = Error;

    /// Parses a language name as [`Language::from_str`] does: exactly the
    /// three canonical names are accepted.
    fn from_str(s: &str) -> (r: Result<Language, Error>)
        ensures
            match r {
                Ok(language) => language_named(s@) == Some(language),
                Err(e) => language_named(s@) is None && e == Error::UnsupportedLanguage,
            },
    {
        Language::from_str(s)
    }
}

/// Rendering undoes parsing: each of the three canonical names names a
/// language, and that language renders as the same name.
pub proof fn lemma_name_of_parsed(s: Seq<char>)
    requires
        s == "kotlin"@ || s == "python"@ || s == "swift"@,
    ensures
        language_named(s) is Some,
        language_named(s).unwrap().name() == s,
{
}

/// Parsing undoes rendering: the canonical name of every language names that
/// language.
pub proof fn lemma_parse_of_name(language: Language)
    ensures
        language_named(language.name()) == Some(language),
{
    reveal_strlit("kotlin");
    reveal_strlit("python");
    reveal_strlit("swift");
    assert("kotlin"@[0] != "python"@[0]);
}

} // verus!
