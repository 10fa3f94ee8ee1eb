//! What the front end asks of the generator, and whether the patch step
//! follows.

use vstd::prelude::*;
use crate::language::Language;
use crate::patcher::BINDINGS_FILE;

verus! {

/// The inputs of one generator run.
#[derive(Debug, PartialEq, Eq)]
pub struct GenerationRequest {
    /// The interface definition to read.
    pub udl_file: String,
    /// A configuration file to use instead of the one found beside the
    /// interface definition.
    pub config_file_override: Option<String>,
    /// The names of the languages to generate bindings for.
    pub target_languages: Vec<String>,
    /// The directory to write into instead of the one that holds the
    /// interface definition.
    pub out_dir_override: Option<String>,
    /// Whether the generator should try to format the code it wrote.
    pub try_format_code: bool,
}

/// A generation request as plain values.
pub struct GenerationRequestView {
    pub udl_file: Seq<char>,
    pub config_file_override: Option<Seq<char>>,
    pub target_languages: Seq<Seq<char>>,
    pub out_dir_override: Option<Seq<char>>,
    pub try_format_code: bool,
}

/// An optional string as an optional character sequence.
pub open spec fn option_text(s: Option<String>) -> Option<Seq<char>> {
    match s {
        Some(s) => Some(s@),
        None => None,
    }
}

impl View for GenerationRequest {
    type V = GenerationRequestView;

    open spec fn view(&self) -> GenerationRequestView {
        GenerationRequestView {
            udl_file: self.udl_file@,
            config_file_override: option_text(self.config_file_override),
            target_languages: Seq::new(
                self.target_languages@.len(),
                |i: int| self.target_languages@[i]@,
            ),
            out_dir_override: option_text(self.out_dir_override),
            try_format_code: self.try_format_code,
        }
    }
}

/// The generated file to patch and the library base name to patch in.
#[derive(Debug, PartialEq, Eq)]
pub struct PatchTarget {
    /// The name of the bindings file inside the output directory.
    pub file_name: String,
    /// The base name of the native library; any string is taken as it is.
    pub lib_name: String,
}

/// The request that generates bindings for one language: the language goes
/// by its canonical name, the output directory is given, no configuration
/// override is asked for and the generator's switch is off.
pub fn generation_request(udl_file: &str, language: Language, out_dir: &str) -> (request:
    GenerationRequest)
    ensures
        request@ == (GenerationRequestView {
            udl_file: udl_file@,
            config_file_override: None,
            target_languages: seq![language.name()],
            out_dir_override: Some(out_dir@),
            try_format_code: false,
        }),
{
    let mut target_languages: Vec<String> = Vec::new();
    target_languages.push(language.to_string());
    let request = GenerationRequest {
        udl_file: udl_file.to_owned(),
        config_file_override: None,
        target_languages,
        out_dir_override: Some(out_dir.to_owned()),
        try_format_code: false,
    };
    proof {
        assert(request@.target_languages =~= seq![language.name()]);
    }
    request
}

/// Decides whether the patch step follows generation: only Python bindings
/// are patched, and only when a library base name was supplied. Without
/// one the step is skipped, which is no error.
pub fn patch_target(language: Language, lib_name: Option<&str>) -> (target: Option<PatchTarget>)
    ensures
        match target {
            Some(t) => {
                &&& language == Language::PYTHON
                &&& lib_name matches Some(name) && t.lib_name@ == name@
                &&& t.file_name@ == BINDINGS_FILE@
            },
            None => language != Language::PYTHON || lib_name is None,
        },
{
    match (language, lib_name) {
        (Language::PYTHON, Some(name)) => Some(
            PatchTarget { file_name: BINDINGS_FILE.to_owned(), lib_name: name.to_owned() },
        ),
        _ => None,
    }
}

} // verus!
