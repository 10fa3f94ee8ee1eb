use bdk_ffi_bindgen::Error;
use bdk_ffi_bindgen::Language;

#[test]
fn parses_the_three_canonical_names() {
    assert_eq!(Language::from_str("kotlin"), Ok(Language::KOTLIN));
    assert_eq!(Language::from_str("python"), Ok(Language::PYTHON));
    assert_eq!(Language::from_str("swift"), Ok(Language::SWIFT));
}

#[test]
fn renders_the_canonical_names() {
    assert_eq!(Language::KOTLIN.to_string(), "kotlin");
    assert_eq!(Language::PYTHON.to_string(), "python");
    assert_eq!(Language::SWIFT.to_string(), "swift");
    assert_eq!(Language::KOTLIN.as_str(), "kotlin");
    assert_eq!(Language::PYTHON.as_str(), "python");
    assert_eq!(Language::SWIFT.as_str(), "swift");
}

#[test]
fn parse_then_render_gives_the_name_back() {
    for name in ["kotlin", "python", "swift"] {
        let language = Language::from_str(name).unwrap();
        assert_eq!(language.to_string(), name);
    }
}

#[test]
fn render_then_parse_gives_the_language_back() {
    for language in [Language::KOTLIN, Language::PYTHON, Language::SWIFT] {
        assert_eq!(Language::from_str(&language.to_string()), Ok(language));
    }
}

#[test]
fn rejects_every_other_string() {
    let others = [
        "",
        " ",
        "Kotlin",
        "KOTLIN",
        "Python",
        "SWIFT",
        " python",
        "python ",
        "python\n",
        "kotlin,swift",
        "kt",
        "kts",
        "py",
        "rb",
        "ruby",
        "swif",
        "swiftt",
        "pythonkotlin",
        "pyth\u{00f6}n",
    ];
    for s in others {
        assert_eq!(Language::from_str(s), Err(Error::UnsupportedLanguage), "{:?}", s);
    }
}

#[test]
fn parses_through_the_standard_trait() {
    assert_eq!("swift".parse::<Language>(), Ok(Language::SWIFT));
    assert_eq!("python".parse::<Language>(), Ok(Language::PYTHON));
    assert_eq!("Swift".parse::<Language>(), Err(Error::UnsupportedLanguage));
}

#[test]
fn unsupported_language_renders_as_its_name() {
    assert_eq!(Error::UnsupportedLanguage.to_string(), "UnsupportedLanguage");
}

#[test]
fn missing_anchor_renders_with_the_file() {
    let e = Error::AnchorNotFound { file: "out/bdk.py".to_string() };
    assert_eq!(e.to_string(), "loadIndirect not found in `out/bdk.py`");
    let e = Error::AnchorNotFound { file: String::new() };
    assert_eq!(e.to_string(), "loadIndirect not found in ``");
}
