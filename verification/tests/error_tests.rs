use pervade::error::format_paths;
use pervade::error::format_quoted_strings;
use pervade::loader::ModuleLoader;
use pervade::loader::ResolvedRequestInfo;
use pervade::error::Error;

#[test]
fn test_format_paths() {
    assert_eq!(format_paths(&vec![]), "");
    assert_eq!(format_paths(&vec![String::from("a.js")]), "a.js");
    assert_eq!(
        format_paths(&vec![String::from("a.js"), String::from("b.js"), String::from("c.js")]),
        "a.js -> b.js -> c.js"
    );
}

#[test]
fn test_format_quoted_strings() {
    assert_eq!(format_quoted_strings(&vec![String::from("one")]), "\"one\"");
    assert_eq!(
        format_quoted_strings(&vec![String::from("one"), String::from("two")]),
        "\"one\" and \"two\""
    );
    assert_eq!(
        format_quoted_strings(
            &vec![String::from("one"), String::from("two"), String::from("three")]
        ),
        "\"one\", \"two\" and \"three\""
    );
}

#[test]
fn test_empty_input_is_config_error() {
    let err = ModuleLoader::validate_input(0).unwrap_err();
    assert!(matches!(err, Error::InvalidConfig { .. }));
    assert!(ModuleLoader::validate_input(1).is_ok());
}

#[test]
fn test_external_entry_is_error() {
    let mut loader = ModuleLoader::new();
    let err = loader
        .add_entry(&ResolvedRequestInfo { path: String::from("fs"), is_external: true })
        .unwrap_err();
    assert!(matches!(err, Error::ExternalEntry { id } if id == "fs"));
}
