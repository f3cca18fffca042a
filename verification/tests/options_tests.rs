use pervade::loader::is_external_specifier;
use pervade::options::Bundler;
use pervade::options::InputItem;
use pervade::options::InputOptions;
use pervade::options::InternalInputOptions;
use pervade::options::InternalOutputOptions;
use pervade::options::OutputOptions;

#[test]
fn test_output_options_default_templates() {
    let out = OutputOptions::default();
    assert_eq!(out.entry_file_names.template, "[name].js");
    assert_eq!(out.chunk_file_names.template, "[name]-[hash].js");
    let internal = InternalOutputOptions::from_options(None, Some(String::from("x-[hash].js")));
    assert_eq!(internal.entry_file_names.template, "[name].js");
    assert_eq!(internal.chunk_file_names.template, "x-[hash].js");
}

#[test]
fn test_input_options_and_bundler() {
    let item = InputItem::from_specifier(String::from("./main.js"));
    assert!(item.name.is_none());
    assert_eq!(item.import, "./main.js");
    let opts = InputOptions::new(vec![item], String::from("/work"));
    let bundler = Bundler::new(opts);
    assert_eq!(bundler.input_options.cwd, "/work");
    assert_eq!(bundler.input_options.input.len(), 1);

    let defaulted = InputOptions::default();
    assert!(defaulted.input.is_empty());

    let internal = InternalInputOptions::from_options(None, Some(String::from("/cwd")));
    assert!(internal.input.is_empty());
    assert_eq!(internal.cwd, "/cwd");
}

#[test]
fn test_external_specifier_policy() {
    // a non-entry request that does not start with `.` skips
    // resolution and is treated as external
    assert!(is_external_specifier("lodash", true));
    assert!(is_external_specifier("", true));
    assert!(!is_external_specifier("./lib.js", true));
    assert!(!is_external_specifier("lodash", false));
}
