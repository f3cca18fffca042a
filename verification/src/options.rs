//! Build configuration: the entry list and working directory the
//! graph build starts from, and the output naming templates a later
//! emitting step consumes.

use vstd::prelude::*;

verus! {

/// One configured entry: an optional display name and the import
/// specifier to resolve.
#[derive(Debug)]
pub struct InputItem {
    pub name: Option<String>,
    pub import: String,
}

impl InputItem {
    /// An entry with no display name.
    pub fn from_specifier(value: String) -> (r: InputItem)
        ensures
            r.name is None,
            r.import@ == value@,
    {
        InputItem { name: None, import: value }
    }
}

/// The input configuration: entries and the working directory paths
/// are stabilized against.
#[derive(Debug)]
pub struct InputOptions {
    pub input: Vec<InputItem>,
    pub cwd: String,
}

impl InputOptions {
    pub fn new(input: Vec<InputItem>, cwd: String) -> (r: InputOptions)
        ensures
            r.input@ == input@,
            r.cwd@ == cwd@,
    {
        InputOptions { input, cwd }
    }
}

impl Default for InputOptions {
    /// No entries, with the working directory left for the embedding
    /// program to fill in.
    fn default() -> (r: InputOptions)
        ensures
            r.input@ == Seq::<InputItem>::empty(),
            r.cwd@ == Seq::<char>::empty(),
    {
        InputOptions { input: Vec::new(), cwd: String::new() }
    }
}

/// The raw, all-optional form of `InputOptions` an embedder fills.
#[derive(Debug)]
pub struct InternalInputOptions {
    pub input: Vec<InputItem>,
    pub cwd: String,
}

impl InternalInputOptions {
    /// Completes missing fields: absent entries become none, an absent
    /// working directory becomes empty for the embedder to override.
    pub fn from_options(input: Option<Vec<InputItem>>, cwd: Option<String>) -> (r:
        InternalInputOptions)
        ensures
            match input {
                Some(v) => r.input@ == v@,
                None => r.input@ == Seq::<InputItem>::empty(),
            },
            match cwd {
                Some(c) => r.cwd@ == c@,
                None => r.cwd@ == Seq::<char>::empty(),
            },
    {
        InternalInputOptions {
            input: (match input {
                Some(v) => v,
                None => Vec::new(),
            }),
            cwd: (match cwd {
                Some(c) => c,
                None => String::new(),
            }),
        }
    }
}

/// A file-name pattern such as `[name].js`, consumed by the emitting
/// step.
#[derive(Debug)]
pub struct FileNameTemplate {
    pub template: String,
}

impl FileNameTemplate {
    pub fn from_template(template: String) -> (r: FileNameTemplate)
        ensures
            r.template@ == template@,
    {
        FileNameTemplate { template }
    }
}

/// Output naming configuration.
#[derive(Debug)]
pub struct OutputOptions {
    pub entry_file_names: FileNameTemplate,
    pub chunk_file_names: FileNameTemplate,
}

impl Default for OutputOptions {
    /// Entries are named `[name].js`, chunks `[name]-[hash].js`.
    fn default() -> (r: OutputOptions)
        ensures
            r.entry_file_names.template@ == "[name].js"@,
            r.chunk_file_names.template@ == "[name]-[hash].js"@,
    {
        OutputOptions {
            entry_file_names: FileNameTemplate {
                template: String::from_str("[name].js"),
            },
            chunk_file_names: FileNameTemplate {
                template: String::from_str("[name]-[hash].js"),
            },
        }
    }
}

/// The completed output configuration.
#[derive(Debug)]
pub struct InternalOutputOptions {
    pub entry_file_names: FileNameTemplate,
    pub chunk_file_names: FileNameTemplate,
}

impl InternalOutputOptions {
    /// Completes missing fields with the default templates.
    pub fn from_options(entry: Option<String>, chunk: Option<String>) -> (r:
        InternalOutputOptions)
        ensures
            match entry {
                Some(e) => r.entry_file_names.template@ == e@,
                None => r.entry_file_names.template@ == "[name].js"@,
            },
            match chunk {
                Some(c) => r.chunk_file_names.template@ == c@,
                None => r.chunk_file_names.template@ == "[name]-[hash].js"@,
            },
    {
        InternalOutputOptions {
            entry_file_names: FileNameTemplate {
                template: (match entry {
                    Some(e) => e,
                    None => String::from_str("[name].js"),
                }),
            },
            chunk_file_names: FileNameTemplate {
                template: (match chunk {
                    Some(c) => c,
                    None => String::from_str("[name]-[hash].js"),
                }),
            },
        }
    }
}

/// What the resolver capability hands back for a request: the
/// resolved absolute path.
#[derive(Debug)]
pub struct ResolveReturn {
    pub resolved: String,
}

/// The bundler: holds the configuration a build runs from.
#[derive(Debug)]
pub struct Bundler {
    pub input_options: InputOptions,
}

impl Bundler {
    pub fn new(input_options: InputOptions) -> (r: Bundler)
        ensures
            r.input_options.input@ == input_options.input@,
            r.input_options.cwd@ == input_options.cwd@,
    {
        Bundler { input_options }
    }
}

} // verus!
