//! The languages whose functions are indexed, chosen by file extension.
use vstd::prelude::*;
use crate::text::text_eq;
use std::path::Path;

verus! {

#[verifier::external_type_specification]
#[verifier::external_body]
pub struct ExLanguage(tree_sitter::Language);

/// The languages that can be indexed.
#[derive(Debug, Clone, Copy, PartialEq, Eq)]
pub enum SourceLanguage {
    Rust,
    Python,
    Cpp,
    Java,
}

/// A Tree-sitter grammar and the query that captures each function
/// definition (`@function`) and its body (`@body`). Only `rust_spec`,
/// `python_spec`, `cpp_spec` and `java_spec` build one, so the grammar and
/// the query are always those of `kind`.
pub struct LanguageSpec {
    pub(crate) kind: SourceLanguage,
    pub(crate) language: tree_sitter::Language,
    pub(crate) function_query: &'static str,
}

impl LanguageSpec {
    /// The language the spec is for.
    pub closed spec fn spec_kind(&self) -> SourceLanguage {
        self.kind
    }

    /// The function query of the spec.
    pub closed spec fn spec_query(&self) -> &'static str {
        self.function_query
    }

    /// The language the spec is for.
    pub fn kind(&self) -> (r: SourceLanguage)
        ensures
            r == self.spec_kind(),
    {
        self.kind
    }
}

/// The function query for Rust.
pub const RUST_FUNCTION_QUERY: &'static str = r#"(function_item body: (block) @body) @function"#;

/// The function query for Python.
pub const PYTHON_FUNCTION_QUERY: &'static str = r#"
              (function_definition
                body: (block) @body) @function
          "#;

/// The function query for C++.
pub const CPP_FUNCTION_QUERY: &'static str = r#"
              (function_definition
                body: (compound_statement) @body) @function
          "#;

/// The function query for Java: method declarations with a body.
pub const JAVA_FUNCTION_QUERY: &'static str = r#"
              (method_declaration
                body: (block) @body) @function
          "#;

/// The function query of a language.
pub open spec fn function_query_for(kind: SourceLanguage) -> &'static str {
    match kind {
        SourceLanguage::Rust => RUST_FUNCTION_QUERY,
        SourceLanguage::Python => PYTHON_FUNCTION_QUERY,
        SourceLanguage::Cpp => CPP_FUNCTION_QUERY,
        SourceLanguage::Java => JAVA_FUNCTION_QUERY,
    }
}

/// The Rust grammar: `tree_sitter_rust::LANGUAGE` converted into a
/// `tree_sitter::Language`. Nothing is stated of the value.
#[verifier::external_body]
fn rust_language() -> tree_sitter::Language {
    tree_sitter_rust::LANGUAGE.into()
}

/// The Python grammar: `tree_sitter_python::LANGUAGE` converted into a
/// `tree_sitter::Language`. Nothing is stated of the value.
#[verifier::external_body]
fn python_language() -> tree_sitter::Language {
    tree_sitter_python::LANGUAGE.into()
}

/// The C++ grammar: `tree_sitter_cpp::LANGUAGE` converted into a
/// `tree_sitter::Language`. Nothing is stated of the value.
#[verifier::external_body]
fn cpp_language() -> tree_sitter::Language {
    tree_sitter_cpp::LANGUAGE.into()
}

/// The Java grammar: `tree_sitter_java::LANGUAGE` converted into a
/// `tree_sitter::Language`. Nothing is stated of the value.
#[verifier::external_body]
fn java_language() -> tree_sitter::Language {
    tree_sitter_java::LANGUAGE.into()
}

/// The spec for Rust sources.
pub fn rust_spec() -> (r: LanguageSpec)
    ensures
        r.spec_kind() == SourceLanguage::Rust,
        r.spec_query() == RUST_FUNCTION_QUERY,
{
    LanguageSpec { kind: SourceLanguage::Rust, language: rust_language(), function_query: RUST_FUNCTION_QUERY }
}

/// The spec for Python sources.
pub fn python_spec() -> (r: LanguageSpec)
    ensures
        r.spec_kind() == SourceLanguage::Python,
        r.spec_query() == PYTHON_FUNCTION_QUERY,
{
    LanguageSpec {
        kind: SourceLanguage::Python,
        language: python_language(),
        function_query: PYTHON_FUNCTION_QUERY,
    }
}

/// The spec for C++ sources.
pub fn cpp_spec() -> (r: LanguageSpec)
    ensures
        r.spec_kind() == SourceLanguage::Cpp,
        r.spec_query() == CPP_FUNCTION_QUERY,
{
    LanguageSpec { kind: SourceLanguage::Cpp, language: cpp_language(), function_query: CPP_FUNCTION_QUERY }
}

/// The spec for Java sources.
pub fn java_spec() -> (r: LanguageSpec)
    ensures
        r.spec_kind() == SourceLanguage::Java,
        r.spec_query() == JAVA_FUNCTION_QUERY,
{
    LanguageSpec { kind: SourceLanguage::Java, language: java_language(), function_query: JAVA_FUNCTION_QUERY }
}

/// A path that every platform splits the same way: no backslash (a
/// separator on Windows only), no `:` (which starts a drive prefix on
/// Windows) and no leading `//` (which starts a network share prefix on
/// Windows).
pub open spec fn portable_path(p: Seq<char>) -> bool {
    &&& !p.contains('\\')
    &&& !p.contains(':')
    &&& !(p.len() >= 2 && p[0] == '/' && p[1] == '/')
}

/// What `Path::extension` gives for a path, as text.
pub uninterp spec fn spec_file_extension(path: Seq<char>) -> Option<Seq<char>>;

/// The extension of `path`: `std::path::Path::extension`, the part of the
/// file name after its last `.`, converted to a `String`. The value is named,
/// not spelled out. It is stated only of portable paths: elsewhere how the
/// path splits into components depends on the platform.
#[verifier::external_body]
fn file_extension(path: &str) -> (r: Option<String>)
    ensures
        portable_path(path@) ==> (r matches Some(e) ==> spec_file_extension(path@) == Some(e@)),
        portable_path(path@) ==> (r is None ==> spec_file_extension(path@) is None),
{
    Path::new(path).extension().and_then(|ext| ext.to_str()).map(|ext| ext.to_string())
}

/// Why a file has no language spec.
#[derive(Debug, Clone, Copy, PartialEq, Eq)]
pub enum LanguageSpecError {
    /// "Unsupported file extension"
    UnsupportedExtension,
    /// "File has no extension"
    NoExtension,
}

impl LanguageSpecError {
    /// The message the error is reported with.
    pub fn message(&self) -> (r: &'static str)
        ensures
            self matches LanguageSpecError::UnsupportedExtension ==> r@ == "Unsupported file extension"@,
            self matches LanguageSpecError::NoExtension ==> r@ == "File has no extension"@,
    {
        match self {
            LanguageSpecError::UnsupportedExtension => "Unsupported file extension",
            LanguageSpecError::NoExtension => "File has no extension",
        }
    }
}

/// The language a file extension selects: `rs`, `py`, `cpp` and `java`.
pub open spec fn language_for_extension(ext: Seq<char>) -> Option<SourceLanguage> {
    if ext == seq!['r', 's'] {
        Some(SourceLanguage::Rust)
    } else if ext == seq!['p', 'y'] {
        Some(SourceLanguage::Python)
    } else if ext == seq!['c', 'p', 'p'] {
        Some(SourceLanguage::Cpp)
    } else if ext == seq!['j', 'a', 'v', 'a'] {
        Some(SourceLanguage::Java)
    } else {
        None
    }
}

/// The spec for a source file, chosen by its extension. On a path that is
/// not portable the extension (and so the spec) is the platform's.
pub fn spec_for_file(path: &str) -> (r: Result<LanguageSpec, LanguageSpecError>)
    ensures
        portable_path(path@) ==> match spec_file_extension(path@) {
            None => r == Err::<LanguageSpec, LanguageSpecError>(LanguageSpecError::NoExtension),
            Some(ext) => match language_for_extension(ext) {
                None => r == Err::<LanguageSpec, LanguageSpecError>(LanguageSpecError::UnsupportedExtension),
                Some(kind) => r matches Ok(spec) && spec.spec_kind() == kind && spec.spec_query()
                    == function_query_for(kind),
            },
        },
        r matches Ok(spec) ==> spec.spec_query() == function_query_for(spec.spec_kind()),
{
    match file_extension(path) {
        None => Err(LanguageSpecError::NoExtension),
        Some(ext) => {
            proof {
                reveal_strlit("rs");
                reveal_strlit("py");
                reveal_strlit("cpp");
                reveal_strlit("java");
                assert("rs"@ =~= seq!['r', 's']);
                assert("py"@ =~= seq!['p', 'y']);
                assert("cpp"@ =~= seq!['c', 'p', 'p']);
                assert("java"@ =~= seq!['j', 'a', 'v', 'a']);
            }
            if text_eq(ext.as_str(), "rs") {
                Ok(rust_spec())
            } else if text_eq(ext.as_str(), "py") {
                Ok(python_spec())
            } else if text_eq(ext.as_str(), "cpp") {
                Ok(cpp_spec())
            } else if text_eq(ext.as_str(), "java") {
                Ok(java_spec())
            } else {
                Err(LanguageSpecError::UnsupportedExtension)
            }
        },
    }
}

} // verus!
