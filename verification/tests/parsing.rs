use sift::language_specs::{cpp_spec, java_spec, python_spec, rust_spec, spec_for_file, LanguageSpecError, SourceLanguage};
use sift::treesitter_parse::{extract_functions, generate_tree_from_source};

#[test]
fn supported_source_extensions_have_language_specs() {
    assert!(spec_for_file("main.rs").is_ok());
    assert!(spec_for_file("module.py").is_ok());
    assert!(spec_for_file("engine.cpp").is_ok());
    assert!(spec_for_file("Main.java").is_ok());
}

#[test]
fn unsupported_source_extensions_are_rejected() {
    assert!(spec_for_file("README.md").is_err());
    assert!(spec_for_file("LICENSE").is_err());
}

#[test]
fn extension_errors_say_why() {
    assert!(matches!(spec_for_file("README.md"), Err(LanguageSpecError::UnsupportedExtension)));
    assert!(matches!(spec_for_file("LICENSE"), Err(LanguageSpecError::NoExtension)));
    assert!(matches!(spec_for_file("dir.rs/file"), Err(LanguageSpecError::NoExtension)));
}

#[test]
fn extension_selects_the_language() {
    assert!(matches!(spec_for_file("a/b/main.rs").unwrap().kind(), SourceLanguage::Rust));
    assert!(matches!(spec_for_file("x.py").unwrap().kind(), SourceLanguage::Python));
    assert!(matches!(spec_for_file("x.cpp").unwrap().kind(), SourceLanguage::Cpp));
    assert!(matches!(spec_for_file("src/Main.java").unwrap().kind(), SourceLanguage::Java));
    assert!(spec_for_file("x.RS").is_err());
    assert!(spec_for_file("x.hpp").is_err());
}

#[test]
fn rust_extraction_keeps_full_source_header_and_line_number() {
    let source = "\nfn first() {}\n\npub fn wanted(value: i32) -> i32 {\n    value + 1\n}\n";
    let spec = rust_spec();
    let tree = generate_tree_from_source(&spec, source).ok().unwrap();

    let functions = extract_functions(&tree, source, &spec).ok().unwrap();

    assert_eq!(functions.len(), 2);
    assert_eq!(functions[1].header, "pub fn wanted(value: i32) -> i32");
    assert!(functions[1].source.contains("value + 1"));
    assert_eq!(functions[1].line_number, 4);
}

#[test]
fn rust_extraction_finds_the_first_function() {
    let source = "\nfn first() {}\n\npub fn wanted(value: i32) -> i32 {\n    value + 1\n}\n";
    let spec = rust_spec();
    let tree = generate_tree_from_source(&spec, source).ok().unwrap();
    let functions = extract_functions(&tree, source, &spec).ok().unwrap();
    assert_eq!(functions[0].header, "fn first()");
    assert_eq!(functions[0].source, "fn first() {}");
    assert_eq!(functions[0].line_number, 2);
}

#[test]
fn python_extraction_finds_functions() {
    let source = "def outer(x):\n    return x + 1\n\nclass A:\n    def method(self):\n        pass\n";
    let spec = python_spec();
    let tree = generate_tree_from_source(&spec, source).ok().unwrap();
    let functions = extract_functions(&tree, source, &spec).ok().unwrap();
    assert_eq!(functions.len(), 2);
    assert_eq!(functions[0].header, "def outer(x):");
    assert_eq!(functions[0].line_number, 1);
    assert_eq!(functions[1].header, "def method(self):");
    assert_eq!(functions[1].line_number, 5);
}

#[test]
fn cpp_extraction_finds_functions() {
    let source = "int add(int a, int b) {\n  return a + b;\n}\n";
    let spec = cpp_spec();
    let tree = generate_tree_from_source(&spec, source).ok().unwrap();
    let functions = extract_functions(&tree, source, &spec).ok().unwrap();
    assert_eq!(functions.len(), 1);
    assert_eq!(functions[0].header, "int add(int a, int b)");
    assert_eq!(functions[0].source, "int add(int a, int b) {\n  return a + b;\n}");
    assert_eq!(functions[0].line_number, 1);
}

#[test]
fn source_without_functions_gives_none() {
    let source = "const X: u32 = 1;\n";
    let spec = rust_spec();
    let tree = generate_tree_from_source(&spec, source).ok().unwrap();
    let functions = extract_functions(&tree, source, &spec).ok().unwrap();
    assert!(functions.is_empty());
}

#[test]
fn java_extraction_finds_methods() {
    let source = "class A {\n  int add(int a, int b) {\n    return a + b;\n  }\n}\n";
    let spec = java_spec();
    let tree = generate_tree_from_source(&spec, source).ok().unwrap();
    let functions = extract_functions(&tree, source, &spec).ok().unwrap();
    assert_eq!(functions.len(), 1);
    assert_eq!(functions[0].header, "int add(int a, int b)");
    assert_eq!(functions[0].source, "int add(int a, int b) {\n    return a + b;\n  }");
    assert_eq!(functions[0].line_number, 2);
}
