use std::collections::HashMap;

use texpand::expander::{expand, ExpandError, ExpandOptions};
use texpand::resolver::FileResolver;

/// Resolver backed by an in-memory file map.
struct FixtureResolver {
    files: HashMap<String, String>,
}

impl FixtureResolver {
    fn new(entries: impl IntoIterator<Item = (&'static str, &'static str)>) -> Self {
        let files = entries.into_iter().map(|(k, v)| (k.to_string(), v.to_string())).collect();
        Self { files }
    }

    #[allow(dead_code)]
    fn empty() -> Self {
        Self { files: HashMap::new() }
    }
}

impl FileResolver for FixtureResolver {
    fn resolve(&self, _includer_path: &str, path: &str) -> Result<String, String> {
        if self.files.contains_key(path) {
            Ok(path.to_string())
        } else {
            Err(format!("file not found: {path}"))
        }
    }
    fn read_content(&self, path: &str) -> Result<String, String> {
        self.files.get(path).cloned().ok_or_else(|| format!("file not found: {path}"))
    }
}

#[allow(dead_code)]
fn expand_default(entry: &str, source: &str, resolver: &FixtureResolver) -> Result<String, ExpandError> {
    expand(entry, source, resolver, &ExpandOptions::default())
}

#[allow(dead_code)]
fn expand_compressed(entry: &str, source: &str, resolver: &FixtureResolver) -> Result<String, ExpandError> {
    expand(entry, source, resolver, &ExpandOptions { compress: true })
}

#[test]
fn empty_file() {
    let resolver = FixtureResolver::empty();
    let result = expand_default("empty.cpp", "", &resolver).unwrap();
    assert_eq!(result, "");
}

#[test]
fn pragma_once_stripped() {
    let resolver = FixtureResolver::empty();
    let result = expand_default("header.h", "#pragma once\nint a = 1;\n", &resolver).unwrap();
    assert!(
        !result.contains("#pragma once"),
        "#pragma once should be stripped"
    );
    assert!(result.contains("int a = 1;"));
}

#[test]
fn file_with_only_includes() {
    let resolver = FixtureResolver::new([("a.h", "int a = 1;\n"), ("b.h", "int b = 2;\n")]);
    let src = "#include \"a.h\"\n#include \"b.h\"\n";
    let result = expand_default("main.cpp", src, &resolver).unwrap();

    assert!(result.contains("int a = 1;"));
    assert!(result.contains("int b = 2;"));
    assert!(!result.contains("#include"));
}

#[test]
fn unresolvable_include() {
    let resolver = FixtureResolver::empty();
    let src = "#include \"nonexistent.h\"\nint main() {}\n";
    let err = expand_default("main.cpp", src, &resolver).unwrap_err();
    assert!(
        err.message().contains("nonexistent.h"),
        "error should mention the missing file"
    );
}

#[test]
fn unresolvable_transitive_include() {
    let resolver = FixtureResolver::new([("a.h", "#include \"missing.h\"\nint a;\n")]);
    let src = "#include \"a.h\"\nint main() {}\n";
    let err = expand_default("main.cpp", src, &resolver).unwrap_err();
    assert!(
        err.message().contains("missing.h"),
        "error should mention the transitive missing file"
    );
}
