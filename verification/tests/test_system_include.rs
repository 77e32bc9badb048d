use std::collections::HashMap;

use texpand::expander::{expand, ExpandError, ExpandOptions};
use texpand::resolver::FileResolver;

/// Resolver backed by an in-memory file map.
struct FixtureResolver {
    files: HashMap<String, String>,
}

impl FixtureResolver {
    fn new(entries: impl IntoIterator<Item = (&'static str, &'static str)>) -> Self {
        let files = entries.into_iter().map(|(k, v)| (k.to_string(), v.to_string())).collect();
        Self { files }
    }

    #[allow(dead_code)]
    fn empty() -> Self {
        Self { files: HashMap::new() }
    }
}

impl FileResolver for FixtureResolver {
    fn resolve(&self, _includer_path: &str, path: &str) -> Result<String, String> {
        if self.files.contains_key(path) {
            Ok(path.to_string())
        } else {
            Err(format!("file not found: {path}"))
        }
    }
    fn read_content(&self, path: &str) -> Result<String, String> {
        self.files.get(path).cloned().ok_or_else(|| format!("file not found: {path}"))
    }
}

#[allow(dead_code)]
fn expand_default(entry: &str, source: &str, resolver: &FixtureResolver) -> Result<String, ExpandError> {
    expand(entry, source, resolver, &ExpandOptions::default())
}

#[allow(dead_code)]
fn expand_compressed(entry: &str, source: &str, resolver: &FixtureResolver) -> Result<String, ExpandError> {
    expand(entry, source, resolver, &ExpandOptions { compress: true })
}

#[test]
fn system_include_preserved() {
    let resolver = FixtureResolver::new([("a.h", "int a = 1;\n")]);
    let src = "#include <vector>\n#include \"a.h\"\nint main() { return a; }\n";
    let result = expand_default("main.cpp", src, &resolver).unwrap();

    assert!(
        result.contains("#include <vector>"),
        "system include must survive"
    );
    assert!(result.contains("int a = 1;"));
    assert!(!result.contains("#include \"a.h\""));
}

#[test]
fn system_include_in_dep() {
    let resolver = FixtureResolver::new([("a.h", "#include <string>\nint a = 1;\n")]);
    let src = "#include \"a.h\"\nint main() { return a; }\n";
    let result = expand_default("main.cpp", src, &resolver).unwrap();

    assert!(
        result.contains("#include <string>"),
        "system include in dependency must survive"
    );
    assert!(result.contains("int a = 1;"));
}
