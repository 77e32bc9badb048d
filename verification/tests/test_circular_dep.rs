use std::collections::HashMap;

use texpand::expander::{expand, ExpandError, ExpandOptions};
use texpand::resolver::FileResolver;

/// Resolver backed by an in-memory file map.
struct FixtureResolver {
    files: HashMap<String, String>,
}

impl FixtureResolver {
    fn new(entries: impl IntoIterator<Item = (&'static str, &'static str)>) -> Self {
        let files = entries.into_iter().map(|(k, v)| (k.to_string(), v.to_string())).collect();
        Self { files }
    }

    #[allow(dead_code)]
    fn empty() -> Self {
        Self { files: HashMap::new() }
    }
}

impl FileResolver for FixtureResolver {
    fn resolve(&self, _includer_path: &str, path: &str) -> Result<String, String> {
        if self.files.contains_key(path) {
            Ok(path.to_string())
        } else {
            Err(format!("file not found: {path}"))
        }
    }
    fn read_content(&self, path: &str) -> Result<String, String> {
        self.files.get(path).cloned().ok_or_else(|| format!("file not found: {path}"))
    }
}

#[allow(dead_code)]
fn expand_default(entry: &str, source: &str, resolver: &FixtureResolver) -> Result<String, ExpandError> {
    expand(entry, source, resolver, &ExpandOptions::default())
}

#[allow(dead_code)]
fn expand_compressed(entry: &str, source: &str, resolver: &FixtureResolver) -> Result<String, ExpandError> {
    expand(entry, source, resolver, &ExpandOptions { compress: true })
}

#[test]
fn circular_two_files() {
    let resolver = FixtureResolver::new([
        ("a.h", "#include \"b.h\"\nint a;\n"),
        ("b.h", "#include \"a.h\"\nint b;\n"),
    ]);
    let src = "#include \"a.h\"\nint main() {}\n";
    let err = expand_default("main.cpp", src, &resolver).unwrap_err();
    let msg = err.message();
    assert!(
        msg.contains("circular") || msg.contains("cycle"),
        "error should mention circular/cycle: {msg}"
    );
    assert!(
        msg.contains("a.h") && msg.contains("b.h"),
        "error should include cycle participants: {msg}"
    );
}

#[test]
fn circular_three_files() {
    let resolver = FixtureResolver::new([
        ("a.h", "#include \"b.h\"\n"),
        ("b.h", "#include \"c.h\"\n"),
        ("c.h", "#include \"a.h\"\n"),
    ]);
    let src = "#include \"a.h\"\nint main() {}\n";
    let err = expand_default("main.cpp", src, &resolver).unwrap_err();
    let msg = err.message();
    assert!(
        msg.contains("circular") || msg.contains("cycle"),
        "error should mention circular/cycle: {msg}"
    );
}
