use texpand::expander::{expand, ExpandError, ExpandOptions};
use texpand::resolver::FileResolver;

struct MockResolver;

impl FileResolver for MockResolver {
    fn resolve(&self, _includer_path: &str, include_path: &str) -> Result<String, String> {
        match include_path {
            "a.h" => Ok("a.h".to_string()),
            "b.h" => Ok("b.h".to_string()),
            _ => Err(format!("file not found: {include_path}")),
        }
    }
    fn read_content(&self, resolved_path: &str) -> Result<String, String> {
        match resolved_path {
            "a.h" => Ok("int a = 1;\n".to_string()),
            "b.h" => Ok("int b = 2;\n".to_string()),
            _ => Err(format!("file not found: {resolved_path}")),
        }
    }
}

fn expand_default(entry: &str, src: &str, resolver: &MockResolver) -> Result<String, ExpandError> {
    expand(entry, src, resolver, &ExpandOptions::default())
}

fn expand_compressed(entry: &str, src: &str, resolver: &MockResolver) -> Result<String, ExpandError> {
    expand(entry, src, resolver, &ExpandOptions { compress: true })
}

#[test]
fn expander_test_no_includes() {
    let src = "int main() { return 0; }\n";
    let result = expand_default("main.cpp", src, &MockResolver).unwrap();
    assert_eq!(result, "int main() { return 0; }\n");
}

#[test]
fn test_single_include() {
    let src = "#include \"a.h\"\nint main() { return a; }\n";
    let result = expand_default("main.cpp", src, &MockResolver).unwrap();
    assert!(result.contains("int a = 1;"));
    assert!(result.contains("int main() { return a; }"));
    assert!(!result.contains("#include \"a.h\""));
}

#[test]
fn test_system_include_preserved() {
    let src = "#include <vector>\n#include \"a.h\"\nint main() { return a; }\n";
    let result = expand_default("main.cpp", src, &MockResolver).unwrap();
    assert!(result.contains("#include <vector>"));
    assert!(!result.contains("#include \"a.h\""));
    assert!(result.contains("int a = 1;"));
}

#[test]
fn test_system_include_in_dependency() {
    let src_a = "#include <string>\nint a = 1;\n";
    let result = expand_default("a.h", src_a, &MockResolver).unwrap();
    assert!(result.contains("#include <string>"));
    assert!(result.contains("int a = 1;"));
}

#[test]
fn test_transitive_order() {
    let src_a = "#include \"b.h\"\nint a = b + 1;\n";
    let result = expand_default("a.h", src_a, &MockResolver).unwrap();
    let pos_b = result.find("int b = 2;").unwrap();
    let pos_a = result.find("int a = b + 1;").unwrap();
    assert!(pos_b < pos_a, "dependencies must come first");
}

#[test]
fn test_pragma_once_stripped() {
    let src_a = "#pragma once\nint a = 1;\n";
    let result = expand_default("a.h", src_a, &MockResolver).unwrap();
    assert!(!result.contains("#pragma once"));
    assert!(result.contains("int a = 1;"));
}

#[test]
fn test_expand_with_compression() {
    let src = "#include \"a.h\"\nint main() { return a; }\n";
    let result = expand_compressed("main.cpp", src, &MockResolver).unwrap();
    assert!(result.contains("int a=1;"));
    assert!(result.contains("int main(){return a;}"));
    assert!(!result.contains("#include \"a.h\""));
}

#[test]
fn test_same_file_same_context_dedup() {
    let src = "#include \"a.h\"\n#include \"a.h\"\n";
    let result = expand_default("main.cpp", src, &MockResolver).unwrap();
    assert_eq!(result.matches("int a = 1;").count(), 1);
}

#[test]
fn test_include_inside_ifdef() {
    let src = "#ifdef USE_FOO\n#include \"a.h\"\n#endif\nint x;\n";
    let result = expand_default("main.cpp", src, &MockResolver).unwrap();
    assert!(result.contains("#ifdef USE_FOO"));
    assert!(result.contains("int a = 1;"));
    assert!(result.contains("int x;"));
}

#[test]
fn test_same_file_different_contexts() {
    let src = "#ifdef X\n#include \"a.h\"\n#else\n#include \"a.h\"\n#endif\n";
    let result = expand_default("main.cpp", src, &MockResolver).unwrap();
    assert_eq!(result.matches("int a = 1;").count(), 2, "a.h must be expanded in both branches");
    assert!(result.contains("#ifdef X\nint a = 1;\n#else\nint a = 1;\n#endif"));
}

#[test]
fn test_compressed_no_includes() {
    let src = "int main() { return 0; }\n";
    let result = expand_compressed("main.cpp", src, &MockResolver).unwrap();
    assert_eq!(result, "int main(){return 0;}");
}

#[test]
fn test_compressed_with_local_include() {
    let src = "#include \"a.h\"\nint main() { return a; }\n";
    let result = expand_compressed("main.cpp", src, &MockResolver).unwrap();
    assert!(result.contains("int a=1;"));
    assert!(result.contains("int main(){return a;}"));
    assert!(!result.contains("#include \"a.h\""));
}

#[test]
fn test_compressed_system_include() {
    let src = "#include <vector>\n#include \"a.h\"\nint main() { return a; }\n";
    let result = expand_compressed("main.cpp", src, &MockResolver).unwrap();
    assert!(result.contains("#include<vector>") || result.contains("#include <vector>"));
    assert!(result.contains("int a=1;"));
}

#[test]
fn test_compressed_ifdef_include() {
    let src = "#ifdef USE_FOO\n#include \"a.h\"\n#endif\nint x;\n";
    let result = expand_compressed("main.cpp", src, &MockResolver).unwrap();
    assert!(result.contains("#ifdef USE_FOO\nint a=1;"));
    assert!(result.contains("int x;"));
}
