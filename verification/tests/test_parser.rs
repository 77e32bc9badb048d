use texpand::parser::{classify_include, extract_all_includes, extract_include_paths, is_quoted_include, parse_source, Include};

fn extract(source: &str) -> Vec<String> {
    let tree = parse_source(source).unwrap();
    extract_include_paths(&tree, source).into_iter().map(|s| s.to_string()).collect()
}

#[test]
fn test_quoted_include() {
    assert_eq!(extract("#include \"myheader.h\"\n"), vec!["myheader.h"]);
}

#[test]
fn test_system_include_ignored() {
    assert!(extract("#include <vector>\n").is_empty());
}

#[test]
fn test_mixed_includes() {
    let source = "#include \"config.h\"\n#include <cstdio>\n#include \"utils.h\"\n";
    assert_eq!(extract(source), vec!["config.h", "utils.h"]);
}

#[test]
fn parser_test_no_includes() {
    assert!(extract("int main() { return 0; }\n").is_empty());
}

#[test]
fn test_extract_all_includes() {
    let source = "#include \"local.h\"\n#include <system>\n";
    let tree = parse_source(source).unwrap();
    let all = extract_all_includes(&tree, source);
    assert_eq!(all.len(), 2);
    assert_eq!(all[0], Include::Local("local.h"));
    assert_eq!(all[1], Include::System("system"));
}

#[test]
fn parser_classifies_include_nodes() {
    let source = "#include \"q.h\"\n#include <v>\n";
    let tree = parse_source(source).unwrap();
    let nodes: Vec<_> = tree.root.children.iter().filter(|n| n.kind == "preproc_include").collect();
    assert_eq!(nodes.len(), 2);
    assert!(is_quoted_include(nodes[0], source));
    assert!(!is_quoted_include(nodes[1], source));
    assert_eq!(classify_include(nodes[0], source), Some(Include::Local("q.h")));
    assert_eq!(classify_include(nodes[1], source), Some(Include::System("v")));
}

#[test]
fn parser_tree_covers_source() {
    let source = "int a; // \u{e9}t\u{e9}\n";
    let tree = parse_source(source).unwrap();
    assert_eq!(tree.root.start_byte, 0);
    assert!(tree.root.end_byte <= source.len());
    assert!(source.is_char_boundary(tree.root.end_byte));
}
