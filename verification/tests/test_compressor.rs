use texpand::compressor::compress;
use texpand::parser::parse_source;

fn compress_source(source: &str) -> String {
    let tree = parse_source(source).unwrap();
    compress(&tree, source)
}

#[test]
fn test_comment_removal() {
    let result = compress_source("int a = 1; // comment\n");
    assert_eq!(result, "int a=1;");
}

#[test]
fn test_multi_line_comment_removal() {
    let result = compress_source("/* block\ncomment */ int a;");
    assert_eq!(result, "int a;");
}

#[test]
fn test_identifier_spacing() {
    let result = compress_source("int main() { return 0; }");
    assert_eq!(result, "int main(){return 0;}");
}

#[test]
fn test_symbol_compaction() {
    let result = compress_source("a + b");
    assert_eq!(result, "a+b");
}

#[test]
fn test_keyword_and_identifier_merged() {
    let result = compress_source("int a = 1;");
    assert_eq!(result, "int a=1;");
}

#[test]
fn test_preproc_newline() {
    let result = compress_source("#include \"foo.h\"\nint a;");
    assert!(
        result.contains("\nint a;") || result.ends_with("\nint a;"),
        "preproc should end with \\n: got {result:?}"
    );
}

#[test]
fn test_multiple_preproc() {
    let src = "#include \"a.h\"\n#include \"b.h\"\nint x;";
    let result = compress_source(src);
    assert!(result.contains("\n#include\"b.h\"\n"), "each preproc gets \\n");
}

#[test]
fn test_define_preserves_newline() {
    let result = compress_source("#define FOO 42\nint a;");
    assert!(result.contains("\nint a;"), "define must end with newline: got {result:?}");
}

#[test]
fn test_empty_source() {
    assert_eq!(compress_source(""), "");
}

#[test]
fn test_only_comment() {
    assert_eq!(compress_source("// just a comment\n"), "");
}

#[test]
fn test_preproc_ifdef_block() {
    let src = "#ifdef FOO\nint x;\n#endif\n";
    let result = compress_source(src);
    assert!(result.contains("#endif"), "should contain #endif");
    assert!(result.contains("\n#endif"), "#endif must be on its own line: got {result:?}");
    assert!(result.contains("#ifdef FOO\n"), "#ifdef must end with a newline: got {result:?}");
}

#[test]
fn test_preproc_ifdef_body_separated() {
    let src = "#ifdef FOO\nint x;\n#endif\nint y;";
    let result = compress_source(src);
    assert!(result.starts_with("#ifdef"), "{result:?}");
    assert!(result.contains("\n#endif"), "#endif must start on own line: got {result:?}");
    assert!(
        !result.starts_with("#ifdef FOOint x;#endif"),
        "should NOT have #endif on same line as body"
    );
}

#[test]
fn test_preproc_ifdef_ifndef_adjacent() {
    let src = "#ifdef A\n#endif\n#ifdef B\n#endif\n";
    let result = compress_source(src);
    assert!(result.contains("#endif\n#ifdef"), "adjacent blocks separated: got {result:?}");
}

#[test]
fn test_preproc_if_else_endif() {
    let src = "#define FLAG 1\n#if defined(FLAG)\nint x;\n#else\nint y;\n#endif\n";
    let result = compress_source(src);
    assert!(result.contains("\n#if"), "open gets newline");
    assert!(result.contains("\n#else"), "else gets newline");
    assert!(result.contains("\n#endif"), "endif gets newline");
    assert!(result.contains("#else\nint y;"), "#else body must be on its own line: got {result:?}");
}

#[test]
fn test_defines() {
    let src = r#"
#ifndef _GUARD
#define _GUARD
#endif
#define F(op) \
    Some Actions
func();
        "#;
    let result = compress_source(src);
    println!("{result}");
    assert!(
        result.contains("Actions\nfunc"),
        "macro body and normal statement must be separated by newline: got {result:?}"
    );
    assert!(
        result.contains("#ifndef _GUARD\n#define _GUARD"),
        "#ifndef and #define must be separated: got {result:?}"
    );
}

#[test]
fn test_define_backslash_continuation() {
    let src = "#define A(b, c) \\\n    some \\\n    actions\nint main() {}\n";
    let result = compress_source(src);
    assert!(
        result.starts_with("#define A(b,c)"),
        "macro name and params must not be line-separated: got {result:?}"
    );
    assert!(!result.contains("#define A\n"), "backslash continuation must not be broken: got {result:?}");
}

#[test]
fn test_ifdef_body_compressed() {
    let src = "#ifdef FOO\nint x;\nint y;\n#endif\n";
    let result = compress_source(src);
    assert!(
        result.contains("int x;int y;"),
        "ifdef body should be compressed, not line-separated: got {result:?}"
    );
}

#[test]
fn test_preproc_if_condition() {
    let src = r#"
#if defined(__linux__)
    func1();
#endif

#if 2 > 1
    func2();
#else
    func3();
#endif
        "#;
    let result = compress_source(src);
    println!("{result}");
    assert!(
        result.starts_with(
            "#if defined(__linux__)\nfunc1();\n#endif\n#if 2>1\nfunc2();\n#else\nfunc3();\n#endif"
        ),
        "unexpected output: {result:?}"
    );
}

#[test]
fn test_ifdef_nested() {
    let src = "#ifdef A\n#ifdef B\nint x;\n#endif\n#endif\n";
    let result = compress_source(src);
    assert!(result.contains("#ifdef B\n"), "inner ifdef on own line: {result:?}");
    assert!(result.contains("\n#endif\n#endif"), "both endifs separated: {result:?}");
}

#[test]
fn test_include_guard() {
    let src = "#ifndef H\n#define H\nint code;\n#endif\n";
    let result = compress_source(src);
    assert!(result.contains("#ifndef H\n#define H"), "guard pattern: {result:?}");
}

#[test]
fn test_ifdef_ifdef_block() {
    let src = "#ifdef A\n#ifdef B\nint x;\nint y;\n#endif\n#endif\n";
    let result = compress_source(src);
    assert!(result.contains("int x;int y;"), "body compressed");
}

#[test]
fn test_empty_ifdef_body() {
    let src = "#ifdef A\n#endif\n";
    let result = compress_source(src);
    assert!(result.contains("#ifdef A\n#endif"), "endif immediately follows");
}

#[test]
fn test_preproc_then_statement() {
    let src = "#include \"h\"\nint x;\n";
    let result = compress_source(src);
    assert!(result.contains("\nint x;"), "newline between include and code");
}

#[test]
fn test_define_space_after_name() {
    let s = compress_source("#define FOO BAR\n");
    assert!(s.contains("FOO BAR"), "#define FOO BAR: {s:?}");
    let s = compress_source("#define FOO\"abc\"\n");
    assert!(s.contains("FOO \"abc\""), "#define FOO\"abc\": {s:?}");
    let s = compress_source("#define FOO (X)\n");
    assert!(s.contains("FOO (X)"), "#define FOO (X): {s:?}");
}

#[test]
fn test_define_function_like_no_false_positive() {
    let s = compress_source("#define FOO(x) ((x)+(x))\n");
    assert!(!s.contains("FOO (x)"), "function-like must not get a space: {s:?}");
    assert!(s.contains("FOO(x)"), "function-like FOO(x): {s:?}");
}

#[test]
fn test_user_defined_literal_no_space() {
    let s = compress_source("auto x = 123_km;\n");
    assert!(s.contains("123_km"), "user-defined literal broken: {s:?}");
    let s = compress_source("auto y = 1.5_deg;\n");
    assert!(s.contains("1.5_deg"), "user-defined float literal broken: {s:?}");
    let s = compress_source("auto y = 114min;\n");
    assert!(s.contains("114min"), "literal without '_' prefix broken: {s:?}");
}
