use texpand::compressor::{compress, compress_stripped, CompressorState};
use texpand::expander::{expand, expand_parsed, ExpandError, ExpandOptions};
use texpand::parser::parse_source;
use texpand::resolver::FileResolver;

fn no_blanks(s: &str) -> String {
    s.chars().filter(|c| *c != ' ' && *c != '\n').collect()
}

#[test]
fn law_compression_keeps_every_token() {
    let src = "int  main ( ) {\n  // note\n  return a + b ; /* x */\n}\n";
    let tree = parse_source(src).unwrap();
    let out = compress(&tree, src);
    assert_eq!(no_blanks(&out), no_blanks("intmain(){returna+b;}"));
    assert_eq!(out, "int main(){return a+b;}");
}

#[test]
fn law_compress_stripped_drops_only_include_lines() {
    let src = "#pragma once\n#include \"a.h\"\nint x;\n";
    let tree = parse_source(src).unwrap();
    assert_eq!(compress_stripped(&tree, src), "int x;");
    assert!(compress(&tree, src).contains("#include\"a.h\""));
}

#[test]
fn law_state_steps_only_append() {
    let mut st = CompressorState::new(16);
    st.emit_token("int", false);
    let before = st.output.clone();
    st.emit_token("x", false);
    assert!(st.output.starts_with(&before));
    assert_eq!(st.output, "int x");
    st.ensure_newline();
    st.ensure_newline();
    assert_eq!(st.output, "int x\n");
    st.emit_token("#define", false);
    assert_eq!(st.output, "int x\n#define");
    st.emit_token("+", false);
    st.emit_token("y", false);
    assert_eq!(st.finish(), "int x\n#define+y");
}

struct Diamond;

impl FileResolver for Diamond {
    fn resolve(&self, _includer: &str, include_path: &str) -> Result<String, String> {
        Ok(include_path.to_string())
    }
    fn read_content(&self, path: &str) -> Result<String, String> {
        match path {
            "base.h" => Ok("int base = 0;\n".to_string()),
            "left.h" => Ok("#include \"base.h\"\nint left = base;\n".to_string()),
            "right.h" => Ok("#include \"base.h\"\nint right = base;\n".to_string()),
            _ => Err(format!("cannot read {path}")),
        }
    }
}

#[test]
fn law_each_file_once_per_context() {
    let src = "#include \"left.h\"\n#include \"right.h\"\n#include <vector>\n#include <vector>\nint main() {}\n";
    let out = expand("main.cpp", src, &Diamond, &ExpandOptions::default()).unwrap();
    assert_eq!(out.matches("int base = 0;").count(), 1);
    assert_eq!(out.matches("#include <vector>").count(), 1);
    assert_eq!(
        out,
        "int base = 0;\nint left = base;\nint right = base;\n#include <vector>\nint main() {}\n"
    );
}

#[test]
fn law_plain_file_without_includes_is_unchanged() {
    let src = "// comment\nint  x =  1;\n#define N 10\n";
    let out = expand("main.cpp", src, &Diamond, &ExpandOptions::default()).unwrap();
    assert_eq!(out, src);
}

#[test]
fn expand_read_failure_is_reported() {
    let src = "#include \"missing.h\"\n";
    match expand("main.cpp", src, &Diamond, &ExpandOptions::default()) {
        Err(ExpandError::Read(m)) => assert_eq!(m, "cannot read missing.h"),
        other => panic!("unexpected: {other:?}"),
    }
}

#[test]
fn law_compressed_expansion_keeps_text() {
    let src = "#include \"left.h\"\n// gone\n#include <vector>\nint  main ( ) { }\n";
    let out = expand("main.cpp", src, &Diamond, &ExpandOptions { compress: true }).unwrap();
    assert_eq!(
        no_blanks(&out),
        no_blanks("int base=0; int left=base; #include<vector> int main(){}")
    );
    assert!(!out.contains("gone"));
}

#[test]
fn compress_keeps_symbol_tokens_apart() {
    let src = "int c = a + +b;\nint d = a - -b;\nbool e = a & &b;\nint f = x / *p;\n";
    let tree = parse_source(src).unwrap();
    let out = compress(&tree, src);
    assert!(out.contains("a+ +b"), "{out:?}");
    assert!(out.contains("a- -b"), "{out:?}");
    assert!(out.contains("a& &b"), "{out:?}");
    assert!(out.contains("x/ *p"), "{out:?}");
    assert!(out.contains("int c=a"), "{out:?}");
}

#[test]
fn compress_hash_in_char_literal_stays_inline() {
    let src = "bool f(char c) { return c == '#'; }";
    let tree = parse_source(src).unwrap();
    assert_eq!(compress(&tree, src), "bool f(char c){return c=='#';}");
}

#[test]
fn compress_stringizing_macro_stays_on_its_line() {
    let src = "#define S(x) #x\nint a;\n";
    let tree = parse_source(src).unwrap();
    let out = compress(&tree, src);
    assert!(out.contains("#define S(x) #x\n") || out.contains("#define S(x)#x\n"), "{out:?}");
}

#[test]
fn compress_elifdef_body_on_its_own_line() {
    let src = "#ifdef A\nint x;\n#elifdef B\nint y;\n#endif\n";
    let tree = parse_source(src).unwrap();
    let out = compress(&tree, src);
    assert!(out.contains("#elifdef B\nint y;"), "{out:?}");
}

#[test]
fn expand_keeps_text_before_pragma_once() {
    let src = "// lead\n#pragma once\nint a = 1;\n";
    let out = expand("main.cpp", src, &Diamond, &ExpandOptions::default()).unwrap();
    assert_eq!(out, "// lead\nint a = 1;\n");
}

#[test]
fn expand_parsed_without_includes_succeeds() {
    let src = "int main() { return 0; }\n";
    let tree = parse_source(src).unwrap();
    let out = expand_parsed("main.cpp", src, &tree, &Diamond, &ExpandOptions::default()).unwrap();
    assert_eq!(out, src);
}

#[test]
fn emit_token_hash_starts_a_line() {
    let mut st = CompressorState::new(16);
    st.emit_token("x", false);
    st.emit_token(";", false);
    st.emit_token("#endif", false);
    assert_eq!(st.output(), "x;\n#endif");
}

#[test]
fn emit_token_hash_on_fresh_output_has_no_newline() {
    let mut st = CompressorState::new(16);
    st.emit_token("#include", false);
    assert_eq!(st.output(), "#include");
}

#[test]
fn emit_inline_token_keeps_hash_inline() {
    let mut st = CompressorState::new(16);
    st.emit_token("c", false);
    st.emit_token("==", false);
    st.emit_inline_token("'#'", false);
    assert_eq!(st.output(), "c=='#'");
}

#[test]
fn law_included_expansion_sits_between_before_and_after() {
    let src = "int x;\n#include \"left.h\"\nint y;\n";
    let out = expand("main.cpp", src, &Diamond, &ExpandOptions::default()).unwrap();
    assert_eq!(out, "int x;\nint base = 0;\nint left = base;\nint y;\n");
    let compressed = expand("main.cpp", src, &Diamond, &ExpandOptions { compress: true }).unwrap();
    let x = compressed.find("int x;").unwrap();
    let base = compressed.find("int base=0;").unwrap();
    let left = compressed.find("int left=base;").unwrap();
    let y = compressed.find("int y;").unwrap();
    assert!(x < base && base < left && left < y, "{compressed:?}");
}

struct Nowhere;

impl FileResolver for Nowhere {
    fn resolve(&self, _includer: &str, include_path: &str) -> Result<String, String> {
        Err(format!("no such file: {include_path}"))
    }
    fn read_content(&self, _path: &str) -> Result<String, String> {
        Ok(String::new())
    }
}

#[test]
fn expand_resolve_failure_carries_the_resolver_message() {
    match expand("main.cpp", "#include \"gone.h\"\nint x;\n", &Nowhere, &ExpandOptions::default()) {
        Err(ExpandError::Resolve(m)) => assert_eq!(m, "no such file: gone.h"),
        other => panic!("unexpected: {other:?}"),
    }
}
