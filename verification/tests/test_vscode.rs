use texpand::expander::ExpandError;
use texpand::parser::ParseError;
use texpand::vscode::{compress_requested, expand, failure, parse_include_list, report};

#[test]
fn vscode_expand_labels_the_source() {
    assert_eq!(expand("int x;"), "expanded: int x;");
    assert_eq!(expand(""), "expanded: ");
}

#[test]
fn vscode_include_list_drops_empty_pieces() {
    assert_eq!(parse_include_list("a,,b,"), vec!["a".to_string(), "b".to_string()]);
    assert!(parse_include_list("").is_empty());
    assert!(parse_include_list(",,").is_empty());
    assert_eq!(parse_include_list("/inc/dir"), vec!["/inc/dir".to_string()]);
}

#[test]
fn vscode_compress_only_on_true() {
    assert!(compress_requested(Some("true")));
    assert!(!compress_requested(Some("True")));
    assert!(!compress_requested(Some("1")));
    assert!(!compress_requested(None));
}

#[test]
fn vscode_report_success() {
    let r = report(Ok("int a;".to_string()));
    assert!(r.success);
    assert_eq!(r.data.as_deref(), Some("int a;"));
    assert!(r.error.is_none());
}

#[test]
fn vscode_report_failure_carries_message() {
    let r = report(Err(ExpandError::Resolve("include file not found: x.h".to_string())));
    assert!(!r.success);
    assert!(r.data.is_none());
    assert_eq!(r.error.as_deref(), Some("include file not found: x.h"));
    let f = failure("TEXPAND_ENTRY_PATH not set".to_string());
    assert!(!f.success && f.data.is_none());
    assert_eq!(f.error.as_deref(), Some("TEXPAND_ENTRY_PATH not set"));
}

#[test]
fn error_messages_name_their_cause() {
    let c = ExpandError::Circular(vec!["a.h".to_string(), "b.h".to_string(), "a.h".to_string()]);
    assert_eq!(c.message(), "circular dependency detected: a.h -> b.h -> a.h");
    assert_eq!(ExpandError::Read("failed to read content".to_string()).message(), "failed to read content");
    assert_eq!(ExpandError::TooDeep.message(), "include chain too deep");
    assert_eq!(ExpandError::Parse(ParseError::NoTree).message(), "failed to parse source");
    assert_eq!(ParseError::LanguageUnavailable.message(), "failed to set C++ language");
}
