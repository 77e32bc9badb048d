use texpand::cli::{first_found, not_found_message, FsResolver};
use texpand::config::{choose_settings, TexpandConfig};

fn strings(v: &[&str]) -> Vec<String> {
    v.iter().map(|s| s.to_string()).collect()
}

#[test]
fn config_default_is_empty_and_uncompressed() {
    let c = TexpandConfig::default();
    assert!(c.include_paths.is_empty());
    assert!(!c.default_compress);
}

#[test]
fn settings_cli_paths_replace_config_paths() {
    let config = TexpandConfig { include_paths: strings(&["./templates"]), default_compress: true };
    let s = choose_settings(strings(&["./a", "./b"]), false, false, config);
    assert_eq!(s.include_paths, strings(&["./a", "./b"]));
    assert!(s.compress);
}

#[test]
fn settings_config_paths_used_without_cli_paths() {
    let config = TexpandConfig { include_paths: strings(&["./templates", "~/lib"]), default_compress: false };
    let s = choose_settings(Vec::new(), false, false, config);
    assert_eq!(s.include_paths, strings(&["./templates", "~/lib"]));
    assert!(!s.compress);
}

#[test]
fn settings_compress_flags_override_config() {
    let on = choose_settings(Vec::new(), true, false, TexpandConfig::default());
    assert!(on.compress);
    let config = TexpandConfig { include_paths: Vec::new(), default_compress: true };
    let off = choose_settings(Vec::new(), false, true, config);
    assert!(!off.compress);
}

#[test]
fn resolver_keeps_its_paths() {
    let r = FsResolver::new(strings(&["/x", "/y"]));
    assert_eq!(r.include_paths, strings(&["/x", "/y"]));
}

#[test]
fn resolver_searches_source_dir_first() {
    let r = FsResolver::for_source_dir("/src".to_string(), strings(&["/inc"]));
    assert_eq!(r.include_paths, strings(&["/src", "/inc"]));
    assert_eq!(r.search_dirs(Some("/here")), strings(&["/here", "/src", "/inc"]));
    assert_eq!(r.search_dirs(None), strings(&["/src", "/inc"]));
}

#[test]
fn first_found_picks_the_first_existing_candidate() {
    assert_eq!(first_found(&vec![false, true, true]), Some(1));
    assert_eq!(first_found(&vec![false, false]), None);
    assert_eq!(first_found(&Vec::new()), None);
    assert_eq!(not_found_message("x.h"), "include file not found: x.h");
}
