use pnum::count_extensions;
use pnum::count_extensions_with_workers;
use pnum::error::PnumError;
use pnum::Config;

fn config(recursive: bool, ignore_hidden: bool) -> Config {
    Config { recursive, ignore_hidden, includes: vec![], excludes: vec![] }
}

fn make_file(dir: &std::path::Path, prefix: &str, suffix: &str) -> tempfile::NamedTempFile {
    tempfile::Builder::new().prefix(prefix).suffix(suffix).tempfile_in(dir).unwrap()
}

#[test]
fn nonexistent_root_is_an_invalid_path_error() {
    let cfg = config(false, false);
    let r = count_extensions("/surely/this/path/does/not/exist/anywhere", &cfg);
    assert!(matches!(r, Err(PnumError::InvalidPath(_))));
    let msg = r.unwrap_err().message();
    assert_eq!(msg, "Invalid path: /surely/this/path/does/not/exist/anywhere");
}

#[test]
fn error_messages_name_the_failure() {
    let e = PnumError::DirReadError("oops".to_string());
    assert_eq!(e.message(), "Dir read error: oops");
    let p = PnumError::InvalidPath("/tmp/x".to_string());
    assert_eq!(p.message(), "Invalid path: /tmp/x");
}

#[test]
fn a_file_is_not_a_valid_root() {
    let dir = tempfile::tempdir().unwrap();
    let f = make_file(dir.path(), "plain", ".rs");
    let r = count_extensions(f.path().to_str().unwrap(), &config(false, false));
    assert!(matches!(r, Err(PnumError::InvalidPath(_))));
}

#[test]
fn empty_directory_yields_an_empty_map() {
    let dir = tempfile::tempdir().unwrap();
    let m = count_extensions(dir.path().to_str().unwrap(), &config(false, false)).unwrap();
    assert!(m.is_empty());
    assert_eq!(m.entries().len(), 0);
}

#[test]
fn counts_by_normalized_extension_skipping_hidden() {
    let dir = tempfile::tempdir().unwrap();
    let _a = make_file(dir.path(), "a", ".rs");
    let _b = make_file(dir.path(), "b", ".RS");
    let _c = make_file(dir.path(), "c", ".toml");
    let _hidden = make_file(dir.path(), ".hidden", ".rs");
    let m = count_extensions(dir.path().to_str().unwrap(), &config(false, true)).unwrap();
    assert_eq!(m.get("rs"), 2);
    assert_eq!(m.get("toml"), 1);
    assert_eq!(m.entries().len(), 2);
}

#[test]
fn hidden_files_count_when_not_ignored() {
    let dir = tempfile::tempdir().unwrap();
    let _a = make_file(dir.path(), "a", ".rs");
    let _hidden = make_file(dir.path(), ".hidden", ".rs");
    let m = count_extensions(dir.path().to_str().unwrap(), &config(false, false)).unwrap();
    assert_eq!(m.get("rs"), 2);
}

#[test]
fn inclusion_list_restricts_the_counted_extensions() {
    let dir = tempfile::tempdir().unwrap();
    let _a = make_file(dir.path(), "a", ".rs");
    let _b = make_file(dir.path(), "b", ".RS");
    let _c = make_file(dir.path(), "c", ".toml");
    let _hidden = make_file(dir.path(), ".hidden", ".rs");
    let mut cfg = config(false, true);
    cfg.includes = vec!["toml".to_string()];
    let m = count_extensions(dir.path().to_str().unwrap(), &cfg).unwrap();
    assert_eq!(m.get("toml"), 1);
    assert_eq!(m.get("rs"), 0);
    assert_eq!(m.entries().len(), 1);
}

#[test]
fn excluded_extensions_are_never_counted_even_when_included() {
    let dir = tempfile::tempdir().unwrap();
    let _a = make_file(dir.path(), "a", ".rs");
    let _c = make_file(dir.path(), "c", ".toml");
    let mut cfg = config(false, false);
    cfg.includes = vec!["rs".to_string(), "toml".to_string()];
    cfg.excludes = vec!["rs".to_string()];
    let m = count_extensions(dir.path().to_str().unwrap(), &cfg).unwrap();
    assert_eq!(m.get("rs"), 0);
    assert_eq!(m.get("toml"), 1);
}

#[test]
fn non_recursive_scan_counts_only_direct_children() {
    let dir = tempfile::tempdir().unwrap();
    let _a = make_file(dir.path(), "top", ".rs");
    let sub = tempfile::Builder::new().prefix("sub").tempdir_in(dir.path()).unwrap();
    let _b = make_file(sub.path(), "deep1", ".rs");
    let _c = make_file(sub.path(), "deep2", ".rs");
    let flat = count_extensions(dir.path().to_str().unwrap(), &config(false, false)).unwrap();
    assert_eq!(flat.get("rs"), 1);
    let deep = count_extensions(dir.path().to_str().unwrap(), &config(true, false)).unwrap();
    assert_eq!(deep.get("rs"), 3);
}

#[test]
fn worker_count_does_not_change_a_scan() {
    let dir = tempfile::tempdir().unwrap();
    let _a = make_file(dir.path(), "a", ".rs");
    let _b = make_file(dir.path(), "b", ".rs");
    let _c = make_file(dir.path(), "c", ".toml");
    let path = dir.path().to_str().unwrap().to_string();
    let one = count_extensions_with_workers(&path, &config(false, false), 1).unwrap();
    let eight = count_extensions_with_workers(&path, &config(false, false), 8).unwrap();
    assert_eq!(one.get("rs"), 2);
    assert_eq!(eight.get("rs"), 2);
    assert_eq!(one.get("toml"), eight.get("toml"));
    assert_eq!(one.entries().len(), eight.entries().len());
}

#[test]
fn files_without_extension_are_dropped_silently() {
    let dir = tempfile::tempdir().unwrap();
    let _a = make_file(dir.path(), "noext", "");
    let _b = make_file(dir.path(), "code", ".rs");
    let m = count_extensions(dir.path().to_str().unwrap(), &config(false, false)).unwrap();
    assert_eq!(m.get("rs"), 1);
    assert_eq!(m.entries().len(), 1);
}
