use pnum::normalize::normalize_ext;
use pnum::ext::extension_of;

#[test]
fn normalize_case_and_format_variants_collapse() {
    assert_eq!(normalize_ext("rs"), "rs");
    assert_eq!(normalize_ext("RS"), "rs");
    assert_eq!(normalize_ext(".RS"), "rs");
    assert_eq!(normalize_ext(" .Rs "), "rs");
    assert_eq!(normalize_ext("\t.rS\n"), "rs");
}

#[test]
fn normalize_is_idempotent_on_ordinary_tokens() {
    for raw in [" .TOML ", "Rs", ".c", "tar", "", " . ", "a.b"] {
        let once = normalize_ext(raw);
        let twice = normalize_ext(once.as_str());
        assert_eq!(once, twice);
    }
}

#[test]
fn normalize_trims_any_unicode_whitespace() {
    assert_eq!(normalize_ext("\u{000B}rs"), "rs");
    assert_eq!(normalize_ext("\u{00A0}.RS\u{3000}"), "rs");
    assert_eq!(normalize_ext("\u{2003}\u{0085}toml\u{202F}"), "toml");
    assert_eq!(normalize_ext("\u{000B}rs"), normalize_ext("rs"));
}

#[test]
fn normalize_strips_a_single_leading_dot() {
    assert_eq!(normalize_ext("..rs"), ".rs");
    assert_eq!(normalize_ext(".rs"), "rs");
    assert_eq!(normalize_ext("."), "");
    assert_eq!(normalize_ext("  "), "");
}

#[test]
fn normalize_keeps_inner_whitespace_and_non_ascii() {
    assert_eq!(normalize_ext("a b"), "a b");
    assert_eq!(normalize_ext("Tar.GZ"), "tar.gz");
    assert_eq!(normalize_ext("ÄRS"), "Ärs");
}

#[test]
fn extension_of_splits_at_the_last_dot() {
    assert_eq!(extension_of("a.rs"), Some("rs".to_string()));
    assert_eq!(extension_of("archive.tar.gz"), Some("gz".to_string()));
    assert_eq!(extension_of("a."), Some("".to_string()));
    assert_eq!(extension_of("..rs"), Some("rs".to_string()));
}

#[test]
fn extension_of_dotfiles_and_plain_names_have_none() {
    assert_eq!(extension_of(".hidden"), None);
    assert_eq!(extension_of("Makefile"), None);
    assert_eq!(extension_of(""), None);
    assert_eq!(extension_of(".hidden.rs"), Some("rs".to_string()));
}
