use integ::paths::{join_path, last_nonempty_line, local_folder_name, repo_folder_name};
use integ::patch::{patch_expression, sed_substitution};

#[test]
fn repo_folder_name_strips_host_and_extension() {
    assert_eq!(repo_folder_name("https://example.com/owner/thing.git"), "thing");
    assert_eq!(repo_folder_name("git@host:x/thing.git"), "thing");
    assert_eq!(repo_folder_name("https://example.com/owner/thing"), "thing");
    assert_eq!(repo_folder_name("thing.git"), "thing");
}

#[test]
fn local_folder_name_keeps_the_last_segment() {
    assert_eq!(local_folder_name("/home/user/project"), "project");
    assert_eq!(local_folder_name("project"), "project");
    assert_eq!(local_folder_name("/trailing/slash/"), "");
}

#[test]
fn join_path_inserts_one_separator() {
    assert_eq!(join_path("/out", "thing"), "/out/thing");
    assert_eq!(join_path("rel", "name.tgz"), "rel/name.tgz");
}

#[test]
fn last_nonempty_line_skips_trailing_newlines() {
    assert_eq!(last_nonempty_line("one\ntwo\nthree\n"), Some(String::from("three")));
    assert_eq!(last_nonempty_line("one\ntwo\n\n\n"), Some(String::from("two")));
    assert_eq!(last_nonempty_line("single"), Some(String::from("single")));
    assert_eq!(last_nonempty_line(""), None);
    assert_eq!(last_nonempty_line("\n\n"), None);
}

#[test]
fn sed_substitution_matches_the_manifest_pin_format() {
    assert_eq!(
        sed_substitution("common", "../common.tgz"),
        r#"s%"common": "[^"]*"%"common": "../common.tgz"%"#
    );
}

#[test]
fn patch_expression_uses_the_relative_artifact_path() {
    let r = patch_expression("common", "/work/common/common.tgz", "/work/app").unwrap();
    assert_eq!(r, r#"s%"common": "[^"]*"%"common": "../common/common.tgz"%"#);
}

#[test]
fn patch_expression_fails_without_a_relative_path() {
    // a relative target cannot be expressed relative to an absolute base
    assert_eq!(patch_expression("common", "common.tgz", "/work/app"), None);
}
