use promptpath::context::expand_home_alias;
use promptpath::context::ResolverContext;
use promptpath::path_text::strip_leading_slashes;
use promptpath::path_text::strip_trailing_slashes;
use promptpath::resolve::collapse_code_alias;
use promptpath::resolve::collapse_home_alias;
use promptpath::resolve::collapse_project_alias;

#[test]
fn expand_home_alias_cases() {
    assert_eq!(expand_home_alias("/home/u", "~/code/x"), "/home/u/code/x");
    assert_eq!(expand_home_alias("/home/u", "/opt/x"), "/opt/x");
    assert_eq!(expand_home_alias("/home/u", "relative"), "relative");
    assert_eq!(expand_home_alias("/home/u/", "~/code"), "/home/u/code");
    assert_eq!(expand_home_alias("/home/u", "~/"), "/home/u/");
}

#[test]
fn collapse_home_alias_cases() {
    assert_eq!(collapse_home_alias("/home/u", "/home/u/a/b"), "~/a/b");
    assert_eq!(collapse_home_alias("/home/u", "/home/u"), "~/");
    assert_eq!(collapse_home_alias("/home/u", "/home/u/a/"), "~/a");
    assert_eq!(collapse_home_alias("/home/u", "/home/uv"), "/home/uv");
    assert_eq!(collapse_home_alias("/home/u", "/var"), "/var");
}

#[test]
fn collapse_project_alias_cases() {
    let ctx = ResolverContext::new(
        String::from("/home/u"),
        vec![(String::from("~/w"), String::from("w"))],
    );
    assert_eq!(
        collapse_project_alias(&ctx, "/home/u/w/deep", String::from("~/w/deep")),
        "w/deep"
    );
    assert_eq!(
        collapse_project_alias(&ctx, "/home/u/other", String::from("~/other")),
        "~/other"
    );
}

#[test]
fn collapse_code_alias_cases() {
    assert_eq!(collapse_code_alias(String::from("~/code")), "code");
    assert_eq!(collapse_code_alias(String::from("~/code/a")), "a");
    assert_eq!(collapse_code_alias(String::from("~/code///a")), "a");
    assert_eq!(collapse_code_alias(String::from("~/code2/a")), "~/code2/a");
    assert_eq!(collapse_code_alias(String::from("~/data")), "~/data");
    assert_eq!(collapse_code_alias(String::from("/code/a")), "/code/a");
}

#[test]
fn strip_slashes_cases() {
    assert_eq!(strip_trailing_slashes(String::from("/a/b///")), "/a/b");
    assert_eq!(strip_trailing_slashes(String::from("/")), "/");
    assert_eq!(strip_trailing_slashes(String::from("//")), "");
    assert_eq!(strip_trailing_slashes(String::from("abc")), "abc");
    assert_eq!(strip_leading_slashes(String::from("///a/b")), "a/b");
    assert_eq!(strip_leading_slashes(String::from("/")), "/");
    assert_eq!(strip_leading_slashes(String::from("//")), "");
    assert_eq!(strip_leading_slashes(String::from("abc")), "abc");
}
