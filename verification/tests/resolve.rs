use promptpath::context::ResolverContext;
use promptpath::resolve::get_nickname;

#[derive(Debug)]
struct PathTest {
    input: String,
    expected: String,
    description: &'static str,
}

fn setup_test_context() -> ResolverContext {
    ResolverContext::new(
        String::from("/Users/tcrypt"),
        vec![(
            String::from("~/code/github.com/tyler-smith/promptpath"),
            String::from("promptpath"),
        )],
    )
}

#[test]
fn test_paths() {
    let test_cases = vec![
        PathTest {
            input: "/".into(),
            expected: "/".into(),
            description: "Root directory",
        },
        PathTest {
            input: "/Users".into(),
            expected: "/Users".into(),
            description: "Users directory",
        },
        PathTest {
            input: "/Users/tcrypt".into(),
            expected: "~".into(),
            description: "Home directory",
        },
        PathTest {
            input: "/Users/tcrypt/data".into(),
            expected: "~/data".into(),
            description: "Directory in home",
        },
        PathTest {
            input: "/Users/tcrypt/data/images".into(),
            expected: "~/data/images".into(),
            description: "Nested directory in home",
        },
        PathTest {
            input: "/Users/tcrypt/code".into(),
            expected: "code".into(),
            description: "Code root directory",
        },
        PathTest {
            input: "/Users/tcrypt/code/github.com".into(),
            expected: "github.com".into(),
            description: "Github directory",
        },
        PathTest {
            input: "/Users/tcrypt/code/github.com/go-bip39".into(),
            expected: "github.com/go-bip39".into(),
            description: "Regular project directory",
        },
        PathTest {
            input: "/Users/tcrypt/code/github.com/tyler-smith/promptpath".into(),
            expected: "promptpath".into(),
            description: "Mapped project directory",
        },
        PathTest {
            input: "/usr/bin".into(),
            expected: "/usr/bin".into(),
            description: "System directory",
        },
        PathTest {
            input: "/Users/tcrypt/code/github.com/tyler-smith/promptpath/src".into(),
            expected: "promptpath/src".into(),
            description: "Subdirectory of mapped project",
        },
        PathTest {
            input: "/Users/other_user".into(),
            expected: "/Users/other_user".into(),
            description: "Other user's home directory",
        },
    ];

    let ctx = setup_test_context();
    for test in test_cases {
        // Test path
        let result = get_nickname(&ctx, test.input.clone());
        assert_eq!(
            result, test.expected,
            "Failed test '{}': expected '{}', got '{}'",
            test.description, test.expected, result
        );

        // Test path with a trailing slash
        if test.input != "/" {
            let with_slash = format!("{}/", test.input);
            let result = get_nickname(&ctx, with_slash);
            assert_eq!(
                result, test.expected,
                "Failed test '{}': expected '{}', got '{}'",
                test.description, test.expected, result
            );
        }
    }
}

#[test]
fn home_and_root_labels() {
    let ctx = setup_test_context();
    assert_eq!(get_nickname(&ctx, String::from("/Users/tcrypt")), "~");
    assert_eq!(get_nickname(&ctx, String::from("/Users/tcrypt///")), "~");
    assert_eq!(get_nickname(&ctx, String::from("/")), "/");
    assert_eq!(get_nickname(&ctx, String::from("//")), "/");
}

#[test]
fn longest_match_wins_on_nested_roots() {
    let ctx = ResolverContext::new(
        String::from("/home/u"),
        vec![
            (String::from("~/code/github.com/org"), String::from("org")),
            (
                String::from("~/code/github.com/org/repo"),
                String::from("repo"),
            ),
        ],
    );
    assert_eq!(
        get_nickname(&ctx, String::from("/home/u/code/github.com/org/repo/src")),
        "repo/src"
    );
    assert_eq!(
        get_nickname(&ctx, String::from("/home/u/code/github.com/org/repo")),
        "repo"
    );
    // The shallower root still applies outside the deeper one.
    assert_eq!(
        get_nickname(&ctx, String::from("/home/u/code/github.com/org/other")),
        "org/other"
    );
}

#[test]
fn longest_match_order_irrelevant() {
    let ctx = ResolverContext::new(
        String::from("/home/u"),
        vec![
            (
                String::from("~/code/github.com/org/repo"),
                String::from("repo"),
            ),
            (String::from("~/code/github.com/org"), String::from("org")),
        ],
    );
    assert_eq!(
        get_nickname(&ctx, String::from("/home/u/code/github.com/org/repo/src")),
        "repo/src"
    );
}

#[test]
fn code_sibling_is_not_collapsed() {
    let ctx = ResolverContext::new(String::from("/Users/tcrypt"), vec![]);
    assert_eq!(
        get_nickname(&ctx, String::from("/Users/tcrypt/code2")),
        "~/code2"
    );
    assert_eq!(
        get_nickname(&ctx, String::from("/Users/tcrypt/code2/project")),
        "~/code2/project"
    );
}

#[test]
fn passthrough_outside_everything() {
    let ctx = setup_test_context();
    assert_eq!(get_nickname(&ctx, String::from("/var/log")), "/var/log");
    assert_eq!(get_nickname(&ctx, String::from("/var/log///")), "/var/log");
}

#[test]
fn component_boundary_guards_project_match() {
    // A mapping for /a/b must not catch /a/bc.
    let ctx = ResolverContext::new(
        String::from("/home/u"),
        vec![(String::from("/a/b"), String::from("bee"))],
    );
    assert_eq!(get_nickname(&ctx, String::from("/a/bc")), "/a/bc");
    assert_eq!(get_nickname(&ctx, String::from("/a/b/c")), "bee/c");
    assert_eq!(get_nickname(&ctx, String::from("/a/b")), "bee");
}

#[test]
fn project_replacement_takes_first_occurrence() {
    // The mapped text repeats inside the path; only the leading
    // occurrence is replaced.
    let ctx = ResolverContext::new(
        String::from("/home/u"),
        vec![(String::from("/x"), String::from("y"))],
    );
    assert_eq!(get_nickname(&ctx, String::from("/x/x")), "y/x");
}

#[test]
fn no_mappings_home_still_collapses() {
    let ctx = ResolverContext::new(String::from("/home/u"), vec![]);
    assert_eq!(get_nickname(&ctx, String::from("/home/u/docs")), "~/docs");
    assert_eq!(get_nickname(&ctx, String::from("/home/u/code/x")), "x");
    assert_eq!(get_nickname(&ctx, String::from("/home/u/code")), "code");
}

#[test]
fn code_root_repeated_separators_collapse() {
    let ctx = ResolverContext::new(String::from("/home/u"), vec![]);
    // Home collapsing consumes the extra separators before the remainder,
    // so the code rule sees a clean form either way.
    assert_eq!(get_nickname(&ctx, String::from("/home/u/code/a/b")), "a/b");
}
