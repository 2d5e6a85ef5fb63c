use braces::{brace_paths, BraceConfig};

fn depth_assert_braces(paths: Vec<&str>, expected: &str, config: &BraceConfig) {
    let result = brace_paths(&paths, config).unwrap();
    assert_eq!(result, expected, "Bracing {:?}", paths);
}

fn depth_assert_braces_default(paths: Vec<&str>, expected: &str) {
    depth_assert_braces(paths, expected, &BraceConfig::default());
}

#[test]
fn test_depth_limit_1_with_extra_groupable() {
    let config = BraceConfig {
        max_depth: 1,
        ..Default::default()
    };
    depth_assert_braces(
        vec!["a/b/c/1", "a/b/c/2", "a/b/d/3"],
        "a/b/{c/1,c/2,d/3}",
        &config,
    );
}

#[test]
fn test_depth_limit_2_with_unused_group() {
    let config = BraceConfig {
        max_depth: 2,
        ..Default::default()
    };
    depth_assert_braces(vec!["a/b/c", "a/b/d"], "a/b/{c,d}", &config);
}

#[test]
fn test_depth_limit_2_with_max_group_at_limit() {
    let config = BraceConfig {
        max_depth: 2,
        ..Default::default()
    };
    depth_assert_braces(
        vec!["a/b/c/d", "a/b/c/e", "a/b/d/f"],
        "a/b/{c/{d,e},d/f}",
        &config,
    );
}

#[test]
fn test_depth_limit_2_with_max_group_above_limit() {
    let config = BraceConfig {
        max_depth: 2,
        ..Default::default()
    };
    depth_assert_braces(
        vec!["a/b/c/d", "a/b/c/e", "a/b/f"],
        "a/b/{c/{d,e},f}",
        &config,
    );
}

#[test]
fn test_depth_limit_exceeded() {
    let config = BraceConfig {
        max_depth: 1,
        ..Default::default()
    };
    depth_assert_braces(
        vec!["a/b/c/d", "a/b/c/e", "a/b/f/g", "a/b/f/h"],
        "a/b/{c/d,c/e,f/g,f/h}",
        &config,
    );
}

#[test]
fn depth_test_deeply_nested_paths() {
    depth_assert_braces_default(
        vec!["a/b/c/d/e/1", "a/b/c/d/e/2", "a/b/c/d/f/3"],
        "a/b/c/d/{e/{1,2},f/3}",
    );
}

#[test]
fn depth_test_mixed_depth_paths() {
    depth_assert_braces_default(vec!["a/b", "a/b/c", "a/b/c/d"], "a/b/{c/{d,},}");
}
