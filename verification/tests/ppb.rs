use braces::pretty_braces;

#[test]
fn test_simple_braces() {
    let input = "{a,b,c}";
    assert_eq!(pretty_braces(input), "{\n a,\n b,\n c\n}");
}

#[test]
fn ppb_test_nested_braces() {
    let input = "foo/{bar,baz/{qux,quux}}";
    assert_eq!(
        pretty_braces(input),
        "foo/{\n     bar,\n     baz/{\n          qux,\n          quux\n         }\n    }"
    );
}

#[test]
fn ppb_test_empty_braces() {
    let input = "a/{}";
    assert_eq!(pretty_braces(input), "a/{\n  }");
}

#[test]
fn test_multiple_levels() {
    let input = "{a/{b,c},d/{e/{f,g},h}}";
    assert_eq!(
        pretty_braces(input),
        "{\n a/{\n    b,\n    c\n   }\n ,\n d/{\n    e/{\n       f,\n       g\n      }\n    ,\n    h\n   }\n}"
    );
}

#[test]
fn ppb_test_no_braces() {
    let input = "simple/path/file.txt";
    assert_eq!(pretty_braces(input), "simple/path/file.txt");
}
