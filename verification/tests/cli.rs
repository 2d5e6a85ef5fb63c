use braces::highlight::highlight_braces;

#[test]
fn test_single_brace_group() {
    let input = "{a,b,c}";
    let output = highlight_braces(input);
    assert_eq!(
        output,
        "\u{1b}[36m{\u{1b}[39ma\u{1b}[36m,\u{1b}[39mb\u{1b}[36m,\u{1b}[39mc\u{1b}[36m}\u{1b}[39m"
    );
}

#[test]
fn cli_test_nested_braces() {
    let input = "a/{b/{c,d},e}";
    let output = highlight_braces(input);
    assert_eq!(
        output,
        "a/\u{1b}[36m{\u{1b}[39mb/\u{1b}[33m{\u{1b}[39mc\u{1b}[33m,\u{1b}[39md\u{1b}[33m}\u{1b}[39m\u{1b}[36m,\u{1b}[39me\u{1b}[36m}\u{1b}[39m"
    );
}

#[test]
fn test_cycling_colors() {
    let input = "{a,{b,{c,{d,{e,{f,g}}}}}}";
    let output = highlight_braces(input);
    assert_eq!(
        output,
        "\u{1b}[36m{\u{1b}[39ma\u{1b}[36m,\u{1b}[39m\u{1b}[33m{\u{1b}[39mb\u{1b}[33m,\u{1b}[39m\u{1b}[35m{\u{1b}[39mc\u{1b}[35m,\u{1b}[39m\u{1b}[32m{\u{1b}[39md\u{1b}[32m,\u{1b}[39m\u{1b}[34m{\u{1b}[39me\u{1b}[34m,\u{1b}[39m\u{1b}[36m{\u{1b}[39mf\u{1b}[36m,\u{1b}[39mg\u{1b}[36m}\u{1b}[39m\u{1b}[34m}\u{1b}[39m\u{1b}[32m}\u{1b}[39m\u{1b}[35m}\u{1b}[39m\u{1b}[33m}\u{1b}[39m\u{1b}[36m}\u{1b}[39m"
    );
}

#[test]
fn test_comma_coloring() {
    let input = "{a,b,c}";
    let output = highlight_braces(input);
    assert_eq!(
        output,
        "\u{1b}[36m{\u{1b}[39ma\u{1b}[36m,\u{1b}[39mb\u{1b}[36m,\u{1b}[39mc\u{1b}[36m}\u{1b}[39m"
    );
}

#[test]
fn cli_test_no_braces() {
    let input = "plain/text/path";
    let output = highlight_braces(input);
    assert_eq!(
        output,
        "plain/text/path"
    );
}

#[test]
fn cli_test_empty_braces() {
    let input = "a/b{,/c}";
    let output = highlight_braces(input);
    assert_eq!(
        output,
        "a/b\u{1b}[36m{\u{1b}[39m\u{1b}[36m,\u{1b}[39m/c\u{1b}[36m}\u{1b}[39m"
    );
}

#[test]
fn test_multiple_groups() {
    let input = "{a,b}/{c,d}";
    let output = highlight_braces(input);
    assert_eq!(
        output,
        "\u{1b}[36m{\u{1b}[39ma\u{1b}[36m,\u{1b}[39mb\u{1b}[36m}\u{1b}[39m/\u{1b}[36m{\u{1b}[39mc\u{1b}[36m,\u{1b}[39md\u{1b}[36m}\u{1b}[39m"
    );
}

#[test]
fn test_unbalanced_braces_open() {
    let input = "{a,b";
    let output = highlight_braces(input);
    assert_eq!(
        output,
        "\u{1b}[36m{\u{1b}[39ma\u{1b}[36m,\u{1b}[39mb"
    );
}

#[test]
fn test_unbalanced_braces_close() {
    let input = "a,b}";
    let output = highlight_braces(input);
    assert_eq!(
        output,
        "a,b\u{1b}[36m}\u{1b}[39m"
    );
}

#[test]
fn test_complex_real_world() {
    let input = "src/{lib,main,{util/{mod,helpers},tests/{unit,integration}}}.rs";
    let output = highlight_braces(input);
    assert_eq!(
        output,
        "src/\u{1b}[36m{\u{1b}[39mlib\u{1b}[36m,\u{1b}[39mmain\u{1b}[36m,\u{1b}[39m\u{1b}[33m{\u{1b}[39mutil/\u{1b}[35m{\u{1b}[39mmod\u{1b}[35m,\u{1b}[39mhelpers\u{1b}[35m}\u{1b}[39m\u{1b}[33m,\u{1b}[39mtests/\u{1b}[35m{\u{1b}[39munit\u{1b}[35m,\u{1b}[39mintegration\u{1b}[35m}\u{1b}[39m\u{1b}[33m}\u{1b}[39m\u{1b}[36m}\u{1b}[39m.rs"
    );
}

#[test]
fn test_triple_nesting() {
    let input = "{a/{b/{c,d},e},f}";
    let output = highlight_braces(input);
    assert_eq!(
        output,
        "\u{1b}[36m{\u{1b}[39ma/\u{1b}[33m{\u{1b}[39mb/\u{1b}[35m{\u{1b}[39mc\u{1b}[35m,\u{1b}[39md\u{1b}[35m}\u{1b}[39m\u{1b}[33m,\u{1b}[39me\u{1b}[33m}\u{1b}[39m\u{1b}[36m,\u{1b}[39mf\u{1b}[36m}\u{1b}[39m"
    );
}

#[test]
fn test_empty_string() {
    let input = "";
    let output = highlight_braces(input);
    assert_eq!(
        output,
        ""
    );
}

#[test]
fn test_only_braces() {
    let input = "{}";
    let output = highlight_braces(input);
    assert_eq!(
        output,
        "\u{1b}[36m{\u{1b}[39m\u{1b}[36m}\u{1b}[39m"
    );
}
