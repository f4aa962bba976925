use lib::{compile_ast, do_match, parse_regex};

fn test_match(regex: &str, text: &str) {
    let inst = compile_ast(parse_regex(regex));
    assert_eq!(
        do_match(&inst, text.to_string()),
        true,
        "Should match: (regex, text) = ({}, {})",
        regex,
        text
    );
}

fn test_not_match(regex: &str, text: &str) {
    let inst = compile_ast(parse_regex(regex));
    assert_eq!(
        do_match(&inst, text.to_string()),
        false,
        "Should NOT match: (regex, text) = ({}, {})",
        regex,
        text
    );
}

#[test]
fn test_match_only_chars() {
    test_match("abc", "abc");
    test_match("a", "abc");
    test_match("bc", "abc");

    test_not_match("xyz", "abc");
    test_not_match("ax", "abc");
    test_not_match("xbc", "abc");
}

#[test]
fn test_match_with_repeat_at_most_one() {
    test_match("ab?c", "ac");
    test_match("ab?c", "abc");
    test_match("ab?c", "xacx");
    test_match("(ab)?c", "c");

    test_not_match("ab?c", "abbc");
    test_not_match("^(axb)?c", "abc");
    test_not_match("^(ab)?c", "ac");
}

#[test]
fn test_match_with_repeat_at_least_one() {
    test_match("ab+c", "abc");
    test_match("ab+c", "abbbbc");
    test_match("(ab)+c", "abababc");

    test_not_match("ab+c", "ac");
    test_not_match("(ab)+c", "ac");
    test_not_match("(axb)+c", "abc");
}

#[test]
fn test_match_with_repeat_any() {
    test_match("ab*c", "ac");
    test_match("ab*c", "abc");
    test_match("ab*c", "abbbbc");
    test_match("(ab)*c", "abababc");

    test_not_match("(ab)*c", "axb");
    test_not_match("^(axb)*c", "abc");
}

#[test]
fn test_match_head() {
    test_match("^a", "a");
    test_match("^a", "ab");
    test_not_match("^a", "ba");
}

#[test]
fn test_tail() {
    test_match("a$", "a");
    test_match("a$", "xxxa");
    test_not_match("a$", "xax");
    test_not_match("a$b", "ab");
}

#[test]
fn test_match_complex_regex() {
    test_match("(a?b)*c", "c");
    test_match("(a?b)*c", "bc");
    test_match("(a?b)*c", "abc");
    test_match("(a?b)*c", "abbc");
    test_match("(a?b)*c", "babbabc");
    test_match("@(x.*y)*@", "@xyxayxABCy@");
}
