use lib::parse_regex;
use lib::Ast::{AnyChar, Char, Conj, Disj, Empty, Repeat};

#[test]
fn parse_single_char() {
    assert_eq!(Char('a'), parse_regex("a"));
    assert_eq!(AnyChar, parse_regex("."));
}

#[test]
fn parse_regex_with_question() {
    let new = Box::new;
    assert_eq!(
        Conj(
            new(Conj(
                new(Char('a')),
                new(Repeat(new(Char('b')), Some(0), Some(1)))
            )),
            new(Char('c'))
        ),
        parse_regex("ab?c")
    )
}

#[test]
fn parse_escaped_char() {
    assert_eq!(Char('.'), parse_regex("\\."));
    assert_eq!(Char('('), parse_regex("\\("));
    assert_eq!(Char(')'), parse_regex("\\)"));
}

#[test]
fn parse_regex_with_branch() {
    let new = Box::new;
    assert_eq!(
        Disj(
            new(Conj(new(Char('a')), new(Char('b')))),
            new(Conj(new(Char('x')), new(Char('y'))))
        ),
        parse_regex("ab|xy")
    );
    assert_eq!(
        Disj(new(Empty), new(Conj(new(Char('a')), new(Char('b'))))),
        parse_regex("|ab")
    );
    assert_eq!(
        Disj(
            new(Disj(new(Disj(new(Char('a')), new(Char('b')))), new(Empty))),
            new(Char('c'))
        ),
        parse_regex("a|b||c")
    );
}
