use lib::InstOp::{Char, Jump, Match, Split};
use lib::{compile_ast, parse_regex, Inst};

fn compile(s: &str) -> Inst {
    compile_ast(parse_regex(s))
}

#[test]
fn compile_conjunction() {
    assert_eq!(compile("abc"), vec![Char('a'), Char('b'), Char('c'), Match]);
}

#[test]
fn compile_repeat() {
    assert_eq!(
        compile("ab?c"),
        vec![Char('a'), Split(2, 3), Char('b'), Char('c'), Match]
    );
    assert_eq!(
        compile("a(xy)*c"),
        vec![
            Char('a'),
            Split(2, 5),
            Char('x'),
            Char('y'),
            Jump(1),
            Char('c'),
            Match
        ]
    );
    assert_eq!(
        compile("a(xy)+c"),
        vec![
            Char('a'),
            Char('x'),
            Char('y'),
            Split(1, 4),
            Char('c'),
            Match
        ]
    );
}

#[test]
fn compile_disjunction() {
    assert_eq!(
        compile("ab|xy|12"),
        vec![
            Split(1, 8),
            Split(2, 5),
            Char('a'),
            Char('b'),
            Jump(7),
            Char('x'),
            Char('y'),
            Jump(10),
            Char('1'),
            Char('2'),
            Match
        ]
    );
}
