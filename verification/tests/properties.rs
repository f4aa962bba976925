use lib::InstOp::{AnyChar, Char, Jump, Match, PositionHead, PositionTail, Split};
use lib::{
    compile_ast, compile_ast_sub, do_match, parse_regex, shift_jump_index, try_parse_regex, Ast,
    ParseError, VM,
};

fn search(regex: &str, text: &str) -> bool {
    let inst = compile_ast(parse_regex(regex));
    do_match(&inst, text.to_string())
}

#[test]
fn parse_reports_unmatched_open() {
    assert_eq!(try_parse_regex("a(xyz"), Err(ParseError::UnmatchedOpen));
    assert_eq!(try_parse_regex("("), Err(ParseError::UnmatchedOpen));
}

#[test]
fn parse_reports_unmatched_close() {
    assert_eq!(try_parse_regex("abc)"), Err(ParseError::UnmatchedClose));
    assert_eq!(try_parse_regex(")"), Err(ParseError::UnmatchedClose));
}

#[test]
fn parse_reports_invalid_escape() {
    assert_eq!(try_parse_regex("\\a"), Err(ParseError::InvalidEscape('a')));
    assert_eq!(try_parse_regex("x\\*"), Err(ParseError::InvalidEscape('*')));
}

#[test]
fn parse_trailing_backslash_is_literal() {
    assert_eq!(
        try_parse_regex("a\\"),
        Ok(Ast::Conj(Box::new(Ast::Char('a')), Box::new(Ast::Char('\\'))))
    );
}

#[test]
fn parse_empty_group_and_empty_pattern() {
    assert_eq!(parse_regex(""), Ast::Empty);
    assert_eq!(parse_regex("()a"), Ast::Char('a'));
    assert_eq!(
        parse_regex("a()"),
        Ast::Conj(Box::new(Ast::Char('a')), Box::new(Ast::Empty))
    );
}

#[test]
fn parse_operator_without_atom_repeats_empty() {
    assert_eq!(
        parse_regex("a**"),
        Ast::Conj(
            Box::new(Ast::Repeat(Box::new(Ast::Char('a')), None, None)),
            Box::new(Ast::Repeat(Box::new(Ast::Empty), None, None))
        )
    );
}

#[test]
fn parse_anchors() {
    assert_eq!(
        parse_regex("^a$"),
        Ast::Conj(
            Box::new(Ast::Conj(Box::new(Ast::Head), Box::new(Ast::Char('a')))),
            Box::new(Ast::Tail)
        )
    );
}

#[test]
fn compile_anchors_and_any() {
    assert_eq!(
        compile_ast(parse_regex("^.$")),
        vec![PositionHead, AnyChar, PositionTail, Match]
    );
}

#[test]
fn compile_sub_places_code_after_existing() {
    let ast = Ast::Disj(Box::new(Ast::Char('a')), Box::new(Ast::Char('b')));
    let inst = compile_ast_sub(ast, vec![Char('x'), Char('y')]);
    assert_eq!(
        inst,
        vec![Char('x'), Char('y'), Split(3, 5), Char('a'), Jump(6), Char('b')]
    );
}

#[test]
fn compile_empty_is_match_only() {
    assert_eq!(compile_ast(Ast::Empty), vec![Match]);
}

#[test]
fn shift_moves_only_targets() {
    let inst = vec![Jump(1), Split(0, 2), Char('a'), Match];
    assert_eq!(
        shift_jump_index(inst, 3),
        vec![Jump(4), Split(3, 5), Char('a'), Match]
    );
}

#[test]
fn empty_text_never_matches() {
    assert!(!search("", ""));
    assert!(!search("a*", ""));
}

#[test]
fn match_starts_before_the_end() {
    assert!(!search("$", "a"));
    assert!(search("a$", "ba"));
    assert!(search("", "a"));
}

#[test]
fn head_only_at_start() {
    assert!(!search("x^", "x"));
    assert!(search("^x|y", "zy"));
}

#[test]
fn alternatives_and_any_char() {
    assert!(search("a.c", "xabcx"));
    assert!(!search("a.c", "ac"));
    assert!(search("(cat|dog)s?", "hotdog"));
    assert!(!search("(cat|dog)+s", "catdog"));
}

#[test]
fn long_failing_search_terminates() {
    let text: String = std::iter::repeat('a').take(40).collect();
    assert!(!search("(a|b)*c", &text));
    assert!(search("(a|b)*c", &format!("{}c", text)));
}

#[test]
fn vm_runs_a_program() {
    let inst = compile_ast(parse_regex("b+"));
    let vm = VM::new(&inst, "abbc".to_string());
    assert!(vm.do_match());
    let vm = VM::new(&inst, "ac".to_string());
    assert!(!vm.do_match());
}

#[test]
fn literal_finds_its_occurrences() {
    assert!(search("c", "abc"));
    assert!(search("abc", "ababc"));
    assert!(!search("abcd", "abc"));
    assert!(!search("ba", "aab"));
}

#[test]
fn compiled_programs_end_in_their_only_match() {
    for pattern in ["abc", "a(xy)*c", "ab|xy|12", "(a?b)+c", "^.$", ""] {
        let inst = compile_ast(parse_regex(pattern));
        let n = inst.len();
        assert_eq!(inst[n - 1], Match);
        for (k, op) in inst.iter().enumerate() {
            match *op {
                Match => assert_eq!(k, n - 1),
                Jump(l) => assert!(l < n),
                Split(a, b) => assert!(a < n && b < n),
                _ => {}
            }
        }
    }
}

#[test]
fn compile_sub_relocates_code() {
    let alone = compile_ast_sub(parse_regex("a(b|c)*"), vec![]);
    let after = compile_ast_sub(parse_regex("a(b|c)*"), vec![Char('x'), Char('y'), Char('z')]);
    let mut expected = vec![Char('x'), Char('y'), Char('z')];
    expected.extend(shift_jump_index(alone, 3));
    assert_eq!(after, expected);
}

#[test]
fn unanchored_match_survives_context() {
    assert!(search("a(b|c)+d", "abcd"));
    assert!(search("a(b|c)+d", "xxabcdyy"));
    assert!(search("(x.*y)*@", "q@"));
    assert!(search("(x.*y)*@", "pp@qq"));
}

#[test]
fn alternatives_find_what_either_finds() {
    for text in ["ab", "cd", "xcdx", "xyz", ""] {
        let either = search("ab|cd", text);
        assert_eq!(either, search("ab", text) || search("cd", text));
    }
    assert!(search("ab|cd", "xcdx"));
    assert!(!search("ab|cd", "acbd"));
}

#[test]
fn parse_groups_escapes_and_operators() {
    let new = Box::new;
    assert_eq!(
        parse_regex("(a|b)*\\.c+"),
        Ast::Conj(
            new(Ast::Conj(
                new(Ast::Repeat(
                    new(Ast::Disj(new(Ast::Char('a')), new(Ast::Char('b')))),
                    None,
                    None
                )),
                new(Ast::Char('.'))
            )),
            new(Ast::Repeat(new(Ast::Char('c')), Some(1), None))
        )
    );
}
