use vstd::prelude::*;

use crate::ast::{Ast, ast_matches, lemma_conj_join, lemma_conj_split, supported};
use crate::compiler::{code_len, program};
use crate::correctness::{found, lemma_program_finds};
use crate::parser::{
    ParseError, spec_parse_atom, spec_parse_conjunction, spec_parse_postfixed, spec_parse_regex,
};
use crate::termination::{can_match_empty, lemma_search_halts, loops_consume};
use crate::vm::{accepts_somewhere, match_halts};

verus! {

/// A character that the parser reads as itself.
pub open spec fn is_plain(c: char) -> bool {
    !(c == '.' || c == '^' || c == '$' || c == '(' || c == ')' || c == '\\' || c == '|' || c == '*'
        || c == '+' || c == '?')
}

/// A pattern made of plain characters only.
pub open spec fn is_literal(s: Seq<char>) -> bool {
    forall|k: int| 0 <= k < s.len() ==> #[trigger] is_plain(s[k])
}

/// The tree for the non-empty literal `s`: its characters concatenated from the left.
pub open spec fn literal_ast(s: Seq<char>) -> Ast
    decreases s.len(),
{
    if s.len() <= 1 {
        Ast::Char(s[0])
    } else {
        Ast::Conj(Box::new(literal_ast(s.drop_last())), Box::new(Ast::Char(s.last())))
    }
}

/// `text` holds `s` from position `i` on.
pub open spec fn occurs_at(s: Seq<char>, text: Seq<char>, i: int) -> bool {
    0 <= i && i + s.len() <= text.len() && text.subrange(i, i + s.len()) == s
}

proof fn lemma_parse_literal_conj(s: Seq<char>, pos: int)
    requires
        is_literal(s),
        0 < pos <= s.len(),
    ensures
        spec_parse_conjunction(s, pos, literal_ast(s.take(pos))) == Ok::<(int, Ast), ParseError>(
            (s.len() as int, literal_ast(s)),
        ),
    decreases s.len() - pos,
{
    if pos < s.len() {
        assert(is_plain(s[pos]));
        assert(spec_parse_atom(s, pos) == Ok::<(int, Ast), ParseError>((pos + 1, Ast::Char(s[pos]))));
        if pos + 1 < s.len() {
            assert(is_plain(s[pos + 1]));
        }
        assert(spec_parse_postfixed(s, pos) == Ok::<(int, Ast), ParseError>((pos + 1, Ast::Char(s[pos]))));
        assert(s.take(pos + 1).drop_last() =~= s.take(pos));
        assert(s.take(pos + 1).last() == s[pos]);
        lemma_parse_literal_conj(s, pos + 1);
    } else {
        assert(s.take(pos) =~= s);
    }
}

/// A non-empty pattern of plain characters parses into their left-nested concatenation.
pub proof fn lemma_parse_literal(s: Seq<char>)
    requires
        is_literal(s),
        s.len() > 0,
    ensures
        spec_parse_regex(s) == Ok::<Ast, ParseError>(literal_ast(s)),
{
    assert(is_plain(s[0]));
    if s.len() > 1 {
        assert(is_plain(s[1]));
    }
    assert(spec_parse_postfixed(s, 0) == Ok::<(int, Ast), ParseError>((1, Ast::Char(s[0]))));
    assert(literal_ast(s.take(1)) == Ast::Char(s[0]));
    lemma_parse_literal_conj(s, 1);
    assert(spec_parse_conjunction(s, 0, Ast::Empty) == spec_parse_conjunction(s, 1, literal_ast(s.take(1))));
}

proof fn lemma_char_facts(c: char, text: Seq<char>, i: int, j: int)
    ensures
        ast_matches(Ast::Char(c), text, i, j) == (0 <= i < text.len() && text[i] == c && j == i + 1),
        supported(Ast::Char(c)),
        loops_consume(Ast::Char(c)),
        !can_match_empty(Ast::Char(c)),
        code_len(Ast::Char(c)) == 1,
{
}

/// The tree for a literal matches exactly the places where the literal occurs.
pub proof fn lemma_literal_matches(s: Seq<char>, text: Seq<char>, i: int, j: int)
    requires
        s.len() > 0,
    ensures
        ast_matches(literal_ast(s), text, i, j) == (occurs_at(s, text, i) && j == i + s.len()),
    decreases s.len(),
{
    if s.len() > 1 {
        let a = literal_ast(s.drop_last());
        let c = Ast::Char(s.last());
        let n = s.len();
        if ast_matches(literal_ast(s), text, i, j) {
            let k = lemma_conj_split(a, c, text, i, j);
            lemma_char_facts(s.last(), text, k, j);
            lemma_literal_matches(s.drop_last(), text, i, k);
            assert(text.subrange(i, j) =~= text.subrange(i, k).push(text[k]));
            assert(s =~= s.drop_last().push(s.last()));
        }
        if occurs_at(s, text, i) && j == i + s.len() {
            let k = j - 1;
            assert(text.subrange(i, k) =~= s.drop_last());
            assert(text[k] == text.subrange(i, j)[n - 1]);
            lemma_literal_matches(s.drop_last(), text, i, k);
            lemma_char_facts(s.last(), text, k, j);
            lemma_conj_join(a, c, text, i, k, j);
        }
    } else {
        lemma_char_facts(s[0], text, i, j);
        if ast_matches(literal_ast(s), text, i, j) {
            assert(text.subrange(i, j) =~= s);
        }
        if occurs_at(s, text, i) && j == i + s.len() {
            assert(text[i] == text.subrange(i, j)[0]);
        }
    }
}

/// The tree for a literal compiles, and every loop in its code reads a character (it has none).
pub proof fn lemma_literal_ast_plain(s: Seq<char>)
    requires
        s.len() > 0,
    ensures
        supported(literal_ast(s)),
        loops_consume(literal_ast(s)),
        !can_match_empty(literal_ast(s)),
        code_len(literal_ast(s)) == s.len(),
    decreases s.len(),
{
    if s.len() > 1 {
        lemma_literal_ast_plain(s.drop_last());
        lemma_char_facts(s.last(), Seq::empty(), 0, 0);
    } else {
        lemma_char_facts(s[0], Seq::empty(), 0, 0);
    }
}

/// The tree for a literal is found in a text exactly when the literal occurs in it, starting
/// before the text's end.
pub proof fn lemma_literal_found(s: Seq<char>, text: Seq<char>)
    requires
        s.len() > 0,
    ensures
        found(literal_ast(s), text) == exists|i: int| 0 <= i < text.len() && #[trigger] occurs_at(s, text, i),
{
    if found(literal_ast(s), text) {
        let (i, j) = choose|i: int, j: int| 0 <= i < text.len() && #[trigger] ast_matches(literal_ast(s), text, i, j);
        lemma_literal_matches(s, text, i, j);
        assert(occurs_at(s, text, i));
    }
    if exists|i: int| 0 <= i < text.len() && #[trigger] occurs_at(s, text, i) {
        let i = choose|i: int| 0 <= i < text.len() && #[trigger] occurs_at(s, text, i);
        lemma_literal_matches(s, text, i, i + s.len());
        assert(ast_matches(literal_ast(s), text, i, i + s.len()));
    }
}

/// Searching for a non-empty pattern of plain characters comes to an answer, and the answer
/// is whether the pattern occurs in the text at a position before the text's end.
pub proof fn lemma_literal_search(s: Seq<char>, text: Seq<char>)
    requires
        is_literal(s),
        0 < s.len() < usize::MAX,
        text.len() <= usize::MAX,
    ensures
        spec_parse_regex(s) == Ok::<Ast, ParseError>(literal_ast(s)),
        match_halts(program(literal_ast(s)), text),
        accepts_somewhere(program(literal_ast(s)), text) == exists|i: int|
            0 <= i < text.len() && #[trigger] occurs_at(s, text, i),
{
    lemma_parse_literal(s);
    lemma_literal_ast_plain(s);
    lemma_search_halts(literal_ast(s), text);
    lemma_program_finds(literal_ast(s), text);
    lemma_literal_found(s, text);
}

} // verus!
