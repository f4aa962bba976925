// re        := disj
// disj      := conj | conj '|' disj
// conj      := postfixed | postfixed conj
// postfixed := atom | atom postfix
// atom      := alpha | '(' re ')'
// postfix   := '*' | '+' | '?'
use vstd::prelude::*;

use crate::ast::{Ast, supported};
use crate::compiler::code_len;

verus! {

/// Why a pattern does not parse.
#[derive(Debug, PartialEq, Eq, Clone, Copy)]
pub enum ParseError {
    /// A `(` without its `)`.
    UnmatchedOpen,
    /// A `)` without its `(`.
    UnmatchedClose,
    /// A `\` followed by a character that cannot be escaped.
    InvalidEscape(char),
}

pub open spec fn spec_is_postfix_op(c: char) -> bool {
    c == '*' || c == '+' || c == '?'
}

pub open spec fn spec_is_infix_op(c: char) -> bool {
    c == '|'
}

/// The characters that a `\` makes literal.
pub open spec fn escapable(c: char) -> bool {
    c == '.' || c == '^' || c == '$' || c == '(' || c == ')' || c == '|'
}

/// Where the parse of a part ends, and what it built.
pub type Parsed = Result<(int, Ast), ParseError>;

/// `re := disj`, from position `pos`.
pub open spec fn spec_parse_exp(s: Seq<char>, pos: int) -> Parsed
    decreases s.len() - pos, 5int,
{
    spec_parse_disjunction(s, pos, Ast::Empty)
}

/// Alternatives, from position `pos`, the ones before `pos` having built `ast`. Stops before
/// a `)` or at the end; a `|` adds the concatenation after it as the right alternative.
pub open spec fn spec_parse_disjunction(s: Seq<char>, pos: int, ast: Ast) -> Parsed
    decreases s.len() - pos, 4int,
{
    if pos < 0 || pos >= s.len() || s[pos] == ')' {
        Ok((pos, ast))
    } else if s[pos] == '|' {
        match spec_parse_conjunction(s, pos + 1, Ast::Empty) {
            Ok((p, conj)) => {
                let next = Ast::Disj(Box::new(ast), Box::new(conj));
                if pos < p <= s.len() {
                    spec_parse_disjunction(s, p, next)
                } else {
                    Ok((p, next))
                }
            },
            Err(e) => Err(e),
        }
    } else {
        match spec_parse_conjunction(s, pos, ast) {
            Ok((p, conj)) => if pos < p <= s.len() {
                spec_parse_disjunction(s, p, conj)
            } else {
                Ok((p, conj))
            },
            Err(e) => Err(e),
        }
    }
}

/// A concatenation, from position `pos`, the part before `pos` having built `ast` (`Empty`
/// when there is none). Stops before a `)`, a `|` or at the end.
pub open spec fn spec_parse_conjunction(s: Seq<char>, pos: int, ast: Ast) -> Parsed
    decreases s.len() - pos, 3int,
{
    if pos < 0 || pos >= s.len() || s[pos] == ')' || s[pos] == '|' {
        Ok((pos, ast))
    } else {
        match spec_parse_postfixed(s, pos) {
            Ok((p, postfixed)) => {
                let next = if ast is Empty {
                    postfixed
                } else {
                    Ast::Conj(Box::new(ast), Box::new(postfixed))
                };
                if pos < p <= s.len() {
                    spec_parse_conjunction(s, p, next)
                } else {
                    Ok((p, next))
                }
            },
            Err(e) => Err(e),
        }
    }
}

/// An atom, then at most one of `*`, `+`, `?`.
pub open spec fn spec_parse_postfixed(s: Seq<char>, pos: int) -> Parsed
    decreases s.len() - pos, 2int,
{
    match spec_parse_atom(s, pos) {
        Ok((p, atom)) => if 0 <= p < s.len() && spec_is_postfix_op(s[p]) {
            let body = Box::new(atom);
            if s[p] == '*' {
                Ok((p + 1, Ast::Repeat(body, None, None)))
            } else if s[p] == '+' {
                Ok((p + 1, Ast::Repeat(body, Some(1usize), None)))
            } else {
                Ok((p + 1, Ast::Repeat(body, Some(0usize), Some(1usize))))
            }
        } else {
            Ok((p, atom))
        },
        Err(e) => Err(e),
    }
}

/// One character, an escaped character or a parenthesized pattern; `Empty`, consuming
/// nothing, before an operator or at the end.
pub open spec fn spec_parse_atom(s: Seq<char>, pos: int) -> Parsed
    decreases s.len() - pos, 1int,
{
    if 0 <= pos < s.len() && !(spec_is_infix_op(s[pos]) || spec_is_postfix_op(s[pos])) {
        let c = s[pos];
        if c == '.' {
            Ok((pos + 1, Ast::AnyChar))
        } else if c == '^' {
            Ok((pos + 1, Ast::Head))
        } else if c == '$' {
            Ok((pos + 1, Ast::Tail))
        } else if c == '(' {
            match spec_parse_exp(s, pos + 1) {
                Ok((p, ast)) => if 0 <= p < s.len() && s[p] == ')' {
                    Ok((p + 1, ast))
                } else {
                    Err(ParseError::UnmatchedOpen)
                },
                Err(e) => Err(e),
            }
        } else if c == ')' {
            Err(ParseError::UnmatchedClose)
        } else if c == '\\' {
            if pos + 1 >= s.len() {
                Ok((pos + 1, Ast::Char('\\')))
            } else if escapable(s[pos + 1]) {
                Ok((pos + 2, Ast::Char(s[pos + 1])))
            } else {
                Err(ParseError::InvalidEscape(s[pos + 1]))
            }
        } else {
            Ok((pos + 1, Ast::Char(c)))
        }
    } else {
        Ok((pos, Ast::Empty))
    }
}

/// The syntax tree of the pattern `s`, or why it has none.
pub open spec fn spec_parse_regex(s: Seq<char>) -> Result<Ast, ParseError> {
    match spec_parse_exp(s, 0) {
        Ok((p, ast)) => if p < s.len() {
            Err(ParseError::UnmatchedClose)
        } else {
            Ok(ast)
        },
        Err(e) => Err(e),
    }
}

/// A parse result with its position as a mathematical integer.
pub open spec fn lift(r: Result<(usize, Ast), ParseError>) -> Parsed {
    match r {
        Ok((p, ast)) => Ok((p as int, ast)),
        Err(e) => Err(e),
    }
}

/// What a successful parse from `pos` to `p` that started from `ast` built: a tree with only
/// supported repetitions, whose code grows by at most two instructions per character read.
pub open spec fn well_built(r: Result<(usize, Ast), ParseError>, pos: int, ast: Ast, len: int) -> bool {
    r matches Ok((p, res)) ==> {
        &&& pos <= p <= len
        &&& supported(res)
        &&& code_len(res) <= code_len(ast) + 2 * (p - pos)
    }
}

/// Parses a pattern.
///
/// `.` is any character, `^` the start and `$` the end of the text, `|` separates
/// alternatives, `*`, `+` and `?` repeat the atom before them, parentheses group, and `\`
/// makes one of `.^$()|` literal (a `\` at the end stands for itself).
pub fn parse_regex(regex: &str) -> (ast: Ast)
    requires
        spec_parse_regex(regex@) is Ok,
    ensures
        spec_parse_regex(regex@) == Ok::<Ast, ParseError>(ast),
        supported(ast),
        code_len(ast) <= 2 * regex@.len(),
{
    match try_parse_regex(regex) {
        Ok(ast) => ast,
        Err(_) => {
            proof {
                assert(false);
            }
            Ast::Empty
        },
    }
}

/// Parses a pattern, or says why it does not parse.
pub fn try_parse_regex(regex: &str) -> (res: Result<Ast, ParseError>)
    ensures
        res == spec_parse_regex(regex@),
        res matches Ok(ast) ==> supported(ast) && code_len(ast) <= 2 * regex@.len(),
{
    let chars = crate::chars_of(regex);
    match parse_exp(&chars, 0) {
        Ok((p, ast)) => {
            if p < chars.len() {
                Err(ParseError::UnmatchedClose)
            } else {
                Ok(ast)
            }
        },
        Err(e) => Err(e),
    }
}

fn parse_exp(regex: &Vec<char>, pos: usize) -> (res: Result<(usize, Ast), ParseError>)
    requires
        pos <= regex.len(),
    ensures
        lift(res) == spec_parse_exp(regex@, pos as int),
        well_built(res, pos as int, Ast::Empty, regex.len() as int),
    decreases regex.len() - pos, 5int,
{
    parse_disjunction(regex, pos, Ast::Empty)
}

fn parse_disjunction(regex: &Vec<char>, pos: usize, ast: Ast) -> (res: Result<(usize, Ast), ParseError>)
    requires
        pos <= regex.len(),
        supported(ast),
    ensures
        lift(res) == spec_parse_disjunction(regex@, pos as int, ast),
        well_built(res, pos as int, ast, regex.len() as int),
    decreases regex.len() - pos, 4int,
{
    if pos >= regex.len() {
        Ok((pos, ast))
    } else if regex[pos] == ')' {
        // The character ')' is consumed by `parse_atom`.
        Ok((pos, ast))
    } else if regex[pos] == '|' {
        // Consume the '|'.
        match parse_conjunction(regex, pos + 1, Ast::Empty) {
            Ok((p, conjunction)) => {
                let next = Ast::Disj(Box::new(ast), Box::new(conjunction));
                parse_disjunction(regex, p, next)
            },
            Err(e) => Err(e),
        }
    } else {
        match parse_conjunction(regex, pos, ast) {
            Ok((p, conjunction)) => parse_disjunction(regex, p, conjunction),
            Err(e) => Err(e),
        }
    }
}

fn parse_conjunction(regex: &Vec<char>, pos: usize, ast: Ast) -> (res: Result<(usize, Ast), ParseError>)
    requires
        pos <= regex.len(),
        supported(ast),
    ensures
        lift(res) == spec_parse_conjunction(regex@, pos as int, ast),
        well_built(res, pos as int, ast, regex.len() as int),
        res matches Ok((p, _)) ==> (pos < regex.len() && regex@[pos as int] != ')' && regex@[pos as int]
            != '|' ==> pos < p),
    decreases regex.len() - pos, 3int,
{
    if pos >= regex.len() || regex[pos] == ')' || regex[pos] == '|' {
        Ok((pos, ast))
    } else {
        match parse_postfixed(regex, pos) {
            Ok((p, postfixed)) => {
                let next = if matches!(ast, Ast::Empty) {
                    postfixed
                } else {
                    Ast::Conj(Box::new(ast), Box::new(postfixed))
                };
                parse_conjunction(regex, p, next)
            },
            Err(e) => Err(e),
        }
    }
}

fn parse_postfixed(regex: &Vec<char>, pos: usize) -> (res: Result<(usize, Ast), ParseError>)
    requires
        pos <= regex.len(),
    ensures
        lift(res) == spec_parse_postfixed(regex@, pos as int),
        well_built(res, pos as int, Ast::Empty, regex.len() as int),
        res matches Ok((p, _)) ==> (pos < regex.len() && regex@[pos as int] != '|' ==> pos < p),
    decreases regex.len() - pos, 2int,
{
    match parse_atom(regex, pos) {
        Ok((p, atom)) => {
            if p < regex.len() && is_postfix_op(regex[p]) {
                let c = regex[p];
                if c == '*' {
                    Ok((p + 1, Ast::Repeat(Box::new(atom), None, None)))
                } else if c == '+' {
                    Ok((p + 1, Ast::Repeat(Box::new(atom), Some(1), None)))
                } else {
                    Ok((p + 1, Ast::Repeat(Box::new(atom), Some(0), Some(1))))
                }
            } else {
                Ok((p, atom))
            }
        },
        Err(e) => Err(e),
    }
}

fn parse_atom(regex: &Vec<char>, pos: usize) -> (res: Result<(usize, Ast), ParseError>)
    requires
        pos <= regex.len(),
    ensures
        lift(res) == spec_parse_atom(regex@, pos as int),
        well_built(res, pos as int, Ast::Empty, regex.len() as int),
        res matches Ok((p, _)) ==> (pos < regex.len() && !spec_is_infix_op(regex@[pos as int])
            && !spec_is_postfix_op(regex@[pos as int]) ==> pos < p),
    decreases regex.len() - pos, 1int,
{
    proof {
        assert(code_len(Ast::AnyChar) == 1 && code_len(Ast::Head) == 1 && code_len(Ast::Tail) == 1);
    }
    if pos < regex.len() && !(is_infix_op(regex[pos]) || is_postfix_op(regex[pos])) {
        let c = regex[pos];
        if c == '.' {
            Ok((pos + 1, Ast::AnyChar))
        } else if c == '^' {
            Ok((pos + 1, Ast::Head))
        } else if c == '$' {
            Ok((pos + 1, Ast::Tail))
        } else if c == '(' {
            match parse_exp(regex, pos + 1) {
                Ok((p, ast)) => {
                    if p < regex.len() && regex[p] == ')' {
                        Ok((p + 1, ast))
                    } else {
                        Err(ParseError::UnmatchedOpen)
                    }
                },
                Err(e) => Err(e),
            }
        } else if c == ')' {
            Err(ParseError::UnmatchedClose)
        } else if c == '\\' {
            if pos + 1 >= regex.len() {
                Ok((pos + 1, Ast::Char('\\')))
            } else {
                let d = regex[pos + 1];
                if d == '.' || d == '^' || d == '$' || d == '(' || d == ')' || d == '|' {
                    proof {
                        lemma_char_code(d);
                    }
                    Ok((pos + 2, Ast::Char(d)))
                } else {
                    Err(ParseError::InvalidEscape(d))
                }
            }
        } else {
            proof {
                lemma_char_code(c);
            }
            Ok((pos + 1, Ast::Char(c)))
        }
    } else {
        Ok((pos, Ast::Empty))
    }
}

fn is_postfix_op(c: char) -> (res: bool)
    ensures
        res == spec_is_postfix_op(c),
{
    match c {
        '*' | '+' | '?' => true,
        _ => false,
    }
}

fn is_infix_op(c: char) -> (res: bool)
    ensures
        res == spec_is_infix_op(c),
{
    match c {
        '|' => true,
        _ => false,
    }
}

/// A literal character compiles to one instruction.
proof fn lemma_char_code(c: char)
    ensures
        code_len(Ast::Char(c)) == 1,
        supported(Ast::Char(c)),
{
}

} // verus!
