use vstd::prelude::*;

use crate::ast::{Ast, is_opt_bounds, is_plus_bounds, is_star_bounds};
use crate::literal::is_plain;
use crate::parser::{
    ParseError, Parsed, escapable, spec_is_postfix_op, spec_parse_atom, spec_parse_conjunction,
    spec_parse_disjunction, spec_parse_exp, spec_parse_postfixed, spec_parse_regex,
};

verus! {

// The grammar read the other way: how a tree is written as a pattern. Parsing what these
// functions write gives the tree back (`lemma_parse_show`).
//
// re        := disj
// disj      := conj | disj '|' conj
// conj      := postfixed | conj postfixed
// postfixed := atom | atom ('*' | '+' | '?')
// atom      := char | '\' char | '.' | '^' | '$' | '(' re ')'

/// The trees that can be written as a pattern: no `Empty`, only `*`, `+` and `?` repetitions,
/// and only characters that stand for themselves or can be escaped.
pub open spec fn printable(ast: Ast) -> bool
    decreases ast,
{
    match ast {
        Ast::Empty => false,
        Ast::Char(c) => is_plain(c) || escapable(c),
        Ast::Conj(a, c) => printable(*a) && printable(*c),
        Ast::Disj(a, c) => printable(*a) && printable(*c),
        Ast::Repeat(a, min, max) => printable(*a) && (is_star_bounds(min, max) || is_plus_bounds(
            min,
            max,
        ) || is_opt_bounds(min, max)),
        _ => true,
    }
}

/// A tree written as a pattern.
pub open spec fn show(ast: Ast) -> Seq<char> {
    show_disj(ast)
}

/// Alternatives, separated by `|`.
pub open spec fn show_disj(ast: Ast) -> Seq<char>
    decreases ast, 3int,
{
    match ast {
        Ast::Disj(a, c) => show_disj(*a) + seq!['|'] + show_conj(*c),
        _ => show_conj(ast),
    }
}

/// A concatenation, one postfixed atom after the other.
pub open spec fn show_conj(ast: Ast) -> Seq<char>
    decreases ast, 2int,
{
    match ast {
        Ast::Conj(a, c) => show_conj(*a) + show_post(*c),
        _ => show_post(ast),
    }
}

/// An atom with its repetition operator.
pub open spec fn show_post(ast: Ast) -> Seq<char>
    decreases ast, 1int,
{
    match ast {
        Ast::Repeat(a, min, max) => show_atom(*a) + seq![op_char(min, max)],
        _ => show_atom(ast),
    }
}

/// An atom: a character, an escaped character, `.`, `^`, `$`, or a pattern in parentheses.
pub open spec fn show_atom(ast: Ast) -> Seq<char>
    decreases ast, 0int,
{
    match ast {
        Ast::AnyChar => seq!['.'],
        Ast::Head => seq!['^'],
        Ast::Tail => seq!['$'],
        Ast::Char(c) => if is_plain(c) {
            seq![c]
        } else {
            seq!['\\', c]
        },
        Ast::Empty => seq![],
        // In parentheses: `show_disj(ast)`, unfolded by one level.
        Ast::Disj(a, c) => seq!['('] + (show_disj(*a) + seq!['|'] + show_conj(*c)) + seq![')'],
        Ast::Conj(a, c) => seq!['('] + (show_conj(*a) + show_post(*c)) + seq![')'],
        Ast::Repeat(a, min, max) => seq!['('] + (show_atom(*a) + seq![op_char(min, max)]) + seq![
            ')',
        ],
    }
}

/// The operator that writes a repetition.
pub open spec fn op_char(min: Option<usize>, max: Option<usize>) -> char {
    if is_star_bounds(min, max) {
        '*'
    } else if is_plus_bounds(min, max) {
        '+'
    } else {
        '?'
    }
}

proof fn lemma_show_atom_group(ast: Ast)
    requires
        ast is Conj || ast is Disj || ast is Repeat,
    ensures
        show_atom(ast) == seq!['('] + show_disj(ast) + seq![')'],
{
    match ast {
        Ast::Disj(a, c) => {},
        Ast::Conj(a, c) => {
            assert(show_disj(ast) == show_conj(ast));
        },
        Ast::Repeat(a, min, max) => {
            assert(show_disj(ast) == show_conj(ast));
            assert(show_conj(ast) == show_post(ast));
        },
        _ => {},
    }
}

/// `s` holds `t` from position `p` on.
pub open spec fn holds_at(s: Seq<char>, p: int, t: Seq<char>) -> bool {
    0 <= p && p + t.len() <= s.len() && forall|k: int| 0 <= k < t.len() ==> #[trigger] t[k] == s[p + k]
}

/// A character that can start an atom.
pub open spec fn starts_atom(c: char) -> bool {
    !spec_is_postfix_op(c) && c != ')' && c != '|'
}

/// Where a concatenation ends: at the end, or before `)` or `|`.
pub open spec fn ends_conj(s: Seq<char>, q: int) -> bool {
    q == s.len() || (0 <= q < s.len() && (s[q] == ')' || s[q] == '|'))
}

/// What may follow a postfixed atom: nothing, or a character that is not an operator.
pub open spec fn ends_post(s: Seq<char>, q: int) -> bool {
    q == s.len() || (0 <= q < s.len() && !spec_is_postfix_op(s[q]))
}

/// The tree that the concatenation parser builds from `acc` and the items of `ast`.
pub open spec fn join(acc: Ast, ast: Ast) -> Ast
    decreases ast,
{
    match ast {
        Ast::Conj(a, c) => Ast::Conj(Box::new(join(acc, *a)), c),
        _ => if acc is Empty {
            ast
        } else {
            Ast::Conj(Box::new(acc), Box::new(ast))
        },
    }
}

proof fn lemma_holds_split(s: Seq<char>, p: int, t1: Seq<char>, t2: Seq<char>)
    requires
        holds_at(s, p, t1 + t2),
    ensures
        holds_at(s, p, t1),
        holds_at(s, p + t1.len(), t2),
{
    assert forall|k: int| 0 <= k < t1.len() implies #[trigger] t1[k] == s[p + k] by {
        assert((t1 + t2)[k] == t1[k]);
    }
    assert forall|k: int| 0 <= k < t2.len() implies #[trigger] t2[k] == s[p + t1.len() + k] by {
        assert((t1 + t2)[t1.len() + k] == t2[k]);
    }
}

/// Every level writes a printable tree as a non-empty string that starts an atom.
proof fn lemma_show_starts(ast: Ast)
    requires
        printable(ast),
    ensures
        show_atom(ast).len() > 0 && starts_atom(show_atom(ast)[0]),
        show_post(ast).len() > 0 && starts_atom(show_post(ast)[0]),
        show_conj(ast).len() > 0 && starts_atom(show_conj(ast)[0]),
        show_disj(ast).len() > 0 && starts_atom(show_disj(ast)[0]),
    decreases ast,
{
    if !(ast is Disj) {
        assert(show_disj(ast) == show_conj(ast));
    }
    if !(ast is Disj) && !(ast is Conj) {
        assert(show_conj(ast) == show_post(ast));
    }
    if !(ast is Repeat) {
        assert(show_post(ast) == show_atom(ast));
    }
    match ast {
        Ast::Conj(a, c) => {
            lemma_show_starts(*a);
            lemma_show_starts(*c);
        },
        Ast::Disj(a, c) => {
            lemma_show_starts(*a);
            lemma_show_starts(*c);
        },
        Ast::Repeat(a, _, _) => {
            lemma_show_starts(*a);
        },
        _ => {},
    }
}

proof fn lemma_join_empty(ast: Ast)
    requires
        printable(ast),
    ensures
        join(Ast::Empty, ast) == ast,
        !(join(Ast::Empty, ast) is Empty),
    decreases ast,
{
    if let Ast::Conj(a, c) = ast {
        lemma_join_empty(*a);
    }
}

proof fn lemma_join_nonempty(acc: Ast, ast: Ast)
    requires
        printable(ast),
    ensures
        !(join(acc, ast) is Empty),
{
    if !(ast is Conj) && acc is Empty {
        assert(!(ast is Empty));
    }
}

/// An atom written at `p` parses back, ending after it.
proof fn lemma_parse_atom_shown(s: Seq<char>, p: int, ast: Ast)
    requires
        printable(ast),
        holds_at(s, p, show_atom(ast)),
    ensures
        spec_parse_atom(s, p) == Ok::<(int, Ast), ParseError>((p + show_atom(ast).len(), ast)),
    decreases show_atom(ast).len(), 0int,
{
    lemma_show_starts(ast);
    let t = show_atom(ast);
    assert(t[0] == s[p + 0]);
    match ast {
        Ast::Char(c) => {
            if !is_plain(c) {
                assert(t[1] == s[p + 1]);
            }
        },
        Ast::AnyChar | Ast::Head | Ast::Tail => {},
        _ => {
            lemma_show_atom_group(ast);
            let inner = show_disj(ast);
            lemma_holds_split(s, p, seq!['('] + inner, seq![')']);
            lemma_holds_split(s, p, seq!['('], inner);
            let q = p + 1 + inner.len();
            assert(seq![')'][0] == s[q + 0]);
            lemma_parse_exp_shown(s, p + 1, ast);
        },
    }
}

/// A postfixed atom written at `p`, followed by no operator, parses back.
proof fn lemma_parse_post_shown(s: Seq<char>, p: int, ast: Ast)
    requires
        printable(ast),
        holds_at(s, p, show_post(ast)),
        ends_post(s, p + show_post(ast).len()),
    ensures
        spec_parse_postfixed(s, p) == Ok::<(int, Ast), ParseError>((p + show_post(ast).len(), ast)),
    decreases show_post(ast).len(), 2int,
{
    match ast {
        Ast::Repeat(a, min, max) => {
            let op = op_char(min, max);
            lemma_holds_split(s, p, show_atom(*a), seq![op]);
            let q = p + show_atom(*a).len();
            assert(seq![op][0] == s[q + 0]);
            lemma_parse_atom_shown(s, p, *a);
        },
        _ => {
            lemma_parse_atom_shown(s, p, ast);
        },
    }
}

/// A concatenation written at `p`, followed by no operator, is read item by item onto `acc`.
proof fn lemma_parse_conj_shown(s: Seq<char>, p: int, ast: Ast, acc: Ast)
    requires
        printable(ast),
        holds_at(s, p, show_conj(ast)),
        ends_post(s, p + show_conj(ast).len()),
    ensures
        spec_parse_conjunction(s, p, acc) == spec_parse_conjunction(
            s,
            p + show_conj(ast).len(),
            join(acc, ast),
        ),
    decreases show_conj(ast).len(), 4int,
{
    lemma_show_starts(ast);
    match ast {
        Ast::Conj(a, c) => {
            lemma_show_starts(*a);
            lemma_show_starts(*c);
            lemma_holds_split(s, p, show_conj(*a), show_post(*c));
            let q = p + show_conj(*a).len();
            assert(show_post(*c)[0] == s[q + 0]);
            lemma_parse_conj_shown(s, p, *a, acc);
            lemma_join_nonempty(acc, *a);
            lemma_parse_conj_item(s, q, *c, join(acc, *a));
        },
        _ => {
            lemma_parse_conj_item(s, p, ast, acc);
        },
    }
}

proof fn lemma_parse_conj_item(s: Seq<char>, p: int, item: Ast, acc: Ast)
    requires
        printable(item),
        holds_at(s, p, show_post(item)),
        ends_post(s, p + show_post(item).len()),
    ensures
        spec_parse_conjunction(s, p, acc) == spec_parse_conjunction(
            s,
            p + show_post(item).len(),
            if acc is Empty {
                item
            } else {
                Ast::Conj(Box::new(acc), Box::new(item))
            },
        ),
    decreases show_post(item).len(), 3int,
{
    lemma_show_starts(item);
    assert(show_post(item)[0] == s[p + 0]);
    lemma_parse_post_shown(s, p, item);
}

/// Alternatives written at `p` are read one after the other.
proof fn lemma_parse_disj_shown(s: Seq<char>, p: int, ast: Ast)
    requires
        printable(ast),
        holds_at(s, p, show_disj(ast)),
        ends_conj(s, p + show_disj(ast).len()),
    ensures
        spec_parse_disjunction(s, p, Ast::Empty) == spec_parse_disjunction(
            s,
            p + show_disj(ast).len(),
            ast,
        ),
    decreases show_disj(ast).len(), 6int,
{
    lemma_show_starts(ast);
    assert(show_disj(ast)[0] == s[p + 0]);
    match ast {
        Ast::Disj(a, c) => {
            lemma_show_starts(*a);
            lemma_show_starts(*c);
            lemma_holds_split(s, p, show_disj(*a) + seq!['|'], show_conj(*c));
            lemma_holds_split(s, p, show_disj(*a), seq!['|']);
            let q = p + show_disj(*a).len();
            assert(seq!['|'][0] == s[q + 0]);
            lemma_parse_disj_shown(s, p, *a);
            let r = q + 1 + show_conj(*c).len();
            lemma_parse_conj_shown(s, q + 1, *c, Ast::Empty);
            lemma_join_empty(*c);
            assert(spec_parse_conjunction(s, r, *c) == Ok::<(int, Ast), ParseError>((r, *c)));
        },
        _ => {
            let r = p + show_conj(ast).len();
            lemma_parse_conj_shown(s, p, ast, Ast::Empty);
            lemma_join_empty(ast);
            assert(spec_parse_conjunction(s, r, ast) == Ok::<(int, Ast), ParseError>((r, ast)));
        },
    }
}

/// A whole pattern written at `p`, before a `)` or the end, parses back.
proof fn lemma_parse_exp_shown(s: Seq<char>, p: int, ast: Ast)
    requires
        printable(ast),
        holds_at(s, p, show_disj(ast)),
        p + show_disj(ast).len() == s.len() || (p + show_disj(ast).len() < s.len() && s[p
            + show_disj(ast).len()] == ')'),
    ensures
        spec_parse_exp(s, p) == Ok::<(int, Ast), ParseError>((p + show_disj(ast).len(), ast)),
    decreases show_disj(ast).len(), 8int,
{
    lemma_parse_disj_shown(s, p, ast);
}

/// Parsing the pattern that a printable tree is written as gives the tree back.
pub proof fn lemma_parse_show(ast: Ast)
    requires
        printable(ast),
    ensures
        spec_parse_regex(show(ast)) == Ok::<Ast, ParseError>(ast),
{
    let s = show(ast);
    lemma_parse_exp_shown(s, 0, ast);
}

} // verus!
