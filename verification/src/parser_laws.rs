use vstd::prelude::*;

use crate::ast::{Ast, ast_matches};
use crate::parser::{
    ParseError, spec_parse_atom, spec_parse_conjunction, spec_parse_disjunction, spec_parse_exp,
    spec_parse_postfixed, spec_parse_regex,
};

verus! {

// How the parse of a pattern relates to the parse of a longer pattern that holds it: inside
// parentheses, before a `|`, before a stray `)`.

/// `s` stands in `u` from position `d` on, and after it `u` ends or holds `term`. Unless `u`
/// ends there, `s` does not end in a `\` (which would escape `term`).
pub open spec fn embedded(s: Seq<char>, u: Seq<char>, d: int, term: char) -> bool {
    &&& 0 <= d
    &&& d + s.len() <= u.len()
    &&& forall|k: int| 0 <= k < s.len() ==> #[trigger] s[k] == u[d + k]
    &&& d + s.len() < u.len() ==> u[d + s.len()] == term && no_trailing_escape(s)
    &&& term == ')' || term == '|'
}

/// `s` does not end in a `\` (which would escape what follows it in a longer pattern).
pub open spec fn no_trailing_escape(s: Seq<char>) -> bool {
    s.len() == 0 || s.last() != '\\'
}

proof fn lemma_embed_exp(s: Seq<char>, u: Seq<char>, d: int, term: char, pos: int)
    requires
        embedded(s, u, d, term),
        0 <= pos <= s.len(),
        spec_parse_exp(s, pos) is Ok,
    ensures
        spec_parse_exp(s, pos) matches Ok((p, t)) ==> pos <= p <= s.len() && spec_parse_exp(
            u,
            pos + d,
        ) == (if p < s.len() {
            Ok::<(int, Ast), ParseError>((p + d, t))
        } else {
            spec_parse_disjunction(u, s.len() + d, t)
        }),
    decreases s.len() - pos, 5int,
{
    lemma_embed_disj(s, u, d, term, pos, Ast::Empty);
}

proof fn lemma_embed_disj(s: Seq<char>, u: Seq<char>, d: int, term: char, pos: int, acc: Ast)
    requires
        embedded(s, u, d, term),
        0 <= pos <= s.len(),
        spec_parse_disjunction(s, pos, acc) is Ok,
    ensures
        spec_parse_disjunction(s, pos, acc) matches Ok((p, t)) ==> pos <= p <= s.len()
            && spec_parse_disjunction(u, pos + d, acc) == (if p < s.len() {
            Ok::<(int, Ast), ParseError>((p + d, t))
        } else {
            spec_parse_disjunction(u, s.len() + d, t)
        }),
    decreases s.len() - pos, 4int,
{
    if pos >= s.len() {
    } else {
        assert(s[pos] == u[pos + d]);
        if s[pos] == ')' {
        } else if s[pos] == '|' {
            lemma_embed_conj(s, u, d, term, pos + 1, Ast::Empty);
            if let Ok((p, conj)) = spec_parse_conjunction(s, pos + 1, Ast::Empty) {
                let next = Ast::Disj(Box::new(acc), Box::new(conj));
                lemma_embed_disj(s, u, d, term, p, next);
            }
        } else {
            lemma_embed_conj(s, u, d, term, pos, acc);
            if let Ok((p, conj)) = spec_parse_conjunction(s, pos, acc) {
                if pos < p {
                    lemma_embed_disj(s, u, d, term, p, conj);
                }
            }
        }
    }
}

proof fn lemma_embed_conj(s: Seq<char>, u: Seq<char>, d: int, term: char, pos: int, acc: Ast)
    requires
        embedded(s, u, d, term),
        0 <= pos <= s.len(),
        spec_parse_conjunction(s, pos, acc) is Ok,
    ensures
        spec_parse_conjunction(s, pos, acc) matches Ok((p, t)) ==> pos <= p <= s.len()
            && spec_parse_conjunction(u, pos + d, acc) == Ok::<(int, Ast), ParseError>((p + d, t)),
    decreases s.len() - pos, 3int,
{
    if pos >= s.len() {
    } else {
        assert(s[pos] == u[pos + d]);
        if s[pos] == ')' || s[pos] == '|' {
        } else {
            lemma_embed_postfixed(s, u, d, term, pos);
            if let Ok((p, post)) = spec_parse_postfixed(s, pos) {
                let next = if acc is Empty {
                    post
                } else {
                    Ast::Conj(Box::new(acc), Box::new(post))
                };
                if pos < p {
                    lemma_embed_conj(s, u, d, term, p, next);
                }
            }
        }
    }
}

proof fn lemma_embed_postfixed(s: Seq<char>, u: Seq<char>, d: int, term: char, pos: int)
    requires
        embedded(s, u, d, term),
        0 <= pos < s.len(),
        spec_parse_postfixed(s, pos) is Ok,
    ensures
        spec_parse_postfixed(s, pos) matches Ok((p, t)) ==> pos <= p <= s.len()
            && spec_parse_postfixed(u, pos + d) == Ok::<(int, Ast), ParseError>((p + d, t)),
    decreases s.len() - pos, 2int,
{
    lemma_embed_atom(s, u, d, term, pos);
    if let Ok((p, atom)) = spec_parse_atom(s, pos) {
        if p < s.len() {
            assert(s[p] == u[p + d]);
        }
    }
}

#[verifier::rlimit(50)]
proof fn lemma_embed_atom(s: Seq<char>, u: Seq<char>, d: int, term: char, pos: int)
    requires
        embedded(s, u, d, term),
        0 <= pos < s.len(),
        spec_parse_atom(s, pos) is Ok,
    ensures
        spec_parse_atom(s, pos) matches Ok((p, t)) ==> pos <= p <= s.len() && spec_parse_atom(
            u,
            pos + d,
        ) == Ok::<(int, Ast), ParseError>((p + d, t)),
    decreases s.len() - pos, 1int,
{
    assert(s[pos] == u[pos + d]);
    let c = s[pos];
    if c == '(' {
        lemma_embed_exp(s, u, d, term, pos + 1);
        if let Ok((p, ast)) = spec_parse_exp(s, pos + 1) {
            if p < s.len() {
                assert(s[p] == u[p + d]);
            }
        }
    } else if c == '\\' {
        if pos + 1 < s.len() {
            assert(s[pos + 1] == u[pos + 1 + d]);
        }
    }
}

proof fn lemma_embed_regex(s: Seq<char>, u: Seq<char>, d: int, term: char)
    requires
        embedded(s, u, d, term),
        spec_parse_regex(s) is Ok,
    ensures
        spec_parse_exp(u, d) == spec_parse_disjunction(u, s.len() + d, spec_parse_regex(s)->Ok_0),
{
    lemma_embed_exp(s, u, d, term, 0);
}

/// A pattern in parentheses parses to the same tree as the pattern itself, so it matches
/// exactly what the pattern matches.
pub proof fn lemma_parse_group(s: Seq<char>)
    requires
        spec_parse_regex(s) is Ok,
        no_trailing_escape(s),
    ensures
        spec_parse_regex(seq!['('] + s + seq![')']) == spec_parse_regex(s),
{
    let u = seq!['('] + s + seq![')'];
    let t = spec_parse_regex(s)->Ok_0;
    assert forall|k: int| 0 <= k < s.len() implies #[trigger] s[k] == u[1 + k] by {}
    assert(u[1 + s.len() as int] == ')');
    lemma_embed_regex(s, u, 1, ')');
    assert(spec_parse_disjunction(u, (s.len() + 1) as int, t) == Ok::<(int, Ast), ParseError>(((s.len() + 1) as int, t)));
    assert(u[0] == '(');
    assert(spec_parse_atom(u, 0) == Ok::<(int, Ast), ParseError>((u.len() as int, t)));
    assert(spec_parse_postfixed(u, 0) == Ok::<(int, Ast), ParseError>((u.len() as int, t)));
    assert(spec_parse_conjunction(u, u.len() as int, t) == Ok::<(int, Ast), ParseError>((u.len() as int, t)));
    assert(spec_parse_conjunction(u, 0, Ast::Empty) == Ok::<(int, Ast), ParseError>((u.len() as int, t)));
    assert(spec_parse_disjunction(u, u.len() as int, t) == Ok::<(int, Ast), ParseError>((u.len() as int, t)));
}

/// The repetition bounds that an operator writes.
pub open spec fn op_bounds(op: char) -> (Option<usize>, Option<usize>) {
    if op == '*' {
        (None, None)
    } else if op == '+' {
        (Some(1usize), None)
    } else {
        (Some(0usize), Some(1usize))
    }
}

/// A pattern in parentheses followed by `*`, `+` or `?` parses to the repetition of the
/// pattern's tree with that operator's bounds.
pub proof fn lemma_parse_repeat(s: Seq<char>, op: char)
    requires
        spec_parse_regex(s) is Ok,
        no_trailing_escape(s),
        op == '*' || op == '+' || op == '?',
    ensures
        spec_parse_regex(seq!['('] + s + seq![')', op]) == Ok::<Ast, ParseError>(
            Ast::Repeat(Box::new(spec_parse_regex(s)->Ok_0), op_bounds(op).0, op_bounds(op).1),
        ),
{
    let u = seq!['('] + s + seq![')', op];
    let t = spec_parse_regex(s)->Ok_0;
    let n = s.len() as int;
    let r = Ast::Repeat(Box::new(t), op_bounds(op).0, op_bounds(op).1);
    assert forall|k: int| 0 <= k < s.len() implies #[trigger] s[k] == u[1 + k] by {}
    assert(u[n + 1] == ')');
    assert(u[n + 2] == op);
    assert(u.len() == n + 3);
    lemma_embed_regex(s, u, 1, ')');
    assert(spec_parse_disjunction(u, n + 1, t) == Ok::<(int, Ast), ParseError>((n + 1, t)));
    assert(u[0] == '(');
    assert(spec_parse_atom(u, 0) == Ok::<(int, Ast), ParseError>((n + 2, t)));
    assert(spec_parse_postfixed(u, 0) == Ok::<(int, Ast), ParseError>((n + 3, r)));
    assert(spec_parse_conjunction(u, n + 3, r) == Ok::<(int, Ast), ParseError>((n + 3, r)));
    assert(spec_parse_conjunction(u, 0, Ast::Empty) == Ok::<(int, Ast), ParseError>((n + 3, r)));
    assert(spec_parse_disjunction(u, n + 3, r) == Ok::<(int, Ast), ParseError>((n + 3, r)));
}

/// A `\` before one of `.^$()|` makes that character literal.
pub proof fn lemma_parse_escape(c: char)
    requires
        c == '.' || c == '^' || c == '$' || c == '(' || c == ')' || c == '|',
    ensures
        spec_parse_regex(seq!['\\', c]) == Ok::<Ast, ParseError>(Ast::Char(c)),
{
    let u = seq!['\\', c];
    assert(u[0] == '\\' && u[1] == c);
    assert(spec_parse_atom(u, 0) == Ok::<(int, Ast), ParseError>((2, Ast::Char(c))));
    assert(spec_parse_postfixed(u, 0) == Ok::<(int, Ast), ParseError>((2, Ast::Char(c))));
    assert(spec_parse_conjunction(u, 2, Ast::Char(c)) == Ok::<(int, Ast), ParseError>((2, Ast::Char(c))));
    assert(spec_parse_conjunction(u, 0, Ast::Empty) == Ok::<(int, Ast), ParseError>((2, Ast::Char(c))));
    assert(spec_parse_disjunction(u, 2, Ast::Char(c)) == Ok::<(int, Ast), ParseError>((2, Ast::Char(c))));
}

/// A pattern followed by a `|` with nothing after it parses to the alternative of the
/// pattern's tree and the empty pattern: it matches where the pattern matches, and the empty
/// string everywhere.
pub proof fn lemma_parse_empty_alternative(s: Seq<char>)
    requires
        spec_parse_regex(s) is Ok,
        no_trailing_escape(s),
    ensures
        spec_parse_regex(s + seq!['|']) == Ok::<Ast, ParseError>(
            Ast::Disj(Box::new(spec_parse_regex(s)->Ok_0), Box::new(Ast::Empty)),
        ),
        forall|text: Seq<char>, i: int, j: int|
            ast_matches(#[trigger] spec_parse_regex(s + seq!['|'])->Ok_0, text, i, j) == (
            ast_matches(spec_parse_regex(s)->Ok_0, text, i, j) || i == j),
{
    let u = s + seq!['|'];
    let t = spec_parse_regex(s)->Ok_0;
    let n = s.len() as int;
    assert forall|k: int| 0 <= k < s.len() implies #[trigger] s[k] == u[0 + k] by {}
    assert(u[s.len() as int] == '|');
    lemma_embed_regex(s, u, 0, '|');
    assert(spec_parse_conjunction(u, n + 1, Ast::Empty) == Ok::<(int, Ast), ParseError>((n + 1, Ast::Empty)));
    let next = Ast::Disj(Box::new(t), Box::new(Ast::Empty));
    assert(spec_parse_disjunction(u, n + 1, next) == Ok::<(int, Ast), ParseError>((n + 1, next)));
    assert(spec_parse_disjunction(u, n, t) == Ok::<(int, Ast), ParseError>((n + 1, next)));
    assert(spec_parse_exp(u, 0) == Ok::<(int, Ast), ParseError>((n + 1, next)));
    assert(u.len() == n + 1);
    assert forall|text: Seq<char>, i: int, j: int|
        ast_matches(#[trigger] spec_parse_regex(u)->Ok_0, text, i, j) == (ast_matches(t, text, i, j)
            || i == j) by {
        assert(ast_matches(Ast::Empty, text, i, j) == (i == j));
    }
}

/// A pattern followed by a `)` that opens nothing does not parse, whatever comes after.
pub proof fn lemma_parse_stray_close(s: Seq<char>, rest: Seq<char>)
    requires
        spec_parse_regex(s) is Ok,
        no_trailing_escape(s),
    ensures
        spec_parse_regex(s + seq![')'] + rest) == Err::<Ast, ParseError>(ParseError::UnmatchedClose),
{
    let u = s + seq![')'] + rest;
    let t = spec_parse_regex(s)->Ok_0;
    let n = s.len() as int;
    assert forall|k: int| 0 <= k < s.len() implies #[trigger] s[k] == u[0 + k] by {}
    assert(u[s.len() as int] == ')');
    lemma_embed_regex(s, u, 0, ')');
    assert(spec_parse_disjunction(u, n, t) == Ok::<(int, Ast), ParseError>((n, t)));
}

/// Where a concatenation stops: at the end, or before a `)` or a `|`.
pub open spec fn stops_alternative(s: Seq<char>, q: int) -> bool {
    q == s.len() || (0 <= q < s.len() && (s[q] == ')' || s[q] == '|'))
}

/// `acc` matches what `t` or `b` matches, at every span of every text.
pub open spec fn union_of(acc: Ast, t: Ast, b: Ast) -> bool {
    forall|text: Seq<char>, i: int, j: int|
        #[trigger] ast_matches(acc, text, i, j) == (ast_matches(t, text, i, j) || ast_matches(
            b,
            text,
            i,
            j,
        ))
}

proof fn lemma_self_embedded(s: Seq<char>)
    ensures
        embedded(s, s, 0, ')'),
{
    assert forall|k: int| 0 <= k < s.len() implies #[trigger] s[k] == s[0 + k] by {}
}

/// A postfixed atom read from a character that is not `|` reads at least that character.
proof fn lemma_postfixed_progress(s: Seq<char>, pos: int)
    requires
        0 <= pos < s.len(),
        s[pos] != '|',
        spec_parse_postfixed(s, pos) is Ok,
    ensures
        spec_parse_postfixed(s, pos) matches Ok((p, _)) ==> pos < p <= s.len(),
{
    lemma_self_embedded(s);
    lemma_embed_postfixed(s, s, 0, ')', pos);
    if s[pos] == '(' {
        lemma_embed_exp(s, s, 0, ')', pos + 1);
    }
}

/// A concatenation stops only at the end, before a `)` or before a `|`.
proof fn lemma_conj_stops(s: Seq<char>, pos: int, acc: Ast)
    requires
        0 <= pos <= s.len(),
        spec_parse_conjunction(s, pos, acc) is Ok,
    ensures
        spec_parse_conjunction(s, pos, acc) matches Ok((q, _)) ==> pos <= q && stops_alternative(
            s,
            q,
        ),
    decreases s.len() - pos,
{
    if pos < s.len() && s[pos] != ')' && s[pos] != '|' {
        lemma_postfixed_progress(s, pos);
        if let Ok((p, post)) = spec_parse_postfixed(s, pos) {
            let next = if acc is Empty {
                post
            } else {
                Ast::Conj(Box::new(acc), Box::new(post))
            };
            lemma_conj_stops(s, p, next);
        }
    }
}

/// Reading alternatives onto `a` or onto `b`, where `a` matches what `t` or `b` matches, gives
/// trees that stand in the same relation.
proof fn lemma_disj_union(s: Seq<char>, pos: int, a: Ast, b: Ast, t: Ast)
    requires
        0 <= pos <= s.len(),
        stops_alternative(s, pos),
        union_of(a, t, b),
        spec_parse_disjunction(s, pos, b) is Ok,
    ensures
        spec_parse_disjunction(s, pos, a) matches Ok((qa, ra)) && spec_parse_disjunction(
            s,
            pos,
            b,
        ) matches Ok((qb, rb)) && qa == qb && union_of(ra, t, rb),
    decreases s.len() - pos,
{
    if pos < s.len() && s[pos] == '|' {
        lemma_conj_stops(s, pos + 1, Ast::Empty);
        if let Ok((q, x)) = spec_parse_conjunction(s, pos + 1, Ast::Empty) {
            let na = Ast::Disj(Box::new(a), Box::new(x));
            let nb = Ast::Disj(Box::new(b), Box::new(x));
            assert forall|text: Seq<char>, i: int, j: int| #[trigger]
                ast_matches(na, text, i, j) == (ast_matches(t, text, i, j) || ast_matches(
                    nb,
                    text,
                    i,
                    j,
                )) by {
                assert(ast_matches(a, text, i, j) == (ast_matches(t, text, i, j) || ast_matches(
                    b,
                    text,
                    i,
                    j,
                )));
            }
            if pos < q <= s.len() {
                lemma_disj_union(s, q, na, nb, t);
            }
        }
    }
}

/// Where the first alternative of a parsing pattern `c` ends, and what it is: the parse of `c`
/// goes on from there.
proof fn lemma_first_alternative(c: Seq<char>) -> (px: (int, Ast))
    requires
        spec_parse_regex(c) is Ok,
    ensures
        spec_parse_conjunction(c, 0, Ast::Empty) == Ok::<(int, Ast), ParseError>(px),
        0 <= px.0 <= c.len(),
        stops_alternative(c, px.0),
        spec_parse_exp(c, 0) == spec_parse_disjunction(c, px.0, px.1),
{
    lemma_self_embedded(c);
    lemma_embed_exp(c, c, 0, ')', 0);
    lemma_conj_stops(c, 0, Ast::Empty);
    lemma_embed_conj(c, c, 0, ')', 0, Ast::Empty);
    spec_parse_conjunction(c, 0, Ast::Empty)->Ok_0
}

/// In `s|c`, the parse reads `s` as on its own, then the first alternative of `c`, and goes on
/// with the alternative of the two.
proof fn lemma_alternatives_step(s: Seq<char>, c: Seq<char>, p1: int, x1: Ast)
    requires
        spec_parse_regex(s) is Ok,
        no_trailing_escape(s),
        spec_parse_conjunction(c, 0, Ast::Empty) == Ok::<(int, Ast), ParseError>((p1, x1)),
        0 <= p1 <= c.len(),
    ensures
        spec_parse_exp(s + seq!['|'] + c, 0) == spec_parse_disjunction(
            s + seq!['|'] + c,
            p1 + s.len() + 1,
            Ast::Disj(Box::new(spec_parse_regex(s)->Ok_0), Box::new(x1)),
        ),
{
    let u = s + seq!['|'] + c;
    let n = s.len() as int;
    let d = n + 1;
    assert forall|k: int| 0 <= k < s.len() implies #[trigger] s[k] == u[0 + k] by {}
    assert(u[n] == '|');
    lemma_embed_regex(s, u, 0, '|');
    assert forall|k: int| 0 <= k < c.len() implies #[trigger] c[k] == u[d + k] by {}
    lemma_embed_conj(c, u, d, '|', 0, Ast::Empty);
}

/// Two patterns joined by `|` match what either of them matches.
pub proof fn lemma_parse_alternatives(s: Seq<char>, c: Seq<char>)
    requires
        spec_parse_regex(s) is Ok,
        spec_parse_regex(c) is Ok,
        no_trailing_escape(s),
    ensures
        spec_parse_regex(s + seq!['|'] + c) is Ok,
        forall|text: Seq<char>, i: int, j: int|
            ast_matches(#[trigger] spec_parse_regex(s + seq!['|'] + c)->Ok_0, text, i, j) == (
            ast_matches(spec_parse_regex(s)->Ok_0, text, i, j) || ast_matches(
                spec_parse_regex(c)->Ok_0,
                text,
                i,
                j,
            )),
{
    let u = s + seq!['|'] + c;
    let d = s.len() + 1int;
    let t = spec_parse_regex(s)->Ok_0;
    let (p1, x1) = lemma_first_alternative(c);
    lemma_alternatives_step(s, c, p1, x1);
    let a = Ast::Disj(Box::new(t), Box::new(x1));
    lemma_disj_union(c, p1, a, x1, t);
    assert forall|k: int| 0 <= k < c.len() implies #[trigger] c[k] == u[d + k] by {}
    lemma_embed_disj(c, u, d, '|', p1, a);
    lemma_self_embedded(c);
    lemma_embed_disj(c, c, 0, ')', p1, x1);
}

} // verus!
