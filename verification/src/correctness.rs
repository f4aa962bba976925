use vstd::prelude::*;

use crate::ast::{
    Ast, anchor_free, ast_matches, is_plus_bounds, lemma_matches_in_context, is_star_bounds, lemma_conj_join, lemma_conj_split,
    lemma_matches_ordered, lemma_plus_join, lemma_plus_split, lemma_repeats_join, lemma_repeats_split,
    repeat_body, repeats, supported,
};
use crate::compiler::{code, code_len, lemma_code_len, program, InstOp};
use crate::vm::{accepts, accepts_somewhere, accepts_within, lemma_accepts_unfold};

verus! {

/// The instructions `s` stand in `prog` from address `b` on.
pub open spec fn placed(prog: Seq<InstOp>, s: Seq<InstOp>, b: nat) -> bool {
    b + s.len() <= prog.len() && forall|k: int| 0 <= k < s.len() ==> #[trigger] s[k] == prog[b + k]
}

/// Some match of `ast` starts at a text position below the text's length.
pub open spec fn found(ast: Ast, text: Seq<char>) -> bool {
    exists|i: int, j: int| 0 <= i < text.len() && #[trigger] ast_matches(ast, text, i, j)
}

proof fn lemma_placed_add(prog: Seq<InstOp>, s1: Seq<InstOp>, s2: Seq<InstOp>, b: nat)
    requires
        placed(prog, s1 + s2, b),
    ensures
        placed(prog, s1, b),
        placed(prog, s2, b + s1.len()),
{
    assert forall|k: int| 0 <= k < s1.len() implies #[trigger] s1[k] == prog[b + k] by {
        assert((s1 + s2)[k] == s1[k]);
    }
    assert forall|k: int| 0 <= k < s2.len() implies #[trigger] s2[k] == prog[b + s1.len() + k] by {
        assert((s1 + s2)[s1.len() + k] == s2[k]);
    }
}

pub(crate) proof fn lemma_placed_one(prog: Seq<InstOp>, op: InstOp, b: nat)
    requires
        placed(prog, seq![op], b),
    ensures
        prog[b as int] == op,
        b < prog.len(),
{
    assert(seq![op][0] == op);
}

// ---------------------------------------------------------------------------------------
// Where the parts of a fragment stand.

pub(crate) proof fn lemma_layout_conj(prog: Seq<InstOp>, a: Ast, c: Ast, b: nat)
    requires
        placed(prog, code(Ast::Conj(Box::new(a), Box::new(c)), b), b),
    ensures
        placed(prog, code(a, b), b),
        placed(prog, code(c, b + code_len(a)), b + code_len(a)),
{
    lemma_code_len(a, b);
    lemma_placed_add(prog, code(a, b), code(c, b + code_len(a)), b);
}

pub(crate) proof fn lemma_layout_disj(prog: Seq<InstOp>, a: Ast, c: Ast, b: nat)
    requires
        placed(prog, code(Ast::Disj(Box::new(a), Box::new(c)), b), b),
    ensures
        prog[b as int] == InstOp::Split((b + 1) as usize, (b + code_len(a) + 2) as usize),
        placed(prog, code(a, b + 1), b + 1),
        prog[(b + 1 + code_len(a)) as int] == InstOp::Jump((b + code_len(a) + code_len(c) + 2) as usize),
        placed(prog, code(c, b + code_len(a) + 2), b + code_len(a) + 2),
{
    let la = code_len(a);
    let lc = code_len(c);
    let s0 = seq![InstOp::Split((b + 1) as usize, (b + la + 2) as usize)];
    let s2 = seq![InstOp::Jump((b + la + lc + 2) as usize)];
    lemma_code_len(a, b + 1);
    lemma_placed_add(prog, s0 + code(a, b + 1) + s2, code(c, b + la + 2), b);
    lemma_placed_add(prog, s0 + code(a, b + 1), s2, b);
    lemma_placed_add(prog, s0, code(a, b + 1), b);
    lemma_placed_one(prog, s0[0], b);
    lemma_placed_one(prog, s2[0], b + 1 + la);
}

pub(crate) proof fn lemma_layout_star(prog: Seq<InstOp>, a: Ast, b: nat)
    requires
        placed(prog, code(Ast::Repeat(Box::new(a), None, None), b), b),
    ensures
        prog[b as int] == InstOp::Split((b + 1) as usize, (b + code_len(a) + 2) as usize),
        placed(prog, code(a, b + 1), b + 1),
        prog[(b + 1 + code_len(a)) as int] == InstOp::Jump(b as usize),
{
    let la = code_len(a);
    let s0 = seq![InstOp::Split((b + 1) as usize, (b + la + 2) as usize)];
    let s2 = seq![InstOp::Jump(b as usize)];
    lemma_code_len(a, b + 1);
    lemma_placed_add(prog, s0 + code(a, b + 1), s2, b);
    lemma_placed_add(prog, s0, code(a, b + 1), b);
    lemma_placed_one(prog, s0[0], b);
    lemma_placed_one(prog, s2[0], b + 1 + la);
}

pub(crate) proof fn lemma_layout_plus(prog: Seq<InstOp>, a: Ast, b: nat)
    requires
        placed(prog, code(Ast::Repeat(Box::new(a), Some(1), None), b), b),
    ensures
        placed(prog, code(a, b), b),
        prog[(b + code_len(a)) as int] == InstOp::Split(b as usize, (b + code_len(a) + 1) as usize),
{
    let la = code_len(a);
    let s2 = seq![InstOp::Split(b as usize, (b + la + 1) as usize)];
    lemma_code_len(a, b);
    lemma_placed_add(prog, code(a, b), s2, b);
    lemma_placed_one(prog, s2[0], b + la);
}

pub(crate) proof fn lemma_layout_opt(prog: Seq<InstOp>, a: Ast, b: nat)
    requires
        placed(prog, code(Ast::Repeat(Box::new(a), Some(0), Some(1)), b), b),
    ensures
        prog[b as int] == InstOp::Split((b + 1) as usize, (b + code_len(a) + 1) as usize),
        placed(prog, code(a, b + 1), b + 1),
{
    let la = code_len(a);
    let s0 = seq![InstOp::Split((b + 1) as usize, (b + la + 1) as usize)];
    lemma_placed_add(prog, s0, code(a, b + 1), b);
    lemma_placed_one(prog, s0[0], b);
}

pub(crate) proof fn lemma_layout_single(prog: Seq<InstOp>, ast: Ast, b: nat)
    requires
        placed(prog, code(ast, b), b),
        ast is AnyChar || ast is Char || ast is Head || ast is Tail,
    ensures
        prog[b as int] == code(ast, b)[0],
{
    assert(code(ast, b)[0] == prog[b as int + 0]);
}

// ---------------------------------------------------------------------------------------
// A fragment does what its syntax tree says.

/// The code for `ast` stands in `prog` at address `b`, with all its addresses in range.
pub open spec fn fragment_at(prog: Seq<InstOp>, ast: Ast, b: nat) -> bool {
    &&& supported(ast)
    &&& b + code_len(ast) <= usize::MAX
    &&& placed(prog, code(ast, b), b)
}

/// A path that enters the fragment for `ast` at `b` with the text position `i` and reaches
/// `Match` within `n` steps leaves the fragment at its end, at a position `j` such that `ast`
/// matches `text[i..j]`, and goes on from there to `Match` within `n` steps.
proof fn lemma_sound(prog: Seq<InstOp>, text: Seq<char>, ast: Ast, b: nat, i: int, n: nat) -> (jm: (
    int,
    nat,
))
    requires
        fragment_at(prog, ast, b),
        accepts_within(prog, text, b as int, i, n),
    ensures
        jm.1 <= n,
        ast_matches(ast, text, i, jm.0),
        accepts_within(prog, text, (b + code_len(ast)) as int, jm.0, jm.1),
    decreases ast, n, 1int,
{
    let m = (n - 1) as nat;
    match ast {
        Ast::Empty => (i, n),
        Ast::AnyChar => {
            lemma_layout_single(prog, ast, b);
            (i + 1, m)
        },
        Ast::Char(c) => {
            lemma_layout_single(prog, ast, b);
            (i + 1, m)
        },
        Ast::Head => {
            lemma_layout_single(prog, ast, b);
            (i, m)
        },
        Ast::Tail => {
            lemma_layout_single(prog, ast, b);
            (i, m)
        },
        Ast::Conj(a, c) => {
            let la = code_len(*a);
            lemma_layout_conj(prog, *a, *c, b);
            let (k, m1) = lemma_sound(prog, text, *a, b, i, n);
            let (j, m2) = lemma_sound(prog, text, *c, b + la, k, m1);
            lemma_matches_ordered(*a, text, i, k);
            lemma_matches_ordered(*c, text, k, j);
            lemma_conj_join(*a, *c, text, i, k, j);
            (j, m2)
        },
        Ast::Disj(a, c) => {
            let la = code_len(*a);
            lemma_layout_disj(prog, *a, *c, b);
            if accepts_within(prog, text, (b + 1) as int, i, m) {
                let (j, m1) = lemma_sound(prog, text, *a, b + 1, i, m);
                (j, (m1 - 1) as nat)
            } else {
                lemma_sound(prog, text, *c, b + la + 2, i, m)
            }
        },
        Ast::Repeat(a, min, max) => {
            if is_star_bounds(min, max) {
                lemma_sound_star(prog, text, ast, b, i, n)
            } else if is_plus_bounds(min, max) {
                lemma_sound_plus(prog, text, ast, b, i, n)
            } else {
                lemma_layout_opt(prog, *a, b);
                if accepts_within(prog, text, (b + 1) as int, i, m) {
                    lemma_sound(prog, text, *a, b + 1, i, m)
                } else {
                    (i, m)
                }
            }
        },
    }
}

proof fn lemma_sound_star(prog: Seq<InstOp>, text: Seq<char>, ast: Ast, b: nat, i: int, n: nat) -> (jm: (
    int,
    nat,
))
    requires
        ast matches Ast::Repeat(_, min, max) && is_star_bounds(min, max),
        fragment_at(prog, ast, b),
        accepts_within(prog, text, b as int, i, n),
    ensures
        jm.1 <= n,
        ast_matches(ast, text, i, jm.0),
        accepts_within(prog, text, (b + code_len(ast)) as int, jm.0, jm.1),
    decreases ast, n, 0int,
{
    let a = repeat_body(ast);
    let la = code_len(a);
    let m = (n - 1) as nat;
    assert(ast == Ast::Repeat(Box::new(a), None, None));
    lemma_layout_star(prog, a, b);
    if accepts_within(prog, text, (b + 1) as int, i, m) {
        let (k, m1) = lemma_sound(prog, text, a, b + 1, i, m);
        let (j, m2) = lemma_sound_star(prog, text, ast, b, k, (m1 - 1) as nat);
        assert(repeats(ast, text, k, j));
        lemma_matches_ordered(a, text, i, k);
        lemma_repeats_join(ast, text, i, k, j);
        assert(ast_matches(ast, text, i, j));
        (j, m2)
    } else {
        assert(repeats(ast, text, i, i));
        (i, m)
    }
}

proof fn lemma_sound_plus(prog: Seq<InstOp>, text: Seq<char>, ast: Ast, b: nat, i: int, n: nat) -> (jm: (
    int,
    nat,
))
    requires
        ast matches Ast::Repeat(_, min, max) && is_plus_bounds(min, max),
        fragment_at(prog, ast, b),
        accepts_within(prog, text, b as int, i, n),
    ensures
        jm.1 <= n,
        ast_matches(ast, text, i, jm.0),
        accepts_within(prog, text, (b + code_len(ast)) as int, jm.0, jm.1),
    decreases ast, n, 0int,
{
    let a = repeat_body(ast);
    let la = code_len(a);
    assert(ast == Ast::Repeat(Box::new(a), Some(1), None));
    lemma_layout_plus(prog, a, b);
    let (k, m) = lemma_sound(prog, text, a, b, i, n);
    lemma_matches_ordered(a, text, i, k);
    let m1 = (m - 1) as nat;
    if accepts_within(prog, text, b as int, k, m1) {
        let (j, m2) = lemma_sound_plus(prog, text, ast, b, k, m1);
        let k2 = lemma_plus_split(ast, text, k, j);
        lemma_repeats_join(ast, text, k, k2, j);
        lemma_plus_join(ast, text, i, k, j);
        (j, m2)
    } else {
        lemma_plus_join(ast, text, i, k, k);
        (k, m1)
    }
}

/// A path from the end of the fragment for `ast` at a position `j` to `Match`, after a match
/// of `ast` over `text[i..j]`, makes a path to `Match` from the fragment's start at `i`.
proof fn lemma_complete(prog: Seq<InstOp>, text: Seq<char>, ast: Ast, b: nat, i: int, j: int)
    requires
        fragment_at(prog, ast, b),
        ast_matches(ast, text, i, j),
        accepts(prog, text, (b + code_len(ast)) as int, j),
    ensures
        accepts(prog, text, b as int, i),
    decreases ast, 1int, 0int,
{
    match ast {
        Ast::Empty => {},
        Ast::Conj(a, c) => {
            let la = code_len(*a);
            lemma_layout_conj(prog, *a, *c, b);
            let k = lemma_conj_split(*a, *c, text, i, j);
            lemma_complete(prog, text, *c, b + la, k, j);
            lemma_complete(prog, text, *a, b, i, k);
        },
        Ast::Disj(a, c) => {
            let la = code_len(*a);
            lemma_layout_disj(prog, *a, *c, b);
            if ast_matches(*a, text, i, j) {
                lemma_accepts_unfold(prog, text, (b + 1 + la) as int, j);
                lemma_complete(prog, text, *a, b + 1, i, j);
            } else {
                lemma_complete(prog, text, *c, b + la + 2, i, j);
            }
            lemma_accepts_unfold(prog, text, b as int, i);
        },
        Ast::Repeat(a, min, max) => {
            let la = code_len(*a);
            if is_star_bounds(min, max) {
                lemma_complete_star(prog, text, ast, b, i, j);
            } else if is_plus_bounds(min, max) {
                lemma_layout_plus(prog, *a, b);
                let k = lemma_plus_split(ast, text, i, j);
                lemma_complete_plus_loop(prog, text, ast, b, k, j);
                lemma_complete(prog, text, *a, b, i, k);
            } else {
                lemma_layout_opt(prog, *a, b);
                if i != j {
                    lemma_complete(prog, text, *a, b + 1, i, j);
                }
                lemma_accepts_unfold(prog, text, b as int, i);
            }
        },
        _ => {
            lemma_layout_single(prog, ast, b);
            lemma_accepts_unfold(prog, text, b as int, i);
        },
    }
}

proof fn lemma_complete_star(prog: Seq<InstOp>, text: Seq<char>, ast: Ast, b: nat, i: int, j: int)
    requires
        ast matches Ast::Repeat(_, min, max) && is_star_bounds(min, max),
        fragment_at(prog, ast, b),
        repeats(ast, text, i, j),
        accepts(prog, text, (b + code_len(ast)) as int, j),
    ensures
        accepts(prog, text, b as int, i),
    decreases ast, 0int, j - i,
{
    let a = repeat_body(ast);
    let la = code_len(a);
    assert(ast == Ast::Repeat(Box::new(a), None, None));
    lemma_layout_star(prog, a, b);
    if i != j {
        let k = lemma_repeats_split(ast, text, i, j);
        lemma_complete_star(prog, text, ast, b, k, j);
        lemma_accepts_unfold(prog, text, (b + 1 + la) as int, k);
        lemma_complete(prog, text, a, b + 1, i, k);
    }
    lemma_accepts_unfold(prog, text, b as int, i);
}

/// From the `split` at the end of the code for `a+`: repetitions of `a` over `text[k..j]` and a
/// path to `Match` after the fragment at `j` make a path to `Match`.
proof fn lemma_complete_plus_loop(prog: Seq<InstOp>, text: Seq<char>, ast: Ast, b: nat, k: int, j: int)
    requires
        ast matches Ast::Repeat(_, min, max) && is_plus_bounds(min, max),
        fragment_at(prog, ast, b),
        repeats(ast, text, k, j),
        accepts(prog, text, (b + code_len(ast)) as int, j),
    ensures
        accepts(prog, text, (b + code_len(repeat_body(ast))) as int, k),
    decreases ast, 0int, j - k,
{
    let a = repeat_body(ast);
    let la = code_len(a);
    assert(ast == Ast::Repeat(Box::new(a), Some(1), None));
    lemma_layout_plus(prog, a, b);
    if k != j {
        let k2 = lemma_repeats_split(ast, text, k, j);
        lemma_complete_plus_loop(prog, text, ast, b, k2, j);
        lemma_complete(prog, text, a, b, k, k2);
    }
    lemma_accepts_unfold(prog, text, (b + la) as int, k);
}

// ---------------------------------------------------------------------------------------
// The compiled program matches what the syntax tree matches.

/// The program compiled from `ast` has a path to `Match` from address 0 at text position `i`
/// exactly when `ast` matches some part of the text that starts at `i`.
pub proof fn lemma_program_accepts(ast: Ast, text: Seq<char>, i: int)
    requires
        supported(ast),
        code_len(ast) < usize::MAX,
    ensures
        accepts(program(ast), text, 0, i) == exists|j: int| ast_matches(ast, text, i, j),
{
    let prog = program(ast);
    let l = code_len(ast);
    lemma_code_len(ast, 0);
    assert(placed(prog, code(ast, 0), 0)) by {
        assert forall|k: int| 0 <= k < code(ast, 0).len() implies #[trigger] code(ast, 0)[k] == prog[0
            + k] by {}
    }
    assert(prog[l as int] == InstOp::Match);
    if accepts(prog, text, 0, i) {
        let n = choose|n: nat| #[trigger] accepts_within(prog, text, 0, i, n);
        let (j, _m) = lemma_sound(prog, text, ast, 0, i, n);
        assert(ast_matches(ast, text, i, j));
    }
    if exists|j: int| ast_matches(ast, text, i, j) {
        let j = choose|j: int| ast_matches(ast, text, i, j);
        lemma_accepts_unfold(prog, text, l as int, j);
        lemma_complete(prog, text, ast, 0, i, j);
    }
}

/// A search with the program compiled from `ast` finds a path to `Match` exactly when `ast`
/// matches some part of the text that starts before the text's end.
pub proof fn lemma_program_finds(ast: Ast, text: Seq<char>)
    requires
        supported(ast),
        code_len(ast) < usize::MAX,
    ensures
        accepts_somewhere(program(ast), text) == found(ast, text),
{
    let prog = program(ast);
    if accepts_somewhere(prog, text) {
        let i = choose|i: int| 0 <= i < text.len() && #[trigger] accepts(prog, text, 0, i);
        lemma_program_accepts(ast, text, i);
        let j = choose|j: int| ast_matches(ast, text, i, j);
        assert(ast_matches(ast, text, i, j));
    }
    if found(ast, text) {
        let (i, j) = choose|i: int, j: int| 0 <= i < text.len() && #[trigger] ast_matches(ast, text, i, j);
        lemma_program_accepts(ast, text, i);
        assert(accepts(prog, text, 0, i));
    }
}

/// A program compiled from a pattern without anchors that finds a match in a text also finds
/// one when text is added before and after it.
pub proof fn lemma_found_in_context(ast: Ast, text: Seq<char>, before: Seq<char>, after: Seq<char>)
    requires
        supported(ast),
        anchor_free(ast),
        code_len(ast) < usize::MAX,
        accepts_somewhere(program(ast), text),
    ensures
        accepts_somewhere(program(ast), before + text + after),
{
    let w = before + text + after;
    lemma_program_finds(ast, text);
    lemma_program_finds(ast, w);
    let (i, j) = choose|i: int, j: int| 0 <= i < text.len() && #[trigger] ast_matches(ast, text, i, j);
    lemma_matches_in_context(ast, text, before, after, i, j);
    assert(ast_matches(ast, w, i + before.len(), j + before.len()));
}

/// The program compiled from `a|c` finds a match in a text exactly when the program compiled
/// from `a` or the one compiled from `c` does.
pub proof fn lemma_found_alternatives(a: Ast, c: Ast, text: Seq<char>)
    requires
        supported(a),
        supported(c),
        code_len(a) + code_len(c) + 2 < usize::MAX,
    ensures
        accepts_somewhere(program(Ast::Disj(Box::new(a), Box::new(c))), text) == (accepts_somewhere(
            program(a),
            text,
        ) || accepts_somewhere(program(c), text)),
{
    let d = Ast::Disj(Box::new(a), Box::new(c));
    lemma_program_finds(d, text);
    lemma_program_finds(a, text);
    lemma_program_finds(c, text);
    if found(d, text) {
        let (i, j) = choose|i: int, j: int| 0 <= i < text.len() && #[trigger] ast_matches(d, text, i, j);
        if ast_matches(a, text, i, j) {
            assert(found(a, text));
        } else {
            assert(ast_matches(c, text, i, j));
            assert(found(c, text));
        }
    }
    if found(a, text) {
        let (i, j) = choose|i: int, j: int| 0 <= i < text.len() && #[trigger] ast_matches(a, text, i, j);
        assert(ast_matches(d, text, i, j));
    }
    if found(c, text) {
        let (i, j) = choose|i: int, j: int| 0 <= i < text.len() && #[trigger] ast_matches(c, text, i, j);
        assert(ast_matches(d, text, i, j));
    }
}

} // verus!
