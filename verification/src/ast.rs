use vstd::prelude::*;

verus! {

/// The syntax tree of a regular expression.
///
/// `Repeat(body, min, max)` is a bounded repetition; the forms in use are
/// `(None, None)` for `*`, `(Some(1), None)` for `+` and `(Some(0), Some(1))` for `?`.
#[derive(Debug, PartialEq, Eq)]
pub enum Ast {
    Empty,
    AnyChar,
    Char(char),
    Conj(Box<Ast>, Box<Ast>),
    Disj(Box<Ast>, Box<Ast>),
    Repeat(Box<Ast>, Option<usize>, Option<usize>),
    Head,
    Tail,
}

/// The repetition bounds of `*`.
pub open spec fn is_star_bounds(min: Option<usize>, max: Option<usize>) -> bool {
    min is None && max is None
}

/// The repetition bounds of `+`.
pub open spec fn is_plus_bounds(min: Option<usize>, max: Option<usize>) -> bool {
    min == Some(1usize) && max is None
}

/// The repetition bounds of `?`.
pub open spec fn is_opt_bounds(min: Option<usize>, max: Option<usize>) -> bool {
    min == Some(0usize) && max == Some(1usize)
}

/// Every repetition in the tree is one of `*`, `+` or `?`.
pub open spec fn supported(ast: Ast) -> bool
    decreases ast,
{
    match ast {
        Ast::Conj(a, b) => supported(*a) && supported(*b),
        Ast::Disj(a, b) => supported(*a) && supported(*b),
        Ast::Repeat(a, min, max) => (is_star_bounds(min, max) || is_plus_bounds(min, max)
            || is_opt_bounds(min, max)) && supported(*a),
        _ => true,
    }
}

/// `ast` matches the characters of `text` from position `i` up to (not including) `j`.
/// `Head` matches the empty string at the start of the text, `Tail` at its end.
///
/// The places where a concatenation or a repetition splits its span are searched one by
/// one (`conj_from`, `plus_from`, `repeats_from`); `lemma_conj_split`, `lemma_conj_join`
/// and their kin state the same thing with the split point as a witness.
pub open spec fn ast_matches(ast: Ast, text: Seq<char>, i: int, j: int) -> bool
    decreases ast, 3int, 0int, 0int,
{
    match ast {
        Ast::Empty => i == j,
        Ast::AnyChar => 0 <= i < text.len() && j == i + 1,
        Ast::Char(c) => 0 <= i < text.len() && text[i] == c && j == i + 1,
        Ast::Head => i == 0 && j == 0,
        Ast::Tail => i == text.len() && j == text.len(),
        Ast::Conj(_, _) => conj_from(ast, text, i, j, i),
        Ast::Disj(a, b) => ast_matches(*a, text, i, j) || ast_matches(*b, text, i, j),
        Ast::Repeat(a, min, max) => {
            if is_star_bounds(min, max) {
                repeats(ast, text, i, j)
            } else if is_plus_bounds(min, max) {
                plus_from(ast, text, i, j, i)
            } else if is_opt_bounds(min, max) {
                i == j || ast_matches(*a, text, i, j)
            } else {
                false
            }
        },
    }
}

/// For `ast == Conj(a, c)`: for some `k` with `from <= k <= j`, `a` matches `text[i..k]`
/// and `c` matches `text[k..j]`.
pub open spec fn conj_from(ast: Ast, text: Seq<char>, i: int, j: int, from: int) -> bool
    decreases ast, 2int, j - from, 0int,
{
    match ast {
        Ast::Conj(a, c) => from <= j && ((ast_matches(*a, text, i, from) && ast_matches(
            *c,
            text,
            from,
            j,
        )) || (from < j && conj_from(ast, text, i, j, from + 1))),
        _ => false,
    }
}

/// For `ast == Repeat(a, ..)`: for some `k` with `from <= k <= j`, `a` matches `text[i..k]`
/// and repetitions of `a` cover `text[k..j]`.
pub open spec fn plus_from(ast: Ast, text: Seq<char>, i: int, j: int, from: int) -> bool
    decreases ast, 2int, j - from, 0int,
{
    match ast {
        Ast::Repeat(a, _, _) => from <= j && ((ast_matches(*a, text, i, from) && repeats(
            ast,
            text,
            from,
            j,
        )) || (from < j && plus_from(ast, text, i, j, from + 1))),
        _ => false,
    }
}

/// For `ast == Repeat(a, ..)`: zero or more non-empty matches of `a`, one after the other,
/// cover `text[i..j]`. (Empty matches add nothing, so this is the language of `a*`.)
pub open spec fn repeats(ast: Ast, text: Seq<char>, i: int, j: int) -> bool
    decreases ast, 1int, j - i, j - i,
{
    i == j || (i < j && repeats_from(ast, text, i, j, i + 1))
}

/// For `ast == Repeat(a, ..)`: for some `k` with `from <= k <= j` and `i < k`, `a` matches
/// `text[i..k]` and repetitions of `a` cover `text[k..j]`.
pub open spec fn repeats_from(ast: Ast, text: Seq<char>, i: int, j: int, from: int) -> bool
    decreases ast, 1int, j - i, j - from,
{
    match ast {
        Ast::Repeat(a, _, _) => i < from <= j && ((ast_matches(*a, text, i, from) && repeats(
            ast,
            text,
            from,
            j,
        )) || (from < j && repeats_from(ast, text, i, j, from + 1))),
        _ => false,
    }
}

/// The body of a repetition.
pub open spec fn repeat_body(ast: Ast) -> Ast
    recommends
        ast is Repeat,
{
    match ast {
        Ast::Repeat(a, _, _) => *a,
        _ => ast,
    }
}

// ---------------------------------------------------------------------------------------
// The split points as witnesses.

proof fn lemma_conj_split_from(ast: Ast, text: Seq<char>, i: int, j: int, from: int) -> (k: int)
    requires
        ast is Conj,
        conj_from(ast, text, i, j, from),
    ensures
        from <= k <= j,
        ast_matches(*ast->Conj_0, text, i, k),
        ast_matches(*ast->Conj_1, text, k, j),
    decreases j - from,
{
    if ast_matches(*ast->Conj_0, text, i, from) && ast_matches(*ast->Conj_1, text, from, j) {
        from
    } else {
        lemma_conj_split_from(ast, text, i, j, from + 1)
    }
}

/// A match of a concatenation splits into a match of each part.
pub proof fn lemma_conj_split(a: Ast, c: Ast, text: Seq<char>, i: int, j: int) -> (k: int)
    requires
        ast_matches(Ast::Conj(Box::new(a), Box::new(c)), text, i, j),
    ensures
        i <= k <= j,
        ast_matches(a, text, i, k),
        ast_matches(c, text, k, j),
{
    lemma_conj_split_from(Ast::Conj(Box::new(a), Box::new(c)), text, i, j, i)
}

proof fn lemma_conj_join_from(ast: Ast, text: Seq<char>, i: int, k: int, j: int, from: int)
    requires
        ast is Conj,
        from <= k <= j,
        ast_matches(*ast->Conj_0, text, i, k),
        ast_matches(*ast->Conj_1, text, k, j),
    ensures
        conj_from(ast, text, i, j, from),
    decreases k - from,
{
    if from < k {
        lemma_conj_join_from(ast, text, i, k, j, from + 1);
    }
}

/// Matches of the parts, one after the other, make a match of the concatenation.
pub proof fn lemma_conj_join(a: Ast, c: Ast, text: Seq<char>, i: int, k: int, j: int)
    requires
        i <= k <= j,
        ast_matches(a, text, i, k),
        ast_matches(c, text, k, j),
    ensures
        ast_matches(Ast::Conj(Box::new(a), Box::new(c)), text, i, j),
{
    lemma_conj_join_from(Ast::Conj(Box::new(a), Box::new(c)), text, i, k, j, i);
}

proof fn lemma_plus_split_from(ast: Ast, text: Seq<char>, i: int, j: int, from: int) -> (k: int)
    requires
        ast is Repeat,
        plus_from(ast, text, i, j, from),
    ensures
        from <= k <= j,
        ast_matches(repeat_body(ast), text, i, k),
        repeats(ast, text, k, j),
    decreases j - from,
{
    if ast_matches(repeat_body(ast), text, i, from) && repeats(ast, text, from, j) {
        from
    } else {
        lemma_plus_split_from(ast, text, i, j, from + 1)
    }
}

/// A match of `a+` is a match of `a` followed by repetitions of `a`.
pub proof fn lemma_plus_split(ast: Ast, text: Seq<char>, i: int, j: int) -> (k: int)
    requires
        ast is Repeat,
        plus_from(ast, text, i, j, i),
    ensures
        i <= k <= j,
        ast_matches(repeat_body(ast), text, i, k),
        repeats(ast, text, k, j),
{
    lemma_plus_split_from(ast, text, i, j, i)
}

proof fn lemma_plus_join_from(ast: Ast, text: Seq<char>, i: int, k: int, j: int, from: int)
    requires
        ast is Repeat,
        from <= k <= j,
        ast_matches(repeat_body(ast), text, i, k),
        repeats(ast, text, k, j),
    ensures
        plus_from(ast, text, i, j, from),
    decreases k - from,
{
    if from < k {
        lemma_plus_join_from(ast, text, i, k, j, from + 1);
    }
}

/// A match of `a` followed by repetitions of `a` is a match of `a+`.
pub proof fn lemma_plus_join(ast: Ast, text: Seq<char>, i: int, k: int, j: int)
    requires
        ast is Repeat,
        i <= k <= j,
        ast_matches(repeat_body(ast), text, i, k),
        repeats(ast, text, k, j),
    ensures
        plus_from(ast, text, i, j, i),
{
    lemma_plus_join_from(ast, text, i, k, j, i);
}

proof fn lemma_repeats_split_from(ast: Ast, text: Seq<char>, i: int, j: int, from: int) -> (k: int)
    requires
        ast is Repeat,
        repeats_from(ast, text, i, j, from),
    ensures
        from <= k <= j,
        i < k,
        ast_matches(repeat_body(ast), text, i, k),
        repeats(ast, text, k, j),
    decreases j - from,
{
    if ast_matches(repeat_body(ast), text, i, from) && repeats(ast, text, from, j) {
        from
    } else {
        lemma_repeats_split_from(ast, text, i, j, from + 1)
    }
}

/// Non-empty repetitions start with a non-empty match of the body.
pub proof fn lemma_repeats_split(ast: Ast, text: Seq<char>, i: int, j: int) -> (k: int)
    requires
        ast is Repeat,
        repeats(ast, text, i, j),
        i != j,
    ensures
        i < k <= j,
        ast_matches(repeat_body(ast), text, i, k),
        repeats(ast, text, k, j),
{
    lemma_repeats_split_from(ast, text, i, j, i + 1)
}

proof fn lemma_repeats_join_from(ast: Ast, text: Seq<char>, i: int, k: int, j: int, from: int)
    requires
        ast is Repeat,
        i < from <= k <= j,
        ast_matches(repeat_body(ast), text, i, k),
        repeats(ast, text, k, j),
    ensures
        repeats_from(ast, text, i, j, from),
    decreases k - from,
{
    if from < k {
        lemma_repeats_join_from(ast, text, i, k, j, from + 1);
    }
}

/// A match of the body followed by repetitions of the body is a repetition of the body
/// (the match of the body may be empty).
pub proof fn lemma_repeats_join(ast: Ast, text: Seq<char>, i: int, k: int, j: int)
    requires
        ast is Repeat,
        i <= k,
        ast_matches(repeat_body(ast), text, i, k),
        repeats(ast, text, k, j),
    ensures
        repeats(ast, text, i, j),
        k <= j,
{
    if i < k {
        lemma_repeats_join_from(ast, text, i, k, j, i + 1);
    }
}

/// A match ends no earlier than it starts.
pub proof fn lemma_matches_ordered(ast: Ast, text: Seq<char>, i: int, j: int)
    requires
        ast_matches(ast, text, i, j),
    ensures
        i <= j,
    decreases ast,
{
    match ast {
        Ast::Conj(a, c) => {
            lemma_conj_split(*a, *c, text, i, j);
        },
        Ast::Disj(a, c) => {
            if ast_matches(*a, text, i, j) {
                lemma_matches_ordered(*a, text, i, j);
            } else {
                lemma_matches_ordered(*c, text, i, j);
            }
        },
        Ast::Repeat(a, min, max) => {
            if is_star_bounds(min, max) {
                assert(repeats(ast, text, i, j));
            } else if is_plus_bounds(min, max) {
                lemma_plus_split(ast, text, i, j);
            } else if is_opt_bounds(min, max) && i != j {
                lemma_matches_ordered(*a, text, i, j);
            }
        },
        _ => {},
    }
}

/// `ast` holds no `^` and no `$`.
pub open spec fn anchor_free(ast: Ast) -> bool
    decreases ast,
{
    match ast {
        Ast::Head | Ast::Tail => false,
        Ast::Conj(a, c) => anchor_free(*a) && anchor_free(*c),
        Ast::Disj(a, c) => anchor_free(*a) && anchor_free(*c),
        Ast::Repeat(a, _, _) => anchor_free(*a),
        _ => true,
    }
}

/// A match of a pattern without anchors is still a match, at the same characters, when text
/// is added before and after.
pub proof fn lemma_matches_in_context(
    ast: Ast,
    text: Seq<char>,
    before: Seq<char>,
    after: Seq<char>,
    i: int,
    j: int,
)
    requires
        anchor_free(ast),
        ast_matches(ast, text, i, j),
    ensures
        ast_matches(ast, before + text + after, i + before.len(), j + before.len()),
    decreases ast, 1int, 0int,
{
    let w = before + text + after;
    let d = before.len() as int;
    match ast {
        Ast::AnyChar => {},
        Ast::Char(c) => {
            assert(w[i + d] == text[i]);
        },
        Ast::Conj(a, c) => {
            let k = lemma_conj_split(*a, *c, text, i, j);
            lemma_matches_in_context(*a, text, before, after, i, k);
            lemma_matches_in_context(*c, text, before, after, k, j);
            lemma_conj_join(*a, *c, w, i + d, k + d, j + d);
        },
        Ast::Disj(a, c) => {
            if ast_matches(*a, text, i, j) {
                lemma_matches_in_context(*a, text, before, after, i, j);
            } else {
                lemma_matches_in_context(*c, text, before, after, i, j);
            }
        },
        Ast::Repeat(a, min, max) => {
            if is_star_bounds(min, max) {
                lemma_repeats_in_context(ast, text, before, after, i, j);
            } else if is_plus_bounds(min, max) {
                let k = lemma_plus_split(ast, text, i, j);
                lemma_matches_in_context(*a, text, before, after, i, k);
                lemma_repeats_in_context(ast, text, before, after, k, j);
                lemma_plus_join(ast, w, i + d, k + d, j + d);
            } else if is_opt_bounds(min, max) && i != j {
                lemma_matches_in_context(*a, text, before, after, i, j);
            }
        },
        _ => {},
    }
}

proof fn lemma_repeats_in_context(
    ast: Ast,
    text: Seq<char>,
    before: Seq<char>,
    after: Seq<char>,
    i: int,
    j: int,
)
    requires
        ast is Repeat,
        anchor_free(ast),
        repeats(ast, text, i, j),
    ensures
        repeats(ast, before + text + after, i + before.len(), j + before.len()),
    decreases ast, 0int, j - i,
{
    let w = before + text + after;
    let d = before.len() as int;
    if i != j {
        let k = lemma_repeats_split(ast, text, i, j);
        lemma_matches_in_context(repeat_body(ast), text, before, after, i, k);
        lemma_repeats_in_context(ast, text, before, after, k, j);
        lemma_repeats_join(ast, w, i + d, k + d, j + d);
    }
}

} // verus!
