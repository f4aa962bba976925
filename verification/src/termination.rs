use vstd::prelude::*;

use crate::ast::{Ast, is_opt_bounds, is_plus_bounds, is_star_bounds, repeat_body, supported};
use crate::compiler::{code, code_len, lemma_code_len, program, InstOp};
use crate::correctness::{
    fragment_at, lemma_layout_conj, lemma_layout_disj, lemma_layout_opt, lemma_layout_plus,
    lemma_layout_single, lemma_layout_star, placed,
};
use crate::vm::{backtrack, initial_threads, match_halts, run, VMState};

verus! {

/// `ast` can match the empty string (at some position of some text).
pub open spec fn can_match_empty(ast: Ast) -> bool
    decreases ast,
{
    match ast {
        Ast::Empty | Ast::Head | Ast::Tail => true,
        Ast::AnyChar | Ast::Char(_) => false,
        Ast::Conj(a, c) => can_match_empty(*a) && can_match_empty(*c),
        Ast::Disj(a, c) => can_match_empty(*a) || can_match_empty(*c),
        Ast::Repeat(a, min, max) => !is_plus_bounds(min, max) || can_match_empty(*a),
    }
}

/// No `*` or `+` in `ast` repeats something that can match the empty string, so every turn
/// of a loop in its code reads at least one character.
pub open spec fn loops_consume(ast: Ast) -> bool
    decreases ast,
{
    match ast {
        Ast::Conj(a, c) => loops_consume(*a) && loops_consume(*c),
        Ast::Disj(a, c) => loops_consume(*a) && loops_consume(*c),
        Ast::Repeat(a, min, max) => loops_consume(*a) && ((is_star_bounds(min, max)
            || is_plus_bounds(min, max)) ==> !can_match_empty(*a)),
        _ => true,
    }
}

/// Every path of the machine from address `pc` at text position `sp` stops, at `Match` or at a
/// failed test, within `n` instructions.
pub open spec fn paths_bounded(prog: Seq<InstOp>, text: Seq<char>, pc: int, sp: int, n: nat) -> bool
    decreases n,
{
    n > 0 && 0 <= pc < prog.len() && {
        let m = (n - 1) as nat;
        match prog[pc] {
            InstOp::Match => true,
            InstOp::AnyChar => 0 <= sp < text.len() ==> paths_bounded(prog, text, pc + 1, sp + 1, m),
            InstOp::Char(c) => 0 <= sp < text.len() && text[sp] == c ==> paths_bounded(
                prog,
                text,
                pc + 1,
                sp + 1,
                m,
            ),
            InstOp::Jump(l) => paths_bounded(prog, text, l as int, sp, m),
            InstOp::Split(l1, l2) => paths_bounded(prog, text, l1 as int, sp, m) && paths_bounded(
                prog,
                text,
                l2 as int,
                sp,
                m,
            ),
            InstOp::PositionHead => sp == 0 ==> paths_bounded(prog, text, pc + 1, sp, m),
            InstOp::PositionTail => sp == text.len() ==> paths_bounded(prog, text, pc + 1, sp, m),
        }
    }
}

/// From address `x`, paths are bounded by `n` at every text position from `lo` to the end.
pub open spec fn bounded_from(prog: Seq<InstOp>, text: Seq<char>, x: int, lo: int, n: nat) -> bool {
    forall|j: int| lo <= j <= text.len() ==> #[trigger] paths_bounded(prog, text, x, j, n)
}

/// How many instructions a path through the code for `ast` can take, over a text of length `m`.
pub open spec fn path_bound(ast: Ast, m: nat) -> nat
    decreases ast,
{
    match ast {
        Ast::Empty => 0,
        Ast::Conj(a, c) => path_bound(*a, m) + path_bound(*c, m),
        Ast::Disj(a, c) => path_bound(*a, m) + path_bound(*c, m) + 2,
        Ast::Repeat(a, min, max) => if is_opt_bounds(min, max) {
            path_bound(*a, m) + 1
        } else {
            (m + 2) * (path_bound(*a, m) + 2)
        },
        _ => 1,
    }
}

/// The first text position after `sp` at which a path can leave the code for `ast`.
pub open spec fn exit_from(ast: Ast, sp: int) -> int {
    if can_match_empty(ast) {
        sp
    } else {
        sp + 1
    }
}

pub open spec fn pow3(n: nat) -> nat
    decreases n,
{
    if n == 0 {
        1
    } else {
        3 * pow3((n - 1) as nat)
    }
}

/// The sum of `3^n` over the bounds `ns`.
pub open spec fn weight(ns: Seq<nat>) -> nat
    decreases ns.len(),
{
    if ns.len() == 0 {
        0
    } else {
        weight(ns.drop_last()) + pow3(ns.last())
    }
}

proof fn lemma_pow3_step(n: nat)
    requires
        n > 0,
    ensures
        pow3(n) >= 2 * pow3((n - 1) as nat) + 1,
{
    assert(pow3((n - 1) as nat) >= 1) by {
        lemma_pow3_positive((n - 1) as nat);
    }
}

proof fn lemma_pow3_positive(n: nat)
    ensures
        pow3(n) >= 1,
    decreases n,
{
    if n > 0 {
        lemma_pow3_positive((n - 1) as nat);
    }
}

proof fn lemma_paths_bounded_mono(prog: Seq<InstOp>, text: Seq<char>, pc: int, sp: int, n: nat, n2: nat)
    requires
        paths_bounded(prog, text, pc, sp, n),
        n <= n2,
    ensures
        paths_bounded(prog, text, pc, sp, n2),
    decreases n,
{
    let m = (n - 1) as nat;
    let m2 = (n2 - 1) as nat;
    match prog[pc] {
        InstOp::AnyChar | InstOp::Char(_) => {
            if paths_bounded(prog, text, pc + 1, sp + 1, m) {
                lemma_paths_bounded_mono(prog, text, pc + 1, sp + 1, m, m2);
            }
        },
        InstOp::Jump(l) => lemma_paths_bounded_mono(prog, text, l as int, sp, m, m2),
        InstOp::Split(l1, l2) => {
            lemma_paths_bounded_mono(prog, text, l1 as int, sp, m, m2);
            lemma_paths_bounded_mono(prog, text, l2 as int, sp, m, m2);
        },
        InstOp::PositionHead | InstOp::PositionTail => {
            if paths_bounded(prog, text, pc + 1, sp, m) {
                lemma_paths_bounded_mono(prog, text, pc + 1, sp, m, m2);
            }
        },
        _ => {},
    }
}

/// A machine whose current thread and pending threads have bounded paths answers within
/// `3^n` steps per thread.
proof fn lemma_run_halts(
    prog: Seq<InstOp>,
    text: Seq<char>,
    s: VMState,
    stack: Seq<VMState>,
    n: nat,
    ns: Seq<nat>,
    fuel: nat,
)
    requires
        prog.len() <= usize::MAX,
        text.len() <= usize::MAX,
        paths_bounded(prog, text, s.pc as int, s.sp as int, n),
        ns.len() == stack.len(),
        forall|i: int|
            0 <= i < stack.len() ==> #[trigger] paths_bounded(
                prog,
                text,
                stack[i].pc as int,
                stack[i].sp as int,
                ns[i],
            ),
        fuel >= pow3(n) + weight(ns),
    ensures
        run(prog, text, s, stack, fuel) is Some,
    decreases fuel, 0int,
{
    let m = (n - 1) as nat;
    let f = (fuel - 1) as nat;
    lemma_pow3_step(n);
    match prog[s.pc as int] {
        InstOp::Match => {},
        InstOp::AnyChar => {
            if s.sp < text.len() {
                lemma_run_halts(prog, text, VMState { pc: (s.pc + 1) as usize, sp: (s.sp + 1) as usize }, stack, m, ns, f);
            } else {
                lemma_backtrack_halts(prog, text, stack, ns, f);
            }
        },
        InstOp::Char(c) => {
            if s.sp < text.len() && text[s.sp as int] == c {
                lemma_run_halts(prog, text, VMState { pc: (s.pc + 1) as usize, sp: (s.sp + 1) as usize }, stack, m, ns, f);
            } else {
                lemma_backtrack_halts(prog, text, stack, ns, f);
            }
        },
        InstOp::Jump(l) => {
            lemma_run_halts(prog, text, VMState { pc: l, sp: s.sp }, stack, m, ns, f);
        },
        InstOp::Split(l1, l2) => {
            let t = VMState { pc: l2, sp: s.sp };
            let stack2 = stack.push(t);
            let ns2 = ns.push(m);
            assert(ns2.drop_last() =~= ns);
            assert forall|i: int| 0 <= i < stack2.len() implies #[trigger] paths_bounded(
                prog,
                text,
                stack2[i].pc as int,
                stack2[i].sp as int,
                ns2[i],
            ) by {
                if i < stack.len() {
                    assert(paths_bounded(prog, text, stack[i].pc as int, stack[i].sp as int, ns[i]));
                }
            }
            lemma_run_halts(prog, text, VMState { pc: l1, sp: s.sp }, stack2, m, ns2, f);
        },
        InstOp::PositionHead => {
            if s.sp == 0 {
                lemma_run_halts(prog, text, VMState { pc: (s.pc + 1) as usize, sp: s.sp }, stack, m, ns, f);
            } else {
                lemma_backtrack_halts(prog, text, stack, ns, f);
            }
        },
        InstOp::PositionTail => {
            if s.sp == text.len() {
                lemma_run_halts(prog, text, VMState { pc: (s.pc + 1) as usize, sp: s.sp }, stack, m, ns, f);
            } else {
                lemma_backtrack_halts(prog, text, stack, ns, f);
            }
        },
    }
}

proof fn lemma_backtrack_halts(prog: Seq<InstOp>, text: Seq<char>, stack: Seq<VMState>, ns: Seq<nat>, fuel: nat)
    requires
        prog.len() <= usize::MAX,
        text.len() <= usize::MAX,
        ns.len() == stack.len(),
        forall|i: int|
            0 <= i < stack.len() ==> #[trigger] paths_bounded(
                prog,
                text,
                stack[i].pc as int,
                stack[i].sp as int,
                ns[i],
            ),
        fuel >= weight(ns),
    ensures
        backtrack(prog, text, stack, fuel) is Some,
    decreases fuel, 1int,
{
    if stack.len() > 0 {
        let last = stack.len() - 1;
        assert(paths_bounded(prog, text, stack[last].pc as int, stack[last].sp as int, ns[last]));
        let rest = stack.drop_last();
        let ns_rest = ns.drop_last();
        assert forall|i: int| 0 <= i < rest.len() implies #[trigger] paths_bounded(
            prog,
            text,
            rest[i].pc as int,
            rest[i].sp as int,
            ns_rest[i],
        ) by {
            assert(paths_bounded(prog, text, stack[i].pc as int, stack[i].sp as int, ns[i]));
        }
        lemma_run_halts(prog, text, stack.last(), rest, ns.last(), ns_rest, fuel);
    }
}

/// Paths through the code for `ast` at `b`, entered at text position `sp`, take at most
/// `path_bound(ast, ..)` instructions before they leave it; so paths from its start are bounded
/// when paths from its end are, at every position where a path can leave it.
proof fn lemma_fragment_bounded(prog: Seq<InstOp>, text: Seq<char>, ast: Ast, b: nat, sp: int, e: nat)
    requires
        fragment_at(prog, ast, b),
        loops_consume(ast),
        0 <= sp <= text.len(),
        bounded_from(prog, text, (b + code_len(ast)) as int, exit_from(ast, sp), e),
    ensures
        paths_bounded(prog, text, b as int, sp, e + path_bound(ast, text.len())),
    decreases ast, 1int, 0int,
{
    let m = text.len();
    let x = b + code_len(ast);
    lemma_code_len(ast, b);
    match ast {
        Ast::Empty => {
            assert(paths_bounded(prog, text, (x) as int, sp, e));
        },
        Ast::Conj(a, c) => {
            let la = code_len(*a);
            let ec = e + path_bound(*c, m);
            lemma_layout_conj(prog, *a, *c, b);
            assert forall|k: int| exit_from(*a, sp) <= k <= text.len() implies #[trigger] paths_bounded(
                prog,
                text,
                (b + la) as int,
                k,
                ec,
            ) by {
                assert forall|j: int| exit_from(*c, k) <= j <= text.len() implies #[trigger] paths_bounded(
                    prog,
                    text,
                    ((b + la) + code_len(*c)) as int,
                    j,
                    e,
                ) by {
                    assert(paths_bounded(prog, text, x as int, j, e));
                }
                lemma_fragment_bounded(prog, text, *c, b + la, k, e);
            }
            lemma_fragment_bounded(prog, text, *a, b, sp, ec);
        },
        Ast::Disj(a, c) => {
            let la = code_len(*a);
            let jump = b + 1 + la;
            lemma_layout_disj(prog, *a, *c, b);
            lemma_code_len(*a, b + 1);
            assert forall|j: int| exit_from(*a, sp) <= j <= text.len() implies #[trigger] paths_bounded(
                prog,
                text,
                ((b + 1) + code_len(*a)) as int,
                j,
                e + 1,
            ) by {
                assert(paths_bounded(prog, text, x as int, j, e));
            }
            lemma_fragment_bounded(prog, text, *a, b + 1, sp, e + 1);
            assert forall|j: int| exit_from(*c, sp) <= j <= text.len() implies #[trigger] paths_bounded(
                prog,
                text,
                ((b + la + 2) + code_len(*c)) as int,
                j,
                e,
            ) by {
                assert(paths_bounded(prog, text, x as int, j, e));
            }
            lemma_fragment_bounded(prog, text, *c, b + la + 2, sp, e);
            let top = e + path_bound(*a, m) + path_bound(*c, m) + 1;
            lemma_paths_bounded_mono(prog, text, (b + 1) as int, sp, e + 1 + path_bound(*a, m), top);
            lemma_paths_bounded_mono(prog, text, (b + la + 2) as int, sp, e + path_bound(*c, m), top);
        },
        Ast::Repeat(a, min, max) => {
            if is_star_bounds(min, max) {
                lemma_star_bounded(prog, text, ast, b, sp, e);
                assert((m - sp + 1) * (path_bound(*a, m) + 2) <= (m + 2) * (path_bound(*a, m) + 2))
                    by (nonlinear_arith)
                    requires
                        0 <= sp <= m,
                ;
                lemma_paths_bounded_mono(
                    prog,
                    text,
                    b as int,
                    sp,
                    (e + (m - sp + 1) * (path_bound(*a, m) + 2)) as nat,
                    e + path_bound(ast, m),
                );
            } else if is_plus_bounds(min, max) {
                lemma_plus_bounded(prog, text, ast, b, sp, e);
                assert((m - sp + 1) * (path_bound(*a, m) + 2) <= (m + 2) * (path_bound(*a, m) + 2))
                    by (nonlinear_arith)
                    requires
                        0 <= sp <= m,
                ;
                lemma_paths_bounded_mono(
                    prog,
                    text,
                    b as int,
                    sp,
                    (e + (m - sp + 1) * (path_bound(*a, m) + 2)) as nat,
                    e + path_bound(ast, m),
                );
            } else {
                let la = code_len(*a);
                lemma_layout_opt(prog, *a, b);
                lemma_code_len(*a, b + 1);
                assert forall|j: int| exit_from(*a, sp) <= j <= text.len() implies #[trigger] paths_bounded(
                    prog,
                    text,
                    ((b + 1) + code_len(*a)) as int,
                    j,
                    e,
                ) by {
                    assert(paths_bounded(prog, text, x as int, j, e));
                }
                lemma_fragment_bounded(prog, text, *a, b + 1, sp, e);
                assert(paths_bounded(prog, text, x as int, sp, e));
                lemma_paths_bounded_mono(prog, text, x as int, sp, e, e + path_bound(*a, m));
            }
        },
        _ => {
            lemma_layout_single(prog, ast, b);
            if ast is AnyChar || ast is Char {
                if sp < m {
                    assert(paths_bounded(prog, text, x as int, sp + 1, e));
                }
            } else {
                assert(paths_bounded(prog, text, x as int, sp, e));
            }
        },
    }
}

proof fn lemma_star_bounded(prog: Seq<InstOp>, text: Seq<char>, ast: Ast, b: nat, sp: int, e: nat)
    requires
        ast matches Ast::Repeat(_, min, max) && is_star_bounds(min, max),
        fragment_at(prog, ast, b),
        loops_consume(ast),
        0 <= sp <= text.len(),
        bounded_from(prog, text, (b + code_len(ast)) as int, sp, e),
    ensures
        paths_bounded(
            prog,
            text,
            b as int,
            sp,
            (e + (text.len() - sp + 1) * (path_bound(repeat_body(ast), text.len()) + 2)) as nat,
        ),
    decreases ast, 0int, text.len() - sp,
{
    let a = repeat_body(ast);
    let m = text.len();
    let pb = path_bound(a, m);
    let la = code_len(a);
    let x = b + code_len(ast);
    assert(ast == Ast::Repeat(Box::new(a), None, None));
    lemma_layout_star(prog, a, b);
    lemma_code_len(a, b + 1);
    let e1 = (e + (m - sp) * (pb + 2)) as nat;
    assert forall|j: int| sp + 1 <= j <= text.len() implies #[trigger] paths_bounded(
        prog,
        text,
        ((b + 1) + code_len(a)) as int,
        j,
        e1 + 1,
    ) by {
        lemma_star_bounded(prog, text, ast, b, j, e);
        assert((m - j + 1) * (pb + 2) <= (m - sp) * (pb + 2)) by (nonlinear_arith)
            requires
                sp + 1 <= j <= m,
        ;
        lemma_paths_bounded_mono(prog, text, b as int, j, (e + (m - j + 1) * (pb + 2)) as nat, e1);
    }
    lemma_fragment_bounded(prog, text, a, b + 1, sp, e1 + 1);
    assert(paths_bounded(prog, text, x as int, sp, e));
    lemma_paths_bounded_mono(prog, text, x as int, sp, e, e1 + 1 + pb);
    assert(e1 + pb + 2 == e + (m - sp + 1) * (pb + 2)) by (nonlinear_arith)
        requires
            e1 == e + (m - sp) * (pb + 2),
    ;
}

proof fn lemma_plus_bounded(prog: Seq<InstOp>, text: Seq<char>, ast: Ast, b: nat, sp: int, e: nat)
    requires
        ast matches Ast::Repeat(_, min, max) && is_plus_bounds(min, max),
        fragment_at(prog, ast, b),
        loops_consume(ast),
        0 <= sp <= text.len(),
        bounded_from(prog, text, (b + code_len(ast)) as int, sp + 1, e),
    ensures
        paths_bounded(
            prog,
            text,
            b as int,
            sp,
            (e + (text.len() - sp + 1) * (path_bound(repeat_body(ast), text.len()) + 2)) as nat,
        ),
    decreases ast, 0int, text.len() - sp,
{
    let a = repeat_body(ast);
    let m = text.len();
    let pb = path_bound(a, m);
    let la = code_len(a);
    let x = b + code_len(ast);
    assert(ast == Ast::Repeat(Box::new(a), Some(1), None));
    lemma_layout_plus(prog, a, b);
    lemma_code_len(a, b);
    let e1 = (e + (m - sp) * (pb + 2)) as nat;
    assert forall|j: int| sp + 1 <= j <= text.len() implies #[trigger] paths_bounded(
        prog,
        text,
        (b + code_len(a)) as int,
        j,
        e1 + 1,
    ) by {
        lemma_plus_bounded(prog, text, ast, b, j, e);
        assert((m - j + 1) * (pb + 2) <= (m - sp) * (pb + 2)) by (nonlinear_arith)
            requires
                sp + 1 <= j <= m,
        ;
        lemma_paths_bounded_mono(prog, text, b as int, j, (e + (m - j + 1) * (pb + 2)) as nat, e1);
        assert(paths_bounded(prog, text, x as int, j, e));
        lemma_paths_bounded_mono(prog, text, x as int, j, e, e1);
    }
    lemma_fragment_bounded(prog, text, a, b, sp, e1 + 1);
    lemma_paths_bounded_mono(prog, text, b as int, sp, e1 + 1 + pb, e1 + pb + 2);
    assert(e1 + pb + 2 == e + (m - sp + 1) * (pb + 2)) by (nonlinear_arith)
        requires
            e1 == e + (m - sp) * (pb + 2),
    ;
}

/// A search with the program compiled from a pattern in which no `*` or `+` repeats
/// something that can match the empty string comes to an answer, on every text.
pub proof fn lemma_search_halts(ast: Ast, text: Seq<char>)
    requires
        supported(ast),
        loops_consume(ast),
        code_len(ast) < usize::MAX,
        text.len() <= usize::MAX,
    ensures
        match_halts(program(ast), text),
{
    let prog = program(ast);
    let l = code_len(ast);
    let m = text.len();
    let n = 1 + path_bound(ast, m);
    lemma_code_len(ast, 0);
    assert(placed(prog, code(ast, 0), 0)) by {
        assert forall|k: int| 0 <= k < code(ast, 0).len() implies #[trigger] code(ast, 0)[k] == prog[0
            + k] by {}
    }
    assert(prog[l as int] == InstOp::Match);
    assert forall|j: int| 0 <= j <= m implies #[trigger] paths_bounded(prog, text, l as int, j, 1) by {}
    let threads = initial_threads(m);
    let ns = Seq::new(m, |i: int| n);
    assert forall|i: int| 0 <= i < threads.len() implies #[trigger] paths_bounded(
        prog,
        text,
        threads[i].pc as int,
        threads[i].sp as int,
        ns[i],
    ) by {
        let sp = m - 1 - i;
        assert(bounded_from(prog, text, (0 + code_len(ast)) as int, exit_from(ast, sp), 1));
        lemma_fragment_bounded(prog, text, ast, 0, sp, 1);
    }
    lemma_backtrack_halts(prog, text, threads, ns, weight(ns));
}

} // verus!
