use vstd::prelude::*;

use crate::ast::{Ast, is_star_bounds, is_plus_bounds, is_opt_bounds, supported};
use crate::vm::well_formed;

verus! {

/// One instruction of the matching machine.
#[derive(Debug, PartialEq, Eq, Clone, Copy)]
pub enum InstOp {
    Match,
    AnyChar,
    Char(char),
    Jump(usize),
    Split(usize, usize),
    PositionHead,
    PositionTail,
}

/// A program of the matching machine; addresses are indices into it.
pub type Inst = Vec<InstOp>;

/// The number of instructions that `ast` compiles to.
pub open spec fn code_len(ast: Ast) -> nat
    decreases ast,
{
    match ast {
        Ast::Empty => 0,
        Ast::Conj(a, b) => code_len(*a) + code_len(*b),
        Ast::Disj(a, b) => code_len(*a) + code_len(*b) + 2,
        Ast::Repeat(a, min, max) => {
            if is_star_bounds(min, max) {
                code_len(*a) + 2
            } else if is_plus_bounds(min, max) || is_opt_bounds(min, max) {
                code_len(*a) + 1
            } else {
                0
            }
        },
        _ => 1,
    }
}

/// The instructions for `ast` when its first instruction stands at address `b`.
/// Control leaves the fragment by falling through to address `b + code_len(ast)`.
///
/// - `a|c`: `split L1, L2; L1: a; jump L3; L2: c; L3:`
/// - `a*`: `L1: split L2, L3; L2: a; jump L1; L3:`
/// - `a+`: `L1: a; split L1, L2; L2:`
/// - `a?`: `split L1, L2; L1: a; L2:`
pub open spec fn code(ast: Ast, b: nat) -> Seq<InstOp>
    decreases ast,
{
    match ast {
        Ast::Empty => seq![],
        Ast::AnyChar => seq![InstOp::AnyChar],
        Ast::Char(c) => seq![InstOp::Char(c)],
        Ast::Head => seq![InstOp::PositionHead],
        Ast::Tail => seq![InstOp::PositionTail],
        Ast::Conj(a, c) => code(*a, b) + code(*c, b + code_len(*a)),
        Ast::Disj(a, c) => {
            let la = code_len(*a);
            let lc = code_len(*c);
            seq![InstOp::Split((b + 1) as usize, (b + la + 2) as usize)] + code(*a, b + 1)
                + seq![InstOp::Jump((b + la + lc + 2) as usize)] + code(*c, b + la + 2)
        },
        Ast::Repeat(a, min, max) => {
            let la = code_len(*a);
            if is_star_bounds(min, max) {
                seq![InstOp::Split((b + 1) as usize, (b + la + 2) as usize)] + code(*a, b + 1)
                    + seq![InstOp::Jump(b as usize)]
            } else if is_plus_bounds(min, max) {
                code(*a, b) + seq![InstOp::Split(b as usize, (b + la + 1) as usize)]
            } else if is_opt_bounds(min, max) {
                seq![InstOp::Split((b + 1) as usize, (b + la + 1) as usize)] + code(*a, b + 1)
            } else {
                seq![]
            }
        },
    }
}

/// The whole program for `ast`: its code at address 0, then `Match`.
pub open spec fn program(ast: Ast) -> Seq<InstOp> {
    code(ast, 0).push(InstOp::Match)
}

/// The jump targets of an instruction, if it has any, lie in `lo..=hi`.
pub open spec fn op_targets_within(op: InstOp, lo: nat, hi: nat) -> bool {
    match op {
        InstOp::Jump(l) => lo <= l <= hi,
        InstOp::Split(l1, l2) => lo <= l1 <= hi && lo <= l2 <= hi,
        _ => true,
    }
}

pub open spec fn targets_within(s: Seq<InstOp>, lo: nat, hi: nat) -> bool {
    forall|k: int| 0 <= k < s.len() ==> #[trigger] op_targets_within(s[k], lo, hi)
}

/// An instruction with its jump targets moved by `offset`.
pub open spec fn shift_op(op: InstOp, offset: nat) -> InstOp {
    match op {
        InstOp::Jump(l) => InstOp::Jump((l + offset) as usize),
        InstOp::Split(l1, l2) => InstOp::Split((l1 + offset) as usize, (l2 + offset) as usize),
        _ => op,
    }
}

/// A sequence of instructions with all jump targets moved by `offset`.
pub open spec fn shift_code(s: Seq<InstOp>, offset: nat) -> Seq<InstOp> {
    Seq::new(s.len(), |k: int| shift_op(s[k], offset))
}

pub proof fn lemma_code_len(ast: Ast, b: nat)
    ensures
        code(ast, b).len() == code_len(ast),
    decreases ast,
{
    match ast {
        Ast::Conj(a, c) => {
            lemma_code_len(*a, b);
            lemma_code_len(*c, b + code_len(*a));
        },
        Ast::Disj(a, c) => {
            lemma_code_len(*a, b + 1);
            lemma_code_len(*c, b + code_len(*a) + 2);
        },
        Ast::Repeat(a, min, max) => {
            lemma_code_len(*a, b);
            lemma_code_len(*a, b + 1);
        },
        _ => {},
    }
}

proof fn lemma_targets_add(s1: Seq<InstOp>, s2: Seq<InstOp>, lo: nat, hi: nat)
    requires
        targets_within(s1, lo, hi),
        targets_within(s2, lo, hi),
    ensures
        targets_within(s1 + s2, lo, hi),
{
    assert forall|k: int| 0 <= k < (s1 + s2).len() implies #[trigger] op_targets_within(
        (s1 + s2)[k],
        lo,
        hi,
    ) by {
        if k < s1.len() {
            assert(op_targets_within(s1[k], lo, hi));
        } else {
            assert(op_targets_within(s2[k - s1.len()], lo, hi));
        }
    }
}

proof fn lemma_targets_widen(s: Seq<InstOp>, lo: nat, hi: nat, lo2: nat, hi2: nat)
    requires
        targets_within(s, lo, hi),
        lo2 <= lo,
        hi <= hi2,
    ensures
        targets_within(s, lo2, hi2),
{
    assert forall|k: int| 0 <= k < s.len() implies #[trigger] op_targets_within(s[k], lo2, hi2) by {
        assert(op_targets_within(s[k], lo, hi));
    }
}

/// The jump targets of the code for `ast` at `b` stay within `b..=b + code_len(ast)`.
#[verifier::rlimit(50)]
pub proof fn lemma_code_targets(ast: Ast, b: nat)
    requires
        b + code_len(ast) <= usize::MAX,
    ensures
        targets_within(code(ast, b), b, b + code_len(ast)),
    decreases ast,
{
    let hi = b + code_len(ast);
    match ast {
        Ast::Conj(a, c) => {
            let la = code_len(*a);
            lemma_code_targets(*a, b);
            lemma_code_targets(*c, b + la);
            lemma_targets_widen(code(*a, b), b, b + la, b, hi);
            lemma_targets_widen(code(*c, b + la), b + la, hi, b, hi);
            lemma_targets_add(code(*a, b), code(*c, b + la), b, hi);
        },
        Ast::Disj(a, c) => {
            let la = code_len(*a);
            lemma_code_targets(*a, b + 1);
            lemma_code_targets(*c, b + la + 2);
            lemma_targets_widen(code(*a, b + 1), b + 1, b + 1 + la, b, hi);
            lemma_targets_widen(code(*c, b + la + 2), b + la + 2, hi, b, hi);
            let s0 = seq![InstOp::Split((b + 1) as usize, (b + la + 2) as usize)];
            let s2 = seq![InstOp::Jump(hi as usize)];
            assert(op_targets_within(s0[0], b, hi));
            assert(op_targets_within(s2[0], b, hi));
            lemma_targets_add(s0, code(*a, b + 1), b, hi);
            lemma_targets_add(s0 + code(*a, b + 1), s2, b, hi);
            lemma_targets_add(s0 + code(*a, b + 1) + s2, code(*c, b + la + 2), b, hi);
        },
        Ast::Repeat(a, min, max) => {
            let la = code_len(*a);
            if is_star_bounds(min, max) {
                lemma_code_targets(*a, b + 1);
                lemma_targets_widen(code(*a, b + 1), b + 1, b + 1 + la, b, hi);
                let s0 = seq![InstOp::Split((b + 1) as usize, hi as usize)];
                let s2 = seq![InstOp::Jump(b as usize)];
                assert(op_targets_within(s0[0], b, hi));
                assert(op_targets_within(s2[0], b, hi));
                lemma_targets_add(s0, code(*a, b + 1), b, hi);
                lemma_targets_add(s0 + code(*a, b + 1), s2, b, hi);
            } else if is_plus_bounds(min, max) {
                lemma_code_targets(*a, b);
                lemma_targets_widen(code(*a, b), b, b + la, b, hi);
                let s2 = seq![InstOp::Split(b as usize, hi as usize)];
                assert(op_targets_within(s2[0], b, hi));
                lemma_targets_add(code(*a, b), s2, b, hi);
            } else if is_opt_bounds(min, max) {
                lemma_code_targets(*a, b + 1);
                lemma_targets_widen(code(*a, b + 1), b + 1, b + 1 + la, b, hi);
                let s0 = seq![InstOp::Split((b + 1) as usize, hi as usize)];
                assert(op_targets_within(s0[0], b, hi));
                lemma_targets_add(s0, code(*a, b + 1), b, hi);
            }
        },
        _ => {},
    }
}

/// No instruction of `s` is `Match`.
pub open spec fn no_match(s: Seq<InstOp>) -> bool {
    forall|k: int| 0 <= k < s.len() ==> !(#[trigger] s[k] is Match)
}

proof fn lemma_no_match_add(s1: Seq<InstOp>, s2: Seq<InstOp>)
    requires
        no_match(s1),
        no_match(s2),
    ensures
        no_match(s1 + s2),
{
    assert forall|k: int| 0 <= k < (s1 + s2).len() implies !(#[trigger] (s1 + s2)[k] is Match) by {
        if k < s1.len() {
            assert(!(s1[k] is Match));
        } else {
            assert(!(s2[k - s1.len()] is Match));
        }
    }
}

/// The code for a node holds no `Match`: only the end of a whole program does.
pub proof fn lemma_code_no_match(ast: Ast, b: nat)
    ensures
        no_match(code(ast, b)),
    decreases ast,
{
    match ast {
        Ast::Conj(a, c) => {
            lemma_code_no_match(*a, b);
            lemma_code_no_match(*c, b + code_len(*a));
            lemma_no_match_add(code(*a, b), code(*c, b + code_len(*a)));
        },
        Ast::Disj(a, c) => {
            let la = code_len(*a);
            let lc = code_len(*c);
            lemma_code_no_match(*a, b + 1);
            lemma_code_no_match(*c, b + la + 2);
            let s0 = seq![InstOp::Split((b + 1) as usize, (b + la + 2) as usize)];
            let s2 = seq![InstOp::Jump((b + la + lc + 2) as usize)];
            assert(!(s0[0] is Match));
            assert(!(s2[0] is Match));
            lemma_no_match_add(s0, code(*a, b + 1));
            lemma_no_match_add(s0 + code(*a, b + 1), s2);
            lemma_no_match_add(s0 + code(*a, b + 1) + s2, code(*c, b + la + 2));
        },
        Ast::Repeat(a, min, max) => {
            let la = code_len(*a);
            if is_star_bounds(min, max) {
                lemma_code_no_match(*a, b + 1);
                let s0 = seq![InstOp::Split((b + 1) as usize, (b + la + 2) as usize)];
                let s2 = seq![InstOp::Jump(b as usize)];
                assert(!(s0[0] is Match));
                assert(!(s2[0] is Match));
                lemma_no_match_add(s0, code(*a, b + 1));
                lemma_no_match_add(s0 + code(*a, b + 1), s2);
            } else if is_plus_bounds(min, max) {
                lemma_code_no_match(*a, b);
                let s2 = seq![InstOp::Split(b as usize, (b + la + 1) as usize)];
                assert(!(s2[0] is Match));
                lemma_no_match_add(code(*a, b), s2);
            } else if is_opt_bounds(min, max) {
                lemma_code_no_match(*a, b + 1);
                let s0 = seq![InstOp::Split((b + 1) as usize, (b + la + 1) as usize)];
                assert(!(s0[0] is Match));
                lemma_no_match_add(s0, code(*a, b + 1));
            }
        },
        _ => {},
    }
}

/// The code that `compile_ast_sub` appends after `n` instructions: `code_len(ast)`
/// instructions, none of them `Match`, whose jump targets stay within `n..=n + code_len(ast)`
/// (the fragment itself and the address just after it), and which is the code compiled on its
/// own with every target moved by `n`.
pub proof fn lemma_compiled_fragment(ast: Ast, n: nat)
    requires
        n + code_len(ast) <= usize::MAX,
    ensures
        code(ast, n).len() == code_len(ast),
        no_match(code(ast, n)),
        targets_within(code(ast, n), n, n + code_len(ast)),
        code(ast, n) == shift_code(code(ast, 0), n),
{
    lemma_code_len(ast, n);
    lemma_code_no_match(ast, n);
    lemma_code_targets(ast, n);
    lemma_shift_code(ast, 0, n);
}

/// A compiled program ends in `Match`, holds no other `Match`, and every jump target in it is
/// one of its addresses.
pub proof fn lemma_program_well_formed(ast: Ast)
    requires
        code_len(ast) < usize::MAX,
    ensures
        well_formed(program(ast)),
{
    let l = code_len(ast);
    let p = program(ast);
    lemma_compiled_fragment(ast, 0);
    assert forall|k: int| 0 <= k < p.len() - 1 implies !(#[trigger] p[k] is Match) by {
        assert(p[k] == code(ast, 0)[k]);
    }
    assert forall|k: int| 0 <= k < p.len() implies #[trigger] op_targets_within(p[k], 0, l) by {
        if k < l {
            assert(p[k] == code(ast, 0)[k]);
            assert(op_targets_within(code(ast, 0)[k], 0, l));
        }
    }
}

proof fn lemma_shift_add(s1: Seq<InstOp>, s2: Seq<InstOp>, offset: nat)
    ensures
        shift_code(s1 + s2, offset) == shift_code(s1, offset) + shift_code(s2, offset),
{
    assert(shift_code(s1 + s2, offset) =~= shift_code(s1, offset) + shift_code(s2, offset));
}

/// Moving the code for `ast` at `b` by `offset` gives its code at `b + offset`.
#[verifier::rlimit(50)]
pub proof fn lemma_shift_code(ast: Ast, b: nat, offset: nat)
    requires
        b + offset + code_len(ast) <= usize::MAX,
    ensures
        shift_code(code(ast, b), offset) == code(ast, b + offset),
    decreases ast,
{
    let hi = b + code_len(ast);
    match ast {
        Ast::Empty => {
            assert(shift_code(code(ast, b), offset) =~= code(ast, b + offset));
        },
        Ast::Conj(a, c) => {
            let la = code_len(*a);
            lemma_shift_code(*a, b, offset);
            lemma_shift_code(*c, b + la, offset);
            lemma_shift_add(code(*a, b), code(*c, b + la), offset);
        },
        Ast::Disj(a, c) => {
            let la = code_len(*a);
            lemma_shift_code(*a, b + 1, offset);
            lemma_shift_code(*c, b + la + 2, offset);
            let s0 = seq![InstOp::Split((b + 1) as usize, (b + la + 2) as usize)];
            let s2 = seq![InstOp::Jump(hi as usize)];
            lemma_shift_add(s0, code(*a, b + 1), offset);
            lemma_shift_add(s0 + code(*a, b + 1), s2, offset);
            lemma_shift_add(s0 + code(*a, b + 1) + s2, code(*c, b + la + 2), offset);
            assert(shift_code(s0, offset) =~= seq![
                InstOp::Split((b + offset + 1) as usize, (b + offset + la + 2) as usize),
            ]);
            assert(shift_code(s2, offset) =~= seq![InstOp::Jump((hi + offset) as usize)]);
        },
        Ast::Repeat(a, min, max) => {
            let la = code_len(*a);
            if is_star_bounds(min, max) {
                lemma_shift_code(*a, b + 1, offset);
                let s0 = seq![InstOp::Split((b + 1) as usize, hi as usize)];
                let s2 = seq![InstOp::Jump(b as usize)];
                lemma_shift_add(s0, code(*a, b + 1), offset);
                lemma_shift_add(s0 + code(*a, b + 1), s2, offset);
                assert(shift_code(s0, offset) =~= seq![
                    InstOp::Split((b + offset + 1) as usize, (hi + offset) as usize),
                ]);
                assert(shift_code(s2, offset) =~= seq![InstOp::Jump((b + offset) as usize)]);
            } else if is_plus_bounds(min, max) {
                lemma_shift_code(*a, b, offset);
                let s2 = seq![InstOp::Split(b as usize, hi as usize)];
                lemma_shift_add(code(*a, b), s2, offset);
                assert(shift_code(s2, offset) =~= seq![
                    InstOp::Split((b + offset) as usize, (hi + offset) as usize),
                ]);
            } else if is_opt_bounds(min, max) {
                lemma_shift_code(*a, b + 1, offset);
                let s0 = seq![InstOp::Split((b + 1) as usize, hi as usize)];
                lemma_shift_add(s0, code(*a, b + 1), offset);
                assert(shift_code(s0, offset) =~= seq![
                    InstOp::Split((b + offset + 1) as usize, (hi + offset) as usize),
                ]);
            } else {
                assert(shift_code(code(ast, b), offset) =~= code(ast, b + offset));
            }
        },
        _ => {
            assert(shift_code(code(ast, b), offset) =~= code(ast, b + offset));
        },
    }
}

/// Compiles `ast` into a program that ends in `Match`.
pub fn compile_ast(ast: Ast) -> (inst: Inst)
    requires
        supported(ast),
        code_len(ast) < usize::MAX,
    ensures
        inst@ == program(ast),
{
    let mut inst = compile_ast_sub(ast, vec![]);
    inst.push(InstOp::Match);
    inst
}

/// Appends the code for `ast` to `inst`, placed at address `inst.len()`.
#[verifier::rlimit(50)]
pub fn compile_ast_sub(ast: Ast, inst: Inst) -> (res: Inst)
    requires
        supported(ast),
        inst.len() + code_len(ast) <= usize::MAX,
    ensures
        res@ == inst@ + code(ast, inst.len() as nat),
    decreases ast,
{
    let mut inst = inst;
    let ghost n = inst.len() as nat;
    let ghost old_inst = inst@;
    match ast {
        Ast::Empty => {
            assert(inst@ =~= old_inst + code(Ast::Empty, n));
            inst
        },
        Ast::AnyChar => {
            inst.push(InstOp::AnyChar);
            assert(inst@ =~= old_inst + code(Ast::AnyChar, n));
            inst
        },
        Ast::Char(c) => {
            inst.push(InstOp::Char(c));
            assert(inst@ =~= old_inst + code(Ast::Char(c), n));
            inst
        },
        Ast::Conj(ast1, ast2) => {
            let ghost a1 = *ast1;
            let ghost a2 = *ast2;
            let inst = compile_ast_sub(*ast1, inst);
            proof {
                lemma_code_len(a1, n);
            }
            let res = compile_ast_sub(*ast2, inst);
            assert(res@ =~= old_inst + code(Ast::Conj(Box::new(a1), Box::new(a2)), n));
            res
        },
        Ast::Disj(ast1, ast2) => {
            //     split L1, L2
            // L1: <instructions of `ast1`>
            //     jump L3
            // L2: <instructions of `ast2`>
            // L3:
            let ghost a1 = *ast1;
            let ghost a2 = *ast2;
            let ghost la = code_len(a1);
            let ghost lc = code_len(a2);
            let mut inst1 = compile_ast_sub(*ast1, vec![]);
            let inst2 = compile_ast_sub(*ast2, vec![]);
            proof {
                lemma_code_len(a1, 0);
                lemma_code_len(a2, 0);
            }
            let inst_split = InstOp::Split(inst.len() + 1, inst.len() + inst1.len() + 2);
            inst1.push(InstOp::Jump(inst1.len() + inst2.len() + 1));
            proof {
                lemma_code_targets(a1, 0);
                lemma_code_targets(a2, 0);
                lemma_targets_widen(code(a1, 0), 0, la, 0, la + lc + 1);
                assert(op_targets_within(inst1@[la as int], 0, la + lc + 1));
                lemma_targets_add(code(a1, 0), seq![InstOp::Jump((la + lc + 1) as usize)], 0, la + lc + 1);
                assert(inst1@ =~= code(a1, 0) + seq![InstOp::Jump((la + lc + 1) as usize)]);
                lemma_targets_widen(inst1@, 0, la + lc + 1, 0, (usize::MAX - (n + 1)) as nat);
                lemma_targets_widen(code(a2, 0), 0, lc, 0, (usize::MAX - (n + la + 2)) as nat);
            }
            let mut inst1 = shift_jump_index(inst1, inst.len() + 1);
            proof {
                lemma_shift_add(code(a1, 0), seq![InstOp::Jump((la + lc + 1) as usize)], n + 1);
                lemma_shift_code(a1, 0, n + 1);
                assert(shift_code(seq![InstOp::Jump((la + lc + 1) as usize)], n + 1) =~= seq![
                    InstOp::Jump((n + la + lc + 2) as usize),
                ]);
            }
            let mut inst2 = shift_jump_index(inst2, inst.len() + inst1.len() + 1);
            proof {
                lemma_shift_code(a2, 0, n + la + 2);
            }
            inst.push(inst_split);
            inst.append(&mut inst1);
            inst.append(&mut inst2);
            assert(inst@ =~= old_inst + code(Ast::Disj(Box::new(a1), Box::new(a2)), n));
            inst
        },
        Ast::Repeat(body, bot, top) => {
            let ghost a = *body;
            let ghost la = code_len(a);
            match (bot, top) {
                (None, None) => {
                    // The * operator
                    //
                    // L1: split L2, L3
                    // L2: <instructions of `ast`>
                    //     jump L1
                    // L3:
                    let inst1 = compile_ast_sub(*body, vec![]);
                    proof {
                        lemma_code_len(a, 0);
                        lemma_code_targets(a, 0);
                        lemma_shift_code(a, 0, n + 1);
                        lemma_targets_widen(code(a, 0), 0, la, 0, (usize::MAX - (n + 1)) as nat);
                    }
                    let inst_split = InstOp::Split(inst.len() + 1, inst.len() + inst1.len() + 2);
                    let inst_jump = InstOp::Jump(inst.len());
                    let mut inst1 = shift_jump_index(inst1, inst.len() + 1);
                    inst.push(inst_split);
                    inst.append(&mut inst1);
                    inst.push(inst_jump);
                    assert(inst@ =~= old_inst + code(Ast::Repeat(Box::new(a), bot, top), n));
                    inst
                },
                (Some(1), None) => {
                    // The + operator
                    //
                    // L1: <instructions of `ast`>
                    //     split L1, L2
                    // L2:
                    let mut inst1 = compile_ast_sub(*body, vec![]);
                    proof {
                        lemma_code_len(a, 0);
                        lemma_code_targets(a, 0);
                        lemma_targets_widen(code(a, 0), 0, la, 0, la + 1);
                    }
                    inst1.push(InstOp::Split(0, inst1.len() + 1));
                    proof {
                        assert(op_targets_within(inst1@[la as int], 0, la + 1));
                        lemma_targets_add(code(a, 0), seq![InstOp::Split(0, (la + 1) as usize)], 0, la + 1);
                        assert(inst1@ =~= code(a, 0) + seq![InstOp::Split(0, (la + 1) as usize)]);
                        lemma_shift_add(code(a, 0), seq![InstOp::Split(0, (la + 1) as usize)], n);
                        lemma_shift_code(a, 0, n);
                        assert(shift_code(seq![InstOp::Split(0, (la + 1) as usize)], n) =~= seq![
                            InstOp::Split(n as usize, (n + la + 1) as usize),
                        ]);
                        lemma_targets_widen(inst1@, 0, la + 1, 0, (usize::MAX - n) as nat);
                    }
                    let mut shifted = shift_jump_index(inst1, inst.len());
                    inst.append(&mut shifted);
                    assert(inst@ =~= old_inst + code(Ast::Repeat(Box::new(a), bot, top), n));
                    inst
                },
                (Some(0), Some(1)) => {
                    // The ? operator
                    //
                    //     split L1, L2
                    // L1: <instructions of `ast`>
                    // L2:
                    let inst1 = compile_ast_sub(*body, vec![]);
                    proof {
                        lemma_code_len(a, 0);
                        lemma_code_targets(a, 0);
                        lemma_shift_code(a, 0, n + 1);
                        lemma_targets_widen(code(a, 0), 0, la, 0, (usize::MAX - (n + 1)) as nat);
                    }
                    let split = InstOp::Split(inst.len() + 1, inst.len() + inst1.len() + 1);
                    let mut inst1 = shift_jump_index(inst1, inst.len() + 1);
                    inst.push(split);
                    inst.append(&mut inst1);
                    assert(inst@ =~= old_inst + code(Ast::Repeat(Box::new(a), bot, top), n));
                    inst
                },
                _ => {
                    proof {
                        assert(false);
                    }
                    inst
                },
            }
        },
        Ast::Head => {
            inst.push(InstOp::PositionHead);
            assert(inst@ =~= old_inst + code(Ast::Head, n));
            inst
        },
        Ast::Tail => {
            inst.push(InstOp::PositionTail);
            assert(inst@ =~= old_inst + code(Ast::Tail, n));
            inst
        },
    }
}

/// Moves every jump target in `inst` by `offset`.
pub fn shift_jump_index(inst: Inst, offset: usize) -> (res: Inst)
    requires
        targets_within(inst@, 0, (usize::MAX - offset) as nat),
    ensures
        res@ == shift_code(inst@, offset as nat),
{
    let mut res: Inst = Vec::new();
    let mut i: usize = 0;
    while i < inst.len()
        invariant
            i <= inst.len(),
            targets_within(inst@, 0, (usize::MAX - offset) as nat),
            res@ == shift_code(inst@, offset as nat).take(i as int),
        decreases inst.len() - i,
    {
        let op = inst[i];
        assert(op_targets_within(inst@[i as int], 0, (usize::MAX - offset) as nat));
        let shifted = match op {
            InstOp::Jump(label) => InstOp::Jump(label + offset),
            InstOp::Split(l1, l2) => InstOp::Split(l1 + offset, l2 + offset),
            _ => op,
        };
        res.push(shifted);
        i += 1;
        assert(res@ =~= shift_code(inst@, offset as nat).take(i as int));
    }
    assert(res@ =~= shift_code(inst@, offset as nat));
    res
}

} // verus!
