use vstd::prelude::*;

use crate::compiler::{Inst, InstOp, op_targets_within, targets_within};

verus! {

/// One thread of the matching machine: where it is in the program and in the text.
#[derive(Clone, Copy)]
pub struct VMState {
    /// "Program Counter"
    pub pc: usize,
    /// "String Pointer"
    pub sp: usize,
}

/// A backtracking run of a program over a text.
pub struct VM<'a> {
    s: VMState,
    stack: Vec<VMState>,
    inst: &'a Inst,
    text: Vec<char>,
}

/// A program that the machine can run without leaving it: it ends in `Match`, holds no other
/// `Match`, and every jump target in it is one of its addresses.
pub open spec fn well_formed(prog: Seq<InstOp>) -> bool {
    &&& prog.len() > 0
    &&& prog.last() is Match
    &&& forall|k: int| 0 <= k < prog.len() - 1 ==> !(#[trigger] prog[k] is Match)
    &&& targets_within(prog, 0, (prog.len() - 1) as nat)
}

/// The machine in state `s` with pending threads `stack` (its top is the last element)
/// runs for at most `fuel` steps. `Some(b)` is its answer; `None` means that it did not
/// answer within `fuel` steps, or that its program counter left the program.
pub open spec fn run(
    prog: Seq<InstOp>,
    text: Seq<char>,
    s: VMState,
    stack: Seq<VMState>,
    fuel: nat,
) -> Option<bool>
    decreases fuel, 0int,
{
    if fuel == 0 {
        None
    } else if s.pc >= prog.len() {
        None
    } else {
        let next = VMState { pc: (s.pc + 1) as usize, sp: s.sp };
        let forward = VMState { pc: (s.pc + 1) as usize, sp: (s.sp + 1) as usize };
        match prog[s.pc as int] {
            InstOp::Match => Some(true),
            InstOp::AnyChar => if s.sp < text.len() {
                run(prog, text, forward, stack, (fuel - 1) as nat)
            } else {
                backtrack(prog, text, stack, (fuel - 1) as nat)
            },
            InstOp::Char(c) => if s.sp < text.len() && text[s.sp as int] == c {
                run(prog, text, forward, stack, (fuel - 1) as nat)
            } else {
                backtrack(prog, text, stack, (fuel - 1) as nat)
            },
            InstOp::Jump(l) => run(prog, text, VMState { pc: l, sp: s.sp }, stack, (fuel - 1) as nat),
            InstOp::Split(l1, l2) => run(
                prog,
                text,
                VMState { pc: l1, sp: s.sp },
                stack.push(VMState { pc: l2, sp: s.sp }),
                (fuel - 1) as nat,
            ),
            InstOp::PositionHead => if s.sp == 0 {
                run(prog, text, next, stack, (fuel - 1) as nat)
            } else {
                backtrack(prog, text, stack, (fuel - 1) as nat)
            },
            InstOp::PositionTail => if s.sp == text.len() {
                run(prog, text, next, stack, (fuel - 1) as nat)
            } else {
                backtrack(prog, text, stack, (fuel - 1) as nat)
            },
        }
    }
}

/// The current thread failed: resume the thread on top of `stack`, or answer `false`
/// when there is none.
pub open spec fn backtrack(prog: Seq<InstOp>, text: Seq<char>, stack: Seq<VMState>, fuel: nat) -> Option<
    bool,
>
    decreases fuel, 1int,
{
    if stack.len() == 0 {
        Some(false)
    } else {
        run(prog, text, stack.last(), stack.drop_last(), fuel)
    }
}

/// One step of the machine: the next current thread and pending threads, or `None` when it
/// stops (at `Match`, after a failure with no thread left, or outside the program).
pub open spec fn step(prog: Seq<InstOp>, text: Seq<char>, s: VMState, stack: Seq<VMState>) -> Option<
    (VMState, Seq<VMState>),
> {
    let next = VMState { pc: (s.pc + 1) as usize, sp: s.sp };
    let forward = VMState { pc: (s.pc + 1) as usize, sp: (s.sp + 1) as usize };
    let fail = if stack.len() == 0 {
        None
    } else {
        Some((stack.last(), stack.drop_last()))
    };
    if s.pc >= prog.len() {
        None
    } else {
        match prog[s.pc as int] {
            InstOp::Match => None,
            InstOp::AnyChar => if s.sp < text.len() {
                Some((forward, stack))
            } else {
                fail
            },
            InstOp::Char(c) => if s.sp < text.len() && text[s.sp as int] == c {
                Some((forward, stack))
            } else {
                fail
            },
            InstOp::Jump(l) => Some((VMState { pc: l, sp: s.sp }, stack)),
            InstOp::Split(l1, l2) => Some(
                (VMState { pc: l1, sp: s.sp }, stack.push(VMState { pc: l2, sp: s.sp })),
            ),
            InstOp::PositionHead => if s.sp == 0 {
                Some((next, stack))
            } else {
                fail
            },
            InstOp::PositionTail => if s.sp == text.len() {
                Some((next, stack))
            } else {
                fail
            },
        }
    }
}

/// The current thread and pending threads after `n` steps, if the machine is still running.
pub open spec fn after(prog: Seq<InstOp>, text: Seq<char>, s: VMState, stack: Seq<VMState>, n: nat) -> Option<
    (VMState, Seq<VMState>),
>
    decreases n,
{
    if n == 0 {
        Some((s, stack))
    } else {
        match after(prog, text, s, stack, (n - 1) as nat) {
            Some((s1, stack1)) => step(prog, text, s1, stack1),
            None => None,
        }
    }
}

/// A thread whose address is in the program and whose position is in the text.
pub open spec fn thread_in_range(prog: Seq<InstOp>, text: Seq<char>, t: VMState) -> bool {
    t.pc < prog.len() && t.sp <= text.len()
}

/// The current thread and every pending thread are in range.
pub open spec fn in_range(prog: Seq<InstOp>, text: Seq<char>, s: VMState, stack: Seq<VMState>) -> bool {
    &&& thread_in_range(prog, text, s)
    &&& forall|i: int| 0 <= i < stack.len() ==> #[trigger] thread_in_range(prog, text, stack[i])
}

/// `run` takes one `step` at a time: it answers `true` at `Match`, `false` when a failed
/// thread leaves nothing pending, and otherwise goes on from the step's result.
pub proof fn lemma_run_steps(prog: Seq<InstOp>, text: Seq<char>, s: VMState, stack: Seq<VMState>, fuel: nat)
    requires
        fuel > 0,
        s.pc < prog.len(),
    ensures
        run(prog, text, s, stack, fuel) == (if prog[s.pc as int] is Match {
            Some(true)
        } else {
            match step(prog, text, s, stack) {
                Some((s2, stack2)) => run(prog, text, s2, stack2, (fuel - 1) as nat),
                None => Some(false),
            }
        }),
{
    let f = (fuel - 1) as nat;
    if stack.len() > 0 {
        assert(backtrack(prog, text, stack, f) == run(prog, text, stack.last(), stack.drop_last(), f));
    } else {
        assert(backtrack(prog, text, stack, f) == Some(false));
    }
}

/// In a well-formed program, a step from threads in range leads to threads in range.
pub proof fn lemma_step_in_range(prog: Seq<InstOp>, text: Seq<char>, s: VMState, stack: Seq<VMState>)
    requires
        well_formed(prog),
        prog.len() <= usize::MAX,
        in_range(prog, text, s, stack),
    ensures
        step(prog, text, s, stack) matches Some((s2, stack2)) ==> in_range(prog, text, s2, stack2),
{
    let pc = s.pc as int;
    let last = prog.len() - 1;
    assert(op_targets_within(prog[pc], 0, last as nat));
    if pc == last {
        assert(prog[pc] is Match);
    }
    if let Some((s2, stack2)) = step(prog, text, s, stack) {
        if stack.len() > 0 {
            assert(thread_in_range(prog, text, stack[stack.len() - 1]));
        }
        assert forall|i: int| 0 <= i < stack2.len() implies #[trigger] thread_in_range(
            prog,
            text,
            stack2[i],
        ) by {
            if i < stack.len() {
                assert(thread_in_range(prog, text, stack[i]));
            }
        }
    }
}

/// In a well-formed program, the machine started from threads in range only ever holds
/// threads in range: it never reads an instruction outside the program nor a position past
/// the text's end.
pub proof fn lemma_run_in_range(prog: Seq<InstOp>, text: Seq<char>, s: VMState, stack: Seq<VMState>, n: nat)
    requires
        well_formed(prog),
        prog.len() <= usize::MAX,
        in_range(prog, text, s, stack),
    ensures
        after(prog, text, s, stack, n) matches Some((s2, stack2)) ==> in_range(prog, text, s2, stack2),
    decreases n,
{
    if n > 0 {
        lemma_run_in_range(prog, text, s, stack, (n - 1) as nat);
        if let Some((s1, stack1)) = after(prog, text, s, stack, (n - 1) as nat) {
            lemma_step_in_range(prog, text, s1, stack1);
        }
    }
}

/// The threads that a search starts from are in range in a well-formed program.
pub proof fn lemma_initial_threads_in_range(prog: Seq<InstOp>, text: Seq<char>)
    requires
        well_formed(prog),
        text.len() <= usize::MAX,
    ensures
        forall|i: int|
            0 <= i < text.len() ==> #[trigger] thread_in_range(
                prog,
                text,
                initial_threads(text.len())[i],
            ),
{
}

/// Some number of steps brings the machine to an answer from the pending threads `stack`.
pub open spec fn search_halts(prog: Seq<InstOp>, text: Seq<char>, stack: Seq<VMState>) -> bool {
    exists|fuel: nat| #[trigger] backtrack(prog, text, stack, fuel) is Some
}

/// The threads that a match starts with: one at program address 0 for each text position
/// below `n`, the one at position 0 on top.
pub open spec fn initial_threads(n: nat) -> Seq<VMState> {
    Seq::new(n, |i: int| VMState { pc: 0, sp: (n - 1 - i) as usize })
}

/// A search over `text` with `prog` comes to an answer.
pub open spec fn match_halts(prog: Seq<InstOp>, text: Seq<char>) -> bool {
    search_halts(prog, text, initial_threads(text.len()))
}

/// There is a path through `prog` of at most `n` instructions that starts at `pc` with
/// the text position `sp` and reaches `Match`.
pub open spec fn accepts_within(prog: Seq<InstOp>, text: Seq<char>, pc: int, sp: int, n: nat) -> bool
    decreases n,
{
    if n == 0 || !(0 <= pc < prog.len()) {
        false
    } else {
        let m = (n - 1) as nat;
        match prog[pc] {
            InstOp::Match => true,
            InstOp::AnyChar => 0 <= sp < text.len() && accepts_within(prog, text, pc + 1, sp + 1, m),
            InstOp::Char(c) => 0 <= sp < text.len() && text[sp] == c && accepts_within(
                prog,
                text,
                pc + 1,
                sp + 1,
                m,
            ),
            InstOp::Jump(l) => accepts_within(prog, text, l as int, sp, m),
            InstOp::Split(l1, l2) => accepts_within(prog, text, l1 as int, sp, m)
                || accepts_within(prog, text, l2 as int, sp, m),
            InstOp::PositionHead => sp == 0 && accepts_within(prog, text, pc + 1, sp, m),
            InstOp::PositionTail => sp == text.len() && accepts_within(prog, text, pc + 1, sp, m),
        }
    }
}

/// Some path through `prog` from `pc` at text position `sp` reaches `Match`.
pub open spec fn accepts(prog: Seq<InstOp>, text: Seq<char>, pc: int, sp: int) -> bool {
    exists|n: nat| #[trigger] accepts_within(prog, text, pc, sp, n)
}

/// One of the threads in `stack` can reach `Match`.
pub open spec fn any_accepts(prog: Seq<InstOp>, text: Seq<char>, stack: Seq<VMState>) -> bool {
    exists|i: int|
        0 <= i < stack.len() && #[trigger] accepts(prog, text, stack[i].pc as int, stack[i].sp as int)
}

/// Some text position below `text.len()` starts a path through `prog` to `Match`.
pub open spec fn accepts_somewhere(prog: Seq<InstOp>, text: Seq<char>) -> bool {
    exists|i: int| 0 <= i < text.len() && #[trigger] accepts(prog, text, 0, i)
}

/// `accepts` unfolded by one instruction.
pub open spec fn accepts_next(prog: Seq<InstOp>, text: Seq<char>, pc: int, sp: int) -> bool {
    0 <= pc < prog.len() && match prog[pc] {
        InstOp::Match => true,
        InstOp::AnyChar => 0 <= sp < text.len() && accepts(prog, text, pc + 1, sp + 1),
        InstOp::Char(c) => 0 <= sp < text.len() && text[sp] == c && accepts(prog, text, pc + 1, sp + 1),
        InstOp::Jump(l) => accepts(prog, text, l as int, sp),
        InstOp::Split(l1, l2) => accepts(prog, text, l1 as int, sp) || accepts(prog, text, l2 as int, sp),
        InstOp::PositionHead => sp == 0 && accepts(prog, text, pc + 1, sp),
        InstOp::PositionTail => sp == text.len() && accepts(prog, text, pc + 1, sp),
    }
}

pub proof fn lemma_accepts_unfold(prog: Seq<InstOp>, text: Seq<char>, pc: int, sp: int)
    ensures
        accepts(prog, text, pc, sp) == accepts_next(prog, text, pc, sp),
{
    if accepts(prog, text, pc, sp) {
        let n = choose|n: nat| #[trigger] accepts_within(prog, text, pc, sp, n);
        let m = (n - 1) as nat;
        match prog[pc] {
            InstOp::AnyChar => assert(accepts_within(prog, text, pc + 1, sp + 1, m)),
            InstOp::Char(c) => assert(accepts_within(prog, text, pc + 1, sp + 1, m)),
            InstOp::Jump(l) => assert(accepts_within(prog, text, l as int, sp, m)),
            InstOp::Split(l1, l2) => {
                if accepts_within(prog, text, l1 as int, sp, m) {
                    assert(accepts(prog, text, l1 as int, sp));
                } else {
                    assert(accepts_within(prog, text, l2 as int, sp, m));
                }
            },
            InstOp::PositionHead => assert(accepts_within(prog, text, pc + 1, sp, m)),
            InstOp::PositionTail => assert(accepts_within(prog, text, pc + 1, sp, m)),
            _ => {},
        }
    }
    if accepts_next(prog, text, pc, sp) {
        match prog[pc] {
            InstOp::Match => assert(accepts_within(prog, text, pc, sp, 1)),
            InstOp::AnyChar => {
                let m = choose|m: nat| #[trigger] accepts_within(prog, text, pc + 1, sp + 1, m);
                assert(accepts_within(prog, text, pc, sp, m + 1));
            },
            InstOp::Char(c) => {
                let m = choose|m: nat| #[trigger] accepts_within(prog, text, pc + 1, sp + 1, m);
                assert(accepts_within(prog, text, pc, sp, m + 1));
            },
            InstOp::Jump(l) => {
                let m = choose|m: nat| #[trigger] accepts_within(prog, text, l as int, sp, m);
                assert(accepts_within(prog, text, pc, sp, m + 1));
            },
            InstOp::Split(l1, l2) => {
                if accepts(prog, text, l1 as int, sp) {
                    let m = choose|m: nat| #[trigger] accepts_within(prog, text, l1 as int, sp, m);
                    assert(accepts_within(prog, text, pc, sp, m + 1));
                } else {
                    let m = choose|m: nat| #[trigger] accepts_within(prog, text, l2 as int, sp, m);
                    assert(accepts_within(prog, text, pc, sp, m + 1));
                }
            },
            InstOp::PositionHead => {
                let m = choose|m: nat| #[trigger] accepts_within(prog, text, pc + 1, sp, m);
                assert(accepts_within(prog, text, pc, sp, m + 1));
            },
            InstOp::PositionTail => {
                let m = choose|m: nat| #[trigger] accepts_within(prog, text, pc + 1, sp, m);
                assert(accepts_within(prog, text, pc, sp, m + 1));
            },
        }
    }
}

proof fn lemma_any_accepts_push(prog: Seq<InstOp>, text: Seq<char>, stack: Seq<VMState>, t: VMState)
    ensures
        any_accepts(prog, text, stack.push(t)) == (any_accepts(prog, text, stack) || accepts(
            prog,
            text,
            t.pc as int,
            t.sp as int,
        )),
{
    let s2 = stack.push(t);
    if any_accepts(prog, text, s2) {
        let i = choose|i: int|
            0 <= i < s2.len() && #[trigger] accepts(prog, text, s2[i].pc as int, s2[i].sp as int);
        if i < stack.len() {
            assert(accepts(prog, text, stack[i].pc as int, stack[i].sp as int));
        }
    }
    if any_accepts(prog, text, stack) {
        let i = choose|i: int|
            0 <= i < stack.len() && #[trigger] accepts(prog, text, stack[i].pc as int, stack[i].sp as int);
        assert(s2[i] == stack[i]);
    }
    if accepts(prog, text, t.pc as int, t.sp as int) {
        assert(s2[stack.len() as int] == t);
    }
}

proof fn lemma_any_accepts_pop(prog: Seq<InstOp>, text: Seq<char>, stack: Seq<VMState>)
    requires
        stack.len() > 0,
    ensures
        any_accepts(prog, text, stack) == (any_accepts(prog, text, stack.drop_last()) || accepts(
            prog,
            text,
            stack.last().pc as int,
            stack.last().sp as int,
        )),
{
    assert(stack == stack.drop_last().push(stack.last()));
    lemma_any_accepts_push(prog, text, stack.drop_last(), stack.last());
}

/// The machine's answer is whether the current thread or a pending one can reach `Match`:
/// the backtracking search is exhaustive.
pub proof fn lemma_run_answer(
    prog: Seq<InstOp>,
    text: Seq<char>,
    s: VMState,
    stack: Seq<VMState>,
    fuel: nat,
)
    requires
        prog.len() <= usize::MAX,
        text.len() <= usize::MAX,
        run(prog, text, s, stack, fuel) is Some,
    ensures
        run(prog, text, s, stack, fuel) == Some(
            accepts(prog, text, s.pc as int, s.sp as int) || any_accepts(prog, text, stack),
        ),
    decreases fuel, 0int,
{
    let m = (fuel - 1) as nat;
    let pc = s.pc as int;
    let sp = s.sp as int;
    lemma_accepts_unfold(prog, text, pc, sp);
    match prog[pc] {
        InstOp::Match => {},
        InstOp::AnyChar => {
            if s.sp < text.len() {
                lemma_run_answer(prog, text, VMState { pc: (s.pc + 1) as usize, sp: (s.sp + 1) as usize }, stack, m);
            } else {
                lemma_backtrack_answer(prog, text, stack, m);
            }
        },
        InstOp::Char(c) => {
            if s.sp < text.len() && text[sp] == c {
                lemma_run_answer(prog, text, VMState { pc: (s.pc + 1) as usize, sp: (s.sp + 1) as usize }, stack, m);
            } else {
                lemma_backtrack_answer(prog, text, stack, m);
            }
        },
        InstOp::Jump(l) => {
            lemma_run_answer(prog, text, VMState { pc: l, sp: s.sp }, stack, m);
        },
        InstOp::Split(l1, l2) => {
            let t = VMState { pc: l2, sp: s.sp };
            lemma_run_answer(prog, text, VMState { pc: l1, sp: s.sp }, stack.push(t), m);
            lemma_any_accepts_push(prog, text, stack, t);
        },
        InstOp::PositionHead => {
            if s.sp == 0 {
                lemma_run_answer(prog, text, VMState { pc: (s.pc + 1) as usize, sp: s.sp }, stack, m);
            } else {
                lemma_backtrack_answer(prog, text, stack, m);
            }
        },
        InstOp::PositionTail => {
            if s.sp == text.len() {
                lemma_run_answer(prog, text, VMState { pc: (s.pc + 1) as usize, sp: s.sp }, stack, m);
            } else {
                lemma_backtrack_answer(prog, text, stack, m);
            }
        },
    }
}

/// After a failure, the answer is whether a pending thread can reach `Match`.
pub proof fn lemma_backtrack_answer(prog: Seq<InstOp>, text: Seq<char>, stack: Seq<VMState>, fuel: nat)
    requires
        prog.len() <= usize::MAX,
        text.len() <= usize::MAX,
        backtrack(prog, text, stack, fuel) is Some,
    ensures
        backtrack(prog, text, stack, fuel) == Some(any_accepts(prog, text, stack)),
    decreases fuel, 1int,
{
    if stack.len() > 0 {
        lemma_run_answer(prog, text, stack.last(), stack.drop_last(), fuel);
        lemma_any_accepts_pop(prog, text, stack);
    }
}

/// The threads that `VM::do_match` searches: one at address 0 for each text position, the
/// one at position 0 on top, above the pending threads `stack` in reverse order.
pub open spec fn start_threads(n: nat, stack: Seq<VMState>) -> Seq<VMState> {
    initial_threads(n) + stack.reverse()
}

proof fn lemma_any_accepts_start(prog: Seq<InstOp>, text: Seq<char>, stack: Seq<VMState>)
    requires
        text.len() <= usize::MAX,
    ensures
        any_accepts(prog, text, start_threads(text.len(), stack)) == (accepts_somewhere(prog, text)
            || any_accepts(prog, text, stack)),
{
    let n = text.len();
    let all = start_threads(n, stack);
    let init = initial_threads(n);
    if any_accepts(prog, text, all) {
        let i = choose|i: int|
            0 <= i < all.len() && #[trigger] accepts(prog, text, all[i].pc as int, all[i].sp as int);
        if i < n {
            assert(all[i] == init[i]);
            assert(accepts(prog, text, 0, n - 1 - i));
        } else {
            let k = stack.len() - 1 - (i - n);
            assert(all[i] == stack[k]);
            assert(accepts(prog, text, stack[k].pc as int, stack[k].sp as int));
        }
    }
    if accepts_somewhere(prog, text) {
        let j = choose|j: int| 0 <= j < text.len() && #[trigger] accepts(prog, text, 0, j);
        let i = n - 1 - j;
        assert(all[i] == init[i]);
        assert(accepts(prog, text, all[i].pc as int, all[i].sp as int));
    }
    if any_accepts(prog, text, stack) {
        let k = choose|k: int|
            0 <= k < stack.len() && #[trigger] accepts(prog, text, stack[k].pc as int, stack[k].sp as int);
        let i = n + (stack.len() - 1 - k);
        assert(all[i] == stack[k]);
        assert(accepts(prog, text, all[i].pc as int, all[i].sp as int));
    }
}

impl<'a> VM<'a> {
    /// The program that the machine runs.
    pub closed spec fn program(&self) -> Seq<InstOp> {
        self.inst@
    }

    /// The text that the machine runs over.
    pub closed spec fn chars(&self) -> Seq<char> {
        self.text@
    }

    /// The current thread.
    pub closed spec fn state(&self) -> VMState {
        self.s
    }

    /// The pending threads, the top one last.
    pub closed spec fn threads(&self) -> Seq<VMState> {
        self.stack@
    }

    /// A machine that runs `inst` over the characters of `text`, with no pending thread.
    pub fn new(inst: &'a Inst, text: String) -> (vm: Self)
        ensures
            vm.program() == inst@,
            vm.chars() == text@,
            vm.state() == (VMState { pc: 0, sp: 0 }),
            vm.threads() == Seq::<VMState>::empty(),
    {
        let chars = crate::chars_of(text.as_str());
        Self { s: VMState { pc: 0, sp: 0 }, stack: vec![], inst: inst, text: chars }
    }

    /// Searches for a match that starts at any position of the text.
    ///
    /// The answer is `true` exactly when some path through the program from address 0 at a
    /// text position below the text's length (or from a thread that was already pending)
    /// reaches `Match`. The search must come to an answer: a program that loops without
    /// consuming text makes the search run forever (`termination::lemma_search_halts` gives
    /// the patterns whose programs never do).
    pub fn do_match(self) -> (res: bool)
        requires
            search_halts(self.program(), self.chars(), start_threads(self.chars().len(), self.threads())),
        ensures
            res == (accepts_somewhere(self.program(), self.chars()) || any_accepts(
                self.program(),
                self.chars(),
                self.threads(),
            )),
    {
        let mut vm = self;
        let ghost prog = vm.inst@;
        let ghost text = vm.text@;
        let ghost old_stack = vm.stack@;
        let n = vm.text.len();
        // The program's length is a `usize`: addresses in it fit one.
        let _prog_len = vm.inst.len();
        let mut sp: usize = 0;
        while sp < n
            invariant
                vm.inst@ == prog,
                vm.text@ == text,
                n == text.len(),
                sp <= n,
                vm.stack@ == old_stack + Seq::new(sp as nat, |i: int| VMState { pc: 0, sp: i as usize }),
            decreases n - sp,
        {
            vm.stack.push(VMState { pc: 0, sp: sp });
            sp += 1;
            assert(vm.stack@ =~= old_stack + Seq::new(sp as nat, |i: int| VMState { pc: 0, sp: i as usize }));
        }
        // Reverse the pending threads, so that the one at text position 0 is on top.
        let ghost pushed = vm.stack@;
        let mut reversed: Vec<VMState> = Vec::new();
        while vm.stack.len() > 0
            invariant
                vm.inst@ == prog,
                vm.text@ == text,
                pushed.len() == vm.stack@.len() + reversed@.len(),
                vm.stack@ == pushed.take(vm.stack@.len() as int),
                reversed@ == pushed.skip(vm.stack@.len() as int).reverse(),
            decreases vm.stack.len(),
        {
            let t = vm.stack.pop().unwrap();
            reversed.push(t);
            assert(vm.stack@ =~= pushed.take(vm.stack@.len() as int));
            assert(reversed@ =~= pushed.skip(vm.stack@.len() as int).reverse());
        }
        vm.stack = reversed;
        assert(vm.stack@ =~= start_threads(n as nat, old_stack));
        let ghost fuel = choose|fuel: nat| #[trigger] backtrack(prog, text, vm.stack@, fuel) is Some;
        let res = vm.try_next_thread(Ghost(fuel));
        proof {
            lemma_backtrack_answer(prog, text, start_threads(n as nat, old_stack), fuel);
            lemma_any_accepts_start(prog, text, old_stack);
        }
        res
    }

    /// Runs the current thread, then the pending ones, until one reaches `Match` or all fail.
    fn do_match_current_thread(self, Ghost(fuel): Ghost<nat>) -> (res: bool)
        requires
            run(self.inst@, self.text@, self.s, self.stack@, fuel) is Some,
        ensures
            run(self.inst@, self.text@, self.s, self.stack@, fuel) == Some(res),
        decreases fuel, 0int,
    {
        let mut vm = self;
        // Both lengths are `usize`s: addresses and text positions below them fit one.
        let _prog_len = vm.inst.len();
        let _text_len = vm.text.len();
        let op = vm.inst[vm.s.pc];
        let ghost m = (fuel - 1) as nat;
        match op {
            InstOp::Match => true,
            InstOp::AnyChar => match vm.text.as_slice().get(vm.s.sp) {
                None => vm.try_next_thread(Ghost(m)),
                Some(_) => {
                    vm.s.pc += 1;
                    vm.s.sp += 1;
                    vm.do_match_current_thread(Ghost(m))
                },
            },
            InstOp::Char(c) => {
                if vm.s.sp < vm.text.len() && vm.text[vm.s.sp] == c {
                    vm.s.pc += 1;
                    vm.s.sp += 1;
                    vm.do_match_current_thread(Ghost(m))
                } else {
                    vm.try_next_thread(Ghost(m))
                }
            },
            InstOp::Jump(l) => {
                vm.s.pc = l;
                vm.do_match_current_thread(Ghost(m))
            },
            InstOp::Split(l1, l2) => {
                vm.stack.push(VMState { pc: l2, sp: vm.s.sp });
                vm.s.pc = l1;
                vm.do_match_current_thread(Ghost(m))
            },
            InstOp::PositionHead => {
                if vm.s.sp == 0 {
                    vm.s.pc += 1;
                    vm.do_match_current_thread(Ghost(m))
                } else {
                    vm.try_next_thread(Ghost(m))
                }
            },
            InstOp::PositionTail => {
                if vm.s.sp == vm.text.len() {
                    vm.s.pc += 1;
                    vm.do_match_current_thread(Ghost(m))
                } else {
                    vm.try_next_thread(Ghost(m))
                }
            },
        }
    }

    /// Resumes the most recently pended thread, or answers `false` when none is left.
    fn try_next_thread(self, Ghost(fuel): Ghost<nat>) -> (res: bool)
        requires
            backtrack(self.inst@, self.text@, self.stack@, fuel) is Some,
        ensures
            backtrack(self.inst@, self.text@, self.stack@, fuel) == Some(res),
        decreases fuel, 1int,
    {
        let mut vm = self;
        if let Some(s) = vm.stack.pop() {
            vm.s = s;
            vm.do_match_current_thread(Ghost(fuel))
        } else {
            false
        }
    }
}

/// Runs `inst` over `text`: whether a match of the program starts at some position of the
/// text (see `VM::do_match`).
pub fn do_match(inst: &Inst, text: String) -> (res: bool)
    requires
        match_halts(inst@, text@),
    ensures
        res == accepts_somewhere(inst@, text@),
{
    let vm = VM::new(inst, text);
    assert(start_threads(vm.chars().len(), vm.threads()) =~= initial_threads(vm.chars().len()));
    let res = vm.do_match();
    proof {
        assert(!any_accepts(vm.program(), vm.chars(), vm.threads()));
    }
    res
}

} // verus!
