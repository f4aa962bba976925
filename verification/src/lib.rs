use vstd::prelude::*;

pub mod ast;
pub mod compiler;
pub mod vm;
pub mod correctness;
pub mod parser;
pub mod termination;
pub mod literal;
pub mod printer;
pub mod parser_laws;

pub use ast::Ast;
pub use compiler::{compile_ast, compile_ast_sub, shift_jump_index, Inst, InstOp};
pub use parser::{parse_regex, try_parse_regex, ParseError};
pub use vm::{do_match, VMState, VM};

verus! {

/// The characters of `text`.
pub(crate) fn chars_of(text: &str) -> (chars: Vec<char>)
    ensures
        chars@ == text@,
{
    let mut chars: Vec<char> = Vec::new();
    for c in it: text.chars()
        invariant
            chars@ == it.seq().take(it.index() as int),
    {
        chars.push(c);
    }
    chars
}

} // verus!
