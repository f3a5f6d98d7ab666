//! A compiler for a minimal byte-tape language: an optimizer over a
//! tree-shaped instruction representation, an interpreter, and back ends that
//! emit a binary module or C source text.

pub mod backend;
pub mod interpreter;
pub mod optimizer;
pub mod parser;
pub mod pseudo_c_formatter;
pub mod refinement;
pub mod semantics;
pub mod text;
pub mod types;
pub mod utils;

use crate::backend::wasm::code_stream::{instruction_bytes, Instruction};
use crate::backend::wasm::machine::{bytes_of, exec};
use crate::backend::wasm::module_builder::{function_body, wasm_module};
use crate::backend::wasm::simulation::{
    addressable, host_at_start, lemma_function_structure, lemma_module_runs_like_program,
    main_code,
};
use crate::backend::wasm::WasmBackend;
use crate::backend::Backend;
use crate::optimizer::convert::{balanced, closes_unopened, nesting, tree_of};
use crate::optimizer::{optimize_parsed, optimized, OptimizerError};
use crate::parser::{parse_program, symbols_of};
use crate::semantics::{run, Machine};
use crate::types::{clone_tokens, tokens_of, ProgramToken};
use vstd::prelude::*;

verus! {

/// Compiles a source text to a binary module: reads its symbols, builds the
/// instruction tree, optimizes it and encodes it. Fails where the loop
/// brackets of the text are not balanced, and where the optimizer does not
/// settle.
pub fn compile_program(source: &str) -> (result: Result<Vec<u8>, OptimizerError>)
    ensures
        closes_unopened(symbols_of(source@)) ==> result == Err::<Vec<u8>, OptimizerError>(
            OptimizerError::UnmatchedLoopEnd,
        ),
        !closes_unopened(symbols_of(source@)) && nesting(symbols_of(source@)) > 0 ==> result
            == Err::<Vec<u8>, OptimizerError>(OptimizerError::UnclosedLoop),
        balanced(symbols_of(source@)) ==> match optimized(tree_of(symbols_of(source@))) {
            Some(settled) => result matches Ok(code) && code@ == wasm_module(settled),
            None => result == Err::<Vec<u8>, OptimizerError>(OptimizerError::NoFixedPoint),
        },
{
    let tokens = parse_program(source);
    match optimize_parsed(tokens.as_slice()) {
        Ok(program) => {
            let mut code: Vec<u8> = Vec::new();
            WasmBackend.compile_to_stream(tokens_of(&program), &mut code);
            assert(code@ =~= wasm_module(program.deep_view()));
            Ok(code)
        },
        Err(error) => Err(error),
    }
}

/// The module of a source text prints what the interpreter prints for it.
/// Where the symbols of a text are balanced and its tree is optimized to a
/// program, that program is what the interpreter is given and what
/// `compile_program` encodes: the body of the module's main function is the
/// bytes of the program's structured code. And where the run of that
/// program on a machine with its pointer on the first cell reaches the
/// program's end, the run of the main function on a host with the machine's
/// tape as its memory returns within as many steps, with the same output and
/// the same memory.
pub proof fn lemma_module_prints_like_interpreter(source: Seq<char>, machine: Machine, steps: nat)
    requires
        balanced(symbols_of(source)),
        optimized(tree_of(symbols_of(source))) is Some,
        machine.pointer == 0,
        addressable(machine),
        run(optimized(tree_of(symbols_of(source)))->0, machine, steps).error is None,
    ensures
        ({
            let program = optimized(tree_of(symbols_of(source)))->0;
            let interpreted = run(program, machine, steps);
            let compiled = exec(main_code(program), host_at_start(machine), steps);
            &&& function_body(program) == seq![1u8, 1, 0x7F] + bytes_of(main_code(program))
                + instruction_bytes(Instruction::End)
            &&& compiled.end is Returned
            &&& compiled.vm.output == interpreted.machine.output
            &&& compiled.vm.memory == interpreted.machine.memory
        }),
{
    let program = optimized(tree_of(symbols_of(source)))->0;
    lemma_function_structure(program);
    lemma_module_runs_like_program(program, machine, steps);
}

/// Compiles an instruction tree to a binary module, after optimizing it
/// where `optimize` is set. Fails only where the optimizer is asked for and
/// does not settle.
pub fn compile_tokens(tokens: &[ProgramToken], optimize: bool) -> (result: Result<
    Vec<u8>,
    OptimizerError,
>)
    ensures
        !optimize ==> (result matches Ok(code) && code@ == wasm_module(tokens.deep_view())),
        optimize ==> match optimized(tokens.deep_view()) {
            Some(settled) => result matches Ok(code) && code@ == wasm_module(settled),
            None => result == Err::<Vec<u8>, OptimizerError>(OptimizerError::NoFixedPoint),
        },
{
    let program = if optimize {
        match crate::optimizer::optimize(tokens) {
            Ok(settled) => settled,
            Err(error) => {
                return Err(error);
            },
        }
    } else {
        clone_tokens(tokens)
    };
    let mut code: Vec<u8> = Vec::new();
    WasmBackend.compile_to_stream(tokens_of(&program), &mut code);
    assert(code@ =~= wasm_module(program.deep_view()));
    Ok(code)
}

} // verus!
