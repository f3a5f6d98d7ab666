//! The optimizer: conversion of source symbols into the instruction tree, the
//! two rewriting passes, and the driver that repeats them to a fixed point.

pub mod convert;
pub mod merge;
pub mod postpone;

pub use self::convert::convert_tokens;
pub use self::merge::merge_instructions;
pub use self::postpone::postpone_moves;

use self::convert::{balanced, closes_unopened, nesting, tree_of};
use self::merge::{instr_count, lemma_merge_refines, lemma_merge_shrinks, merge, merge_from};
use self::postpone::{lemma_postpone_count, lemma_postpone_refines, postpone, postpone_from};
use crate::refinement::{follows, lemma_refines_chain, lemma_refines_itself, refines};
use crate::semantics::{in_range, run, Machine};
use crate::types::{
    clone_tokens, same_tokens, tokens_of, Instr, MemoryOp, ParseToken, ProgramToken,
};
use vstd::prelude::*;

verus! {

/// Why no optimized program could be produced.
#[derive(Debug, PartialEq, Eq, Clone, Copy, Structural)]
pub enum OptimizerError {
    /// A loop is closed that was never opened.
    UnmatchedLoopEnd,
    /// A loop is opened and never closed.
    UnclosedLoop,
    /// The rewriting passes did not settle within the round limit.
    NoFixedPoint,
}

/// The number of rounds after which the driver gives up.
pub const MAX_ROUNDS: usize = 512;

/// One round of rewriting: the merger, then move postponement.
pub open spec fn round(program: Seq<Instr>) -> Seq<Instr> {
    postpone(merge(program))
}

/// The first program, among those that up to `rounds` rounds yield in turn,
/// that is the round's own input: the program that a round leaves unchanged.
pub open spec fn fixed_point(program: Seq<Instr>, rounds: nat) -> Option<Seq<Instr>>
    decreases rounds,
{
    if rounds == 0 {
        None
    } else if round(program) == program {
        Some(program)
    } else {
        fixed_point(round(program), (rounds - 1) as nat)
    }
}

/// What the optimizer makes of a program, if the rounds settle in time.
pub open spec fn optimized(program: Seq<Instr>) -> Option<Seq<Instr>> {
    fixed_point(program, MAX_ROUNDS as nat)
}

/// Rewrites a program round by round until a round changes nothing, and
/// returns that program. Fails with `NoFixedPoint`, and only so, where
/// `rounds` rounds do not settle.
pub fn optimize_within(program: &[ProgramToken], rounds: usize) -> (result: Result<
    Vec<ProgramToken>,
    OptimizerError,
>)
    ensures
        match fixed_point(program.deep_view(), rounds as nat) {
            Some(settled) => result matches Ok(tokens) && tokens.deep_view() == settled,
            None => result == Err::<Vec<ProgramToken>, OptimizerError>(
                OptimizerError::NoFixedPoint,
            ),
        },
{
    let mut tokens = clone_tokens(program);
    let mut rounds_left: usize = rounds;
    while rounds_left > 0
        invariant
            fixed_point(program.deep_view(), rounds as nat) == fixed_point(
                tokens.deep_view(),
                rounds_left as nat,
            ),
        decreases rounds_left,
    {
        let merged = merge_instructions(tokens_of(&tokens));
        let rewritten = postpone_moves(tokens_of(&merged));
        if same_tokens(tokens_of(&rewritten), tokens_of(&tokens)) {
            return Ok(rewritten);
        }
        tokens = rewritten;
        rounds_left -= 1;
    }
    Err(OptimizerError::NoFixedPoint)
}

/// Optimizes a program: rewrites it round by round until a round changes
/// nothing, and returns that program. Fails with `NoFixedPoint`, and only
/// so, where `MAX_ROUNDS` rounds do not settle.
pub fn optimize(program: &[ProgramToken]) -> (result: Result<Vec<ProgramToken>, OptimizerError>)
    ensures
        match optimized(program.deep_view()) {
            Some(settled) => result matches Ok(tokens) && tokens.deep_view() == settled,
            None => result == Err::<Vec<ProgramToken>, OptimizerError>(
                OptimizerError::NoFixedPoint,
            ),
        },
{
    optimize_within(program, MAX_ROUNDS)
}

/// Builds the instruction tree of a symbol sequence and optimizes it.
pub fn optimize_parsed(tokens: &[ParseToken]) -> (result: Result<
    Vec<ProgramToken>,
    OptimizerError,
>)
    ensures
        closes_unopened(tokens@) ==> result == Err::<Vec<ProgramToken>, OptimizerError>(
            OptimizerError::UnmatchedLoopEnd,
        ),
        !closes_unopened(tokens@) && nesting(tokens@) > 0 ==> result == Err::<
            Vec<ProgramToken>,
            OptimizerError,
        >(OptimizerError::UnclosedLoop),
        balanced(tokens@) ==> match optimized(tree_of(tokens@)) {
            Some(settled) => result matches Ok(program) && program.deep_view() == settled,
            None => result == Err::<Vec<ProgramToken>, OptimizerError>(
                OptimizerError::NoFixedPoint,
            ),
        },
{
    match convert_tokens(tokens) {
        Ok(tree) => {
            optimize(tokens_of(&tree))
        },
        Err(error) => Err(error),
    }
}

/// A program that the optimizer returns is one that a round leaves
/// unchanged.
pub proof fn lemma_fixed_point_settled(program: Seq<Instr>, rounds: nat)
    ensures
        fixed_point(program, rounds) matches Some(settled) ==> round(settled) == settled,
    decreases rounds,
{
    if rounds > 0 && round(program) != program {
        lemma_fixed_point_settled(round(program), (rounds - 1) as nat);
    }
}

/// Optimizing is idempotent: optimizing a program that the optimizer
/// returned returns that program.
pub proof fn lemma_optimize_idempotent(program: Seq<Instr>)
    ensures
        optimized(program) matches Some(settled) ==> optimized(settled) == Some(settled),
{
    lemma_fixed_point_settled(program, MAX_ROUNDS as nat);
}

/// A loop that does nothing but change the cell under the pointer by a step
/// other than zero is optimized to the instruction that clears that cell.
pub proof fn lemma_clear_idiom(step: i8)
    requires
        step != 0,
    ensures
        optimized(seq![Instr::Loop(seq![Instr::Offset(0, MemoryOp::ChangeValue(step))])]) == Some(
            seq![Instr::Offset(0, MemoryOp::SetValue(0))],
        ),
{
    let none = Seq::<Instr>::empty();
    let change = Instr::Offset(0, MemoryOp::ChangeValue(step));
    let clear = Instr::Offset(0, MemoryOp::SetValue(0));
    let body = seq![change];
    let program = seq![Instr::Loop(body)];
    let settled = seq![clear];
    assert(body.skip(1) =~= none);
    assert(program.skip(1) =~= none);
    assert(settled.skip(1) =~= none);
    assert(merge_from(None, none) == none);
    assert(merge_from(Some(change), none) =~= body);
    assert(merge_from(None, body) == body);
    assert(merge_from(Some(clear), none) =~= settled);
    assert(merge_from(Some(Instr::Loop(body)), none) == settled);
    assert(merge(program) == settled);
    assert(merge(settled) == settled);
    assert(postpone_from(none, 0) == none);
    assert(postpone(settled) =~= settled);
    assert(round(program) == settled);
    assert(round(settled) == settled);
    assert(fixed_point(settled, (MAX_ROUNDS - 1) as nat) == Some(settled));
}

/// No round adds to the number of instructions of a program.
pub proof fn lemma_round_count(program: Seq<Instr>)
    ensures
        instr_count(round(program)) <= instr_count(program),
{
    lemma_merge_shrinks(program);
    lemma_postpone_count(merge(program));
}

/// One round yields a program that may stand for its input.
pub proof fn lemma_round_refines(program: Seq<Instr>)
    ensures
        refines(program, round(program)),
{
    lemma_merge_refines(program);
    lemma_postpone_refines(merge(program));
    lemma_refines_chain(program, merge(program), round(program));
}

/// The program that the rounds settle on may stand for the program they
/// started from.
pub proof fn lemma_fixed_point_refines(program: Seq<Instr>, rounds: nat)
    ensures
        fixed_point(program, rounds) matches Some(settled) ==> refines(program, settled),
    decreases rounds,
{
    if rounds > 0 {
        if round(program) == program {
            lemma_refines_itself(program);
        } else {
            lemma_round_refines(program);
            lemma_fixed_point_refines(round(program), (rounds - 1) as nat);
            match fixed_point(program, rounds) {
                Some(settled) => lemma_refines_chain(program, round(program), settled),
                None => {},
            }
        }
    }
}

/// Optimizing keeps what a program does: where the run of a program on a
/// machine reaches the program's end within some number of steps, the run of
/// the optimized program on that machine reaches its end within as many
/// steps, and leaves the same tape, the same pointer and the same output.
pub proof fn lemma_optimize_keeps_runs(program: Seq<Instr>, machine: Machine, steps: nat)
    requires
        in_range(machine.pointer),
        run(program, machine, steps).error is None,
    ensures
        optimized(program) matches Some(settled) ==> ({
            let kept = run(settled, machine, steps);
            &&& kept.error is None
            &&& kept.machine == run(program, machine, steps).machine
            &&& kept.steps_left >= run(program, machine, steps).steps_left
        }),
{
    lemma_fixed_point_refines(program, MAX_ROUNDS as nat);
    match optimized(program) {
        Some(settled) => {
            assert(follows(program, settled, machine, steps));
        },
        None => {},
    }
}

} // verus!
