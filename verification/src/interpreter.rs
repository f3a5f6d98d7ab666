//! The interpreter: runs a program on a tape, within a limit of steps.

use crate::semantics::{lemma_run_steps, run, wrap_u8, Machine, Run, RunError};
use crate::types::{lemma_loop_view, tokens_of, Instr, MemoryOp, ProgramToken, State};
use vstd::prelude::*;

verus! {

/// A record of output: the bytes, in the order in which they were taken.
pub type Transcript = Seq<u8>;

/// Where a run's output goes and its input comes from.
///
/// `taken` is a specification function: contracts speak of it, and no
/// running code calls it. An implementation that is not verified states
/// with it that it keeps to the contracts of `print` and `read` for some
/// record of what it took; its body for `taken` is never run.
pub trait BfIo {
    /// The bytes of output taken so far, in the order in which they were
    /// taken.
    spec fn taken(&self) -> Transcript;

    /// Takes one byte of output.
    fn print(&mut self, ch: u8)
        ensures
            final(self).taken() == old(self).taken().push(ch),
    ;

    /// Gives one byte of input, and takes no output.
    fn read(&mut self) -> (byte: u8)
        ensures
            final(self).taken() == old(self).taken(),
    ;
}

/// A transcript: the output is appended to the vector, and every input is
/// zero.
impl BfIo for Vec<u8> {
    open spec fn taken(&self) -> Transcript {
        self@
    }

    fn print(&mut self, ch: u8) {
        self.push(ch);
    }

    fn read(&mut self) -> (byte: u8) {
        0
    }
}

/// The machine that a state and the output so far stand for.
pub open spec fn machine_of(state: State, output: Seq<u8>) -> Machine {
    Machine { pointer: state.pointer as int, memory: state.memory@, output }
}

/// Whether `result` is what the interpreter returns for a run: the steps
/// not used, or the error that stopped the run.
pub open spec fn reports(result: Result<u64, RunError>, run: Run) -> bool {
    match result {
        Ok(left) => run.error is None && left == run.steps_left,
        Err(error) => run.error == Some(error),
    }
}

/// The byte that a cell holds after `value` was added to it.
fn changed(cell: u8, value: i8) -> (byte: u8)
    ensures
        byte == wrap_u8(cell + value),
{
    ((cell as i16 + value as i16 + 256) % 256) as u8
}

/// The byte that a cell holds after it was set to `value`.
fn stored(value: i8) -> (byte: u8)
    ensures
        byte == wrap_u8(value as int),
{
    ((value as i16 + 256) % 256) as u8
}

/// Runs a program on a state, handing each byte that it prints to `io` as
/// it prints it, and returns the steps of `steps` that it did not use. Every
/// pass through a loop's body takes one step. A run that would need more
/// steps, move the pointer out of the range of addresses or touch a cell
/// outside the tape stops there with the error, and leaves the state as it
/// was then. What `io` has taken at the end is what it had taken before and
/// then the output of the run, up to where the run ended or stopped.
pub fn run_program<Io: BfIo>(
    program: &[ProgramToken],
    state: &mut State,
    io: &mut Io,
    steps: u64,
) -> (result: Result<u64, RunError>)
    ensures
        ({
            let run = run(
                program.deep_view(),
                machine_of(*old(state), old(io).taken()),
                steps as nat,
            );
            &&& machine_of(*final(state), final(io).taken()) == run.machine
            &&& reports(result, run)
        }),
    decreases steps,
{
    let ghost instrs = program.deep_view();
    let ghost whole = run(instrs, machine_of(*state, io.taken()), steps as nat);
    let mut steps_left: u64 = steps;
    let mut i: usize = 0;
    assert(instrs.skip(0) =~= instrs);
    while i < program.len()
        invariant
            i <= program.len(),
            instrs == program.deep_view(),
            steps_left <= steps,
            whole == run(
                instrs,
                machine_of(*old(state), old(io).taken()),
                steps as nat,
            ),
            whole == run(
                instrs.skip(i as int),
                machine_of(*state, io.taken()),
                steps_left as nat,
            ),
        decreases program.len() - i,
    {
        let ghost rest = instrs.skip(i as int);
        proof {
            assert(rest[0] == program@[i as int].deep_view());
            assert(rest.skip(1) =~= instrs.skip(i + 1));
        }
        match &program[i] {
            ProgramToken::ChangeAddr(delta) => {
                let target: i128 = state.pointer as i128 + *delta as i128;
                if target < 0 || target > usize::MAX as i128 {
                    return Err(RunError::PointerOutOfBounds);
                }
                state.pointer = target as usize;
            },
            ProgramToken::Offset(offset, op) => {
                let address: i128 = state.pointer as i128 + *offset as i128;
                if address < 0 || address >= state.memory.len() as i128 {
                    return Err(RunError::PointerOutOfBounds);
                }
                let at: usize = address as usize;
                let cell: u8 = state.memory[at];
                match op {
                    MemoryOp::ChangeValue(value) => {
                        state.memory.set(at, changed(cell, *value));
                    },
                    MemoryOp::SetValue(value) => {
                        state.memory.set(at, stored(*value));
                    },
                    MemoryOp::Print => {
                        io.print(cell);
                    },
                }
            },
            ProgramToken::Loop(body) => {
                proof {
                    lemma_loop_view(*body);
                }
                loop
                    invariant
                        i < program.len(),
                        instrs == program.deep_view(),
                        rest == instrs.skip(i as int),
                        rest[0] == Instr::Loop(body.deep_view()),
                        steps_left <= steps,
                        whole == run(
                            instrs,
                            machine_of(*old(state), old(io).taken()),
                            steps as nat,
                        ),
                        whole == run(
                            rest,
                            machine_of(*state, io.taken()),
                            steps_left as nat,
                        ),
                    ensures
                        steps_left <= steps,
                        whole == run(
                            rest.skip(1),
                            machine_of(*state, io.taken()),
                            steps_left as nat,
                        ),
                    decreases steps_left,
                {
                    if state.pointer >= state.memory.len() {
                        return Err(RunError::PointerOutOfBounds);
                    }
                    if state.memory[state.pointer] == 0 {
                        break;
                    }
                    if steps_left == 0 {
                        return Err(RunError::StepLimit);
                    }
                    proof {
                        lemma_run_steps(
                            body.deep_view(),
                            machine_of(*state, io.taken()),
                            (steps_left - 1) as nat,
                        );
                    }
                    match run_program(tokens_of(body), state, io, steps_left - 1) {
                        Err(error) => {
                            return Err(error);
                        },
                        Ok(left) => {
                            steps_left = left;
                        },
                    }
                }
            },
        }
        i += 1;
    }
    Ok(steps_left)
}

/// Runs a program on a state as `run_program` does, appending what it
/// prints to `output`.
pub fn run_tokens(
    program: &[ProgramToken],
    state: &mut State,
    output: &mut Vec<u8>,
    steps: u64,
) -> (result: Result<u64, RunError>)
    ensures
        ({
            let run = run(program.deep_view(), machine_of(*old(state), old(output)@), steps as nat);
            &&& machine_of(*final(state), final(output)@) == run.machine
            &&& reports(result, run)
        }),
{
    run_program(program, state, output, steps)
}

} // verus!
