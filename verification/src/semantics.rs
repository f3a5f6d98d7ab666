//! What a program means: the run of an instruction sequence on a machine,
//! step by step.

use crate::types::{Instr, MemoryOp};
use vstd::prelude::*;

verus! {

/// A machine in the middle of a run: where the pointer is, what the tape
/// holds, and what has been printed.
pub ghost struct Machine {
    pub pointer: int,
    pub memory: Seq<u8>,
    pub output: Seq<u8>,
}

/// Why a run stopped before its program's end.
#[derive(Debug, PartialEq, Eq, Clone, Copy, Structural)]
pub enum RunError {
    /// The steps allowed were used up.
    StepLimit,
    /// The pointer left the range of addresses, or a cell outside the tape
    /// was asked for.
    PointerOutOfBounds,
}

/// How a run ended: the machine it left, the steps it did not use, and the
/// error that stopped it, if one did.
pub ghost struct Run {
    pub machine: Machine,
    pub steps_left: nat,
    pub error: Option<RunError>,
}

/// Whether the pointer can stand at `position`.
pub open spec fn in_range(position: int) -> bool {
    0 <= position <= usize::MAX
}

/// The byte congruent to `x` modulo 256.
pub open spec fn wrap_u8(x: int) -> u8 {
    (x % 256) as u8
}

/// The machine after an operation on the cell at `offset` from the pointer;
/// none where the tape has no such cell. A change adds to the cell modulo
/// 256, a set overwrites it, a print appends it to the output.
pub open spec fn apply(machine: Machine, offset: int, op: MemoryOp) -> Option<Machine> {
    let address = machine.pointer + offset;
    if 0 <= address < machine.memory.len() {
        let cell = machine.memory[address];
        Some(
            match op {
                MemoryOp::ChangeValue(value) => Machine {
                    memory: machine.memory.update(address, wrap_u8(cell + value)),
                    ..machine
                },
                MemoryOp::SetValue(value) => Machine {
                    memory: machine.memory.update(address, wrap_u8(value as int)),
                    ..machine
                },
                MemoryOp::Print => Machine { output: machine.output.push(cell), ..machine },
            },
        )
    } else {
        None
    }
}

/// A run that stops with an error on the given machine.
pub open spec fn stopped(machine: Machine, steps_left: nat, error: RunError) -> Run {
    Run { machine, steps_left, error: Some(error) }
}

/// The run of a program on a machine with a number of steps allowed. Every
/// pass through a loop's body takes one step; a run that has none left for
/// a pass stops with `StepLimit`. A move that takes the pointer out of the
/// range of addresses, an operation on a cell outside the tape and a loop
/// whose pointer is outside the tape stop the run with `PointerOutOfBounds`.
/// A run that stops leaves the machine as it was when it stopped.
pub open spec fn run(program: Seq<Instr>, machine: Machine, steps: nat) -> Run
    decreases steps, program.len(),
{
    if program.len() == 0 {
        Run { machine, steps_left: steps, error: None }
    } else {
        match program[0] {
            Instr::ChangeAddr(delta) => if in_range(machine.pointer + delta) {
                run(program.skip(1), Machine { pointer: machine.pointer + delta, ..machine }, steps)
            } else {
                stopped(machine, steps, RunError::PointerOutOfBounds)
            },
            Instr::Offset(offset, op) => match apply(machine, offset, op) {
                Some(next) => run(program.skip(1), next, steps),
                None => stopped(machine, steps, RunError::PointerOutOfBounds),
            },
            Instr::Loop(body) => if !(0 <= machine.pointer < machine.memory.len()) {
                stopped(machine, steps, RunError::PointerOutOfBounds)
            } else if machine.memory[machine.pointer] == 0 {
                run(program.skip(1), machine, steps)
            } else if steps == 0 {
                stopped(machine, steps, RunError::StepLimit)
            } else {
                let pass = run(body, machine, (steps - 1) as nat);
                if pass.error is Some {
                    pass
                } else if pass.steps_left < steps {
                    run(program, pass.machine, pass.steps_left)
                } else {
                    run(program, pass.machine, (steps - 1) as nat)
                }
            },
        }
    }
}

/// A run never ends with more steps than it was allowed.
pub proof fn lemma_run_steps(program: Seq<Instr>, machine: Machine, steps: nat)
    ensures
        run(program, machine, steps).steps_left <= steps,
    decreases steps, program.len(),
{
    if program.len() > 0 {
        match program[0] {
            Instr::ChangeAddr(delta) => {
                if in_range(machine.pointer + delta) {
                    lemma_run_steps(
                        program.skip(1),
                        Machine { pointer: machine.pointer + delta, ..machine },
                        steps,
                    );
                }
            },
            Instr::Offset(offset, op) => {
                match apply(machine, offset, op) {
                    Some(next) => lemma_run_steps(program.skip(1), next, steps),
                    None => {},
                }
            },
            Instr::Loop(body) => {
                if !(0 <= machine.pointer < machine.memory.len()) {
                } else if machine.memory[machine.pointer] == 0 {
                    lemma_run_steps(program.skip(1), machine, steps);
                } else if steps > 0 {
                    let pass = run(body, machine, (steps - 1) as nat);
                    lemma_run_steps(body, machine, (steps - 1) as nat);
                    if pass.error is None {
                        lemma_run_steps(program, pass.machine, pass.steps_left);
                    }
                }
            },
        }
    }
}

/// A run leaves the pointer within the range of addresses, if it was there.
pub proof fn lemma_run_in_range(program: Seq<Instr>, machine: Machine, steps: nat)
    requires
        in_range(machine.pointer),
    ensures
        in_range(run(program, machine, steps).machine.pointer),
    decreases steps, program.len(),
{
    if program.len() > 0 {
        match program[0] {
            Instr::ChangeAddr(delta) => {
                if in_range(machine.pointer + delta) {
                    lemma_run_in_range(
                        program.skip(1),
                        Machine { pointer: machine.pointer + delta, ..machine },
                        steps,
                    );
                }
            },
            Instr::Offset(offset, op) => {
                match apply(machine, offset, op) {
                    Some(next) => lemma_run_in_range(program.skip(1), next, steps),
                    None => {},
                }
            },
            Instr::Loop(body) => {
                if !(0 <= machine.pointer < machine.memory.len()) {
                } else if machine.memory[machine.pointer] == 0 {
                    lemma_run_in_range(program.skip(1), machine, steps);
                } else if steps > 0 {
                    let pass = run(body, machine, (steps - 1) as nat);
                    lemma_run_steps(body, machine, (steps - 1) as nat);
                    lemma_run_in_range(body, machine, (steps - 1) as nat);
                    if pass.error is None {
                        lemma_run_in_range(program, pass.machine, pass.steps_left);
                    }
                }
            },
        }
    }
}

/// A run leaves the tape as long as it was.
pub proof fn lemma_run_tape_length(program: Seq<Instr>, machine: Machine, steps: nat)
    ensures
        run(program, machine, steps).machine.memory.len() == machine.memory.len(),
    decreases steps, program.len(),
{
    if program.len() > 0 {
        match program[0] {
            Instr::ChangeAddr(delta) => {
                if in_range(machine.pointer + delta) {
                    lemma_run_tape_length(
                        program.skip(1),
                        Machine { pointer: machine.pointer + delta, ..machine },
                        steps,
                    );
                }
            },
            Instr::Offset(offset, op) => {
                match apply(machine, offset, op) {
                    Some(next) => lemma_run_tape_length(program.skip(1), next, steps),
                    None => {},
                }
            },
            Instr::Loop(body) => {
                if !(0 <= machine.pointer < machine.memory.len()) {
                } else if machine.memory[machine.pointer] == 0 {
                    lemma_run_tape_length(program.skip(1), machine, steps);
                } else if steps > 0 {
                    let pass = run(body, machine, (steps - 1) as nat);
                    lemma_run_steps(body, machine, (steps - 1) as nat);
                    lemma_run_tape_length(body, machine, (steps - 1) as nat);
                    if pass.error is None {
                        lemma_run_tape_length(program, pass.machine, pass.steps_left);
                    }
                }
            },
        }
    }
}

/// A run that reaches its program's end does the same with more steps
/// allowed, and leaves as many more.
pub proof fn lemma_run_more_steps(program: Seq<Instr>, machine: Machine, steps: nat, more: nat)
    requires
        run(program, machine, steps).error is None,
    ensures
        run(program, machine, steps + more) == (Run {
            steps_left: run(program, machine, steps).steps_left + more,
            ..run(program, machine, steps)
        }),
    decreases steps, program.len(),
{
    if program.len() > 0 {
        match program[0] {
            Instr::ChangeAddr(delta) => {
                if in_range(machine.pointer + delta) {
                    lemma_run_more_steps(
                        program.skip(1),
                        Machine { pointer: machine.pointer + delta, ..machine },
                        steps,
                        more,
                    );
                }
            },
            Instr::Offset(offset, op) => {
                match apply(machine, offset, op) {
                    Some(next) => lemma_run_more_steps(program.skip(1), next, steps, more),
                    None => {},
                }
            },
            Instr::Loop(body) => {
                if !(0 <= machine.pointer < machine.memory.len()) {
                } else if machine.memory[machine.pointer] == 0 {
                    lemma_run_more_steps(program.skip(1), machine, steps, more);
                } else if steps > 0 {
                    let pass = run(body, machine, (steps - 1) as nat);
                    lemma_run_steps(body, machine, (steps - 1) as nat);
                    lemma_run_more_steps(body, machine, (steps - 1) as nat, more);
                    assert(run(body, machine, (steps + more - 1) as nat) == (Run {
                        steps_left: pass.steps_left + more,
                        ..pass
                    }));
                    lemma_run_more_steps(program, pass.machine, pass.steps_left, more);
                }
            },
        }
    }
}

/// The run of one program after another is the run of the first and then,
/// where that reaches its end, the run of the second on what it left.
pub proof fn lemma_run_concat(first: Seq<Instr>, second: Seq<Instr>, machine: Machine, steps: nat)
    ensures
        run(first + second, machine, steps) == ({
            let head = run(first, machine, steps);
            if head.error is None {
                run(second, head.machine, head.steps_left)
            } else {
                head
            }
        }),
    decreases steps, first.len(),
{
    let both = first + second;
    if first.len() == 0 {
        assert(both =~= second);
    } else {
        assert(both[0] == first[0]);
        assert(both.skip(1) =~= first.skip(1) + second);
        match first[0] {
            Instr::ChangeAddr(delta) => {
                if in_range(machine.pointer + delta) {
                    lemma_run_concat(
                        first.skip(1),
                        second,
                        Machine { pointer: machine.pointer + delta, ..machine },
                        steps,
                    );
                }
            },
            Instr::Offset(offset, op) => {
                match apply(machine, offset, op) {
                    Some(next) => lemma_run_concat(first.skip(1), second, next, steps),
                    None => {},
                }
            },
            Instr::Loop(body) => {
                if !(0 <= machine.pointer < machine.memory.len()) {
                } else if machine.memory[machine.pointer] == 0 {
                    lemma_run_concat(first.skip(1), second, machine, steps);
                } else if steps > 0 {
                    let pass = run(body, machine, (steps - 1) as nat);
                    lemma_run_steps(body, machine, (steps - 1) as nat);
                    if pass.error is None {
                        lemma_run_concat(first, second, pass.machine, pass.steps_left);
                    }
                }
            },
        }
    }
}

} // verus!
