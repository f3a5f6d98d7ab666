//! When one program may stand for another: every run of the first that
//! reaches its end is a run of the second with the same result.

use crate::optimizer::merge::{fuse_pair, fuse_round_trip, is_clear_body, wrap_i8};
use crate::semantics::{
    apply, in_range, lemma_run_concat, lemma_run_in_range, lemma_run_more_steps, lemma_run_steps,
    run, wrap_u8, Machine, Run,
};
use crate::types::{Instr, MemoryOp};
use vstd::prelude::*;

verus! {

/// Whether the run of `after` on a machine does what the run of `before`
/// does: it reaches its end too, leaves the same machine, and uses no more
/// steps.
pub open spec fn follows(before: Seq<Instr>, after: Seq<Instr>, machine: Machine, steps: nat) -> bool {
    let target = run(before, machine, steps);
    let actual = run(after, machine, steps);
    &&& actual.error is None
    &&& actual.machine == target.machine
    &&& actual.steps_left >= target.steps_left
}

/// Whether `after` may stand for `before`: on every machine whose pointer is
/// within the range of addresses, and for every number of steps with which
/// the run of `before` reaches its end, the run of `after` reaches its end
/// too, leaves the same tape, pointer and output, and uses no more steps.
pub open spec fn refines(before: Seq<Instr>, after: Seq<Instr>) -> bool {
    forall|machine: Machine, steps: nat|
        in_range(machine.pointer) && (#[trigger] run(before, machine, steps)).error is None
            ==> follows(before, after, machine, steps)
}

/// Every program may stand for itself.
pub proof fn lemma_refines_itself(program: Seq<Instr>)
    ensures
        refines(program, program),
{
}

/// What may stand for a program that may stand for another may stand for
/// that other.
pub proof fn lemma_refines_chain(first: Seq<Instr>, second: Seq<Instr>, third: Seq<Instr>)
    requires
        refines(first, second),
        refines(second, third),
    ensures
        refines(first, third),
{
    assert forall|machine: Machine, steps: nat|
        in_range(machine.pointer) && (#[trigger] run(first, machine, steps)).error is None
        implies follows(first, third, machine, steps) by {
        assert(follows(first, second, machine, steps));
        assert(run(second, machine, steps).error is None);
        assert(follows(second, third, machine, steps));
    }
}

/// Programs that may stand for the two parts of a program may, one after
/// the other, stand for the whole.
pub proof fn lemma_refines_concat(
    first: Seq<Instr>,
    first_after: Seq<Instr>,
    second: Seq<Instr>,
    second_after: Seq<Instr>,
)
    requires
        refines(first, first_after),
        refines(second, second_after),
    ensures
        refines(first + second, first_after + second_after),
{
    assert forall|machine: Machine, steps: nat|
        in_range(machine.pointer) && (#[trigger] run(first + second, machine, steps)).error
            is None implies follows(first + second, first_after + second_after, machine, steps) by {
        lemma_run_concat(first, second, machine, steps);
        lemma_run_concat(first_after, second_after, machine, steps);
        let head = run(first, machine, steps);
        assert(head.error is None);
        assert(follows(first, first_after, machine, steps));
        let head_after = run(first_after, machine, steps);
        lemma_run_in_range(first, machine, steps);
        let tail = run(second, head.machine, head.steps_left);
        assert(tail.error is None);
        assert(follows(second, second_after, head.machine, head.steps_left));
        lemma_run_more_steps(
            second_after,
            head.machine,
            head.steps_left,
            (head_after.steps_left - head.steps_left) as nat,
        );
    }
}

/// The run of a loop alone, where a body that may stand for its body is
/// put in its place.
proof fn lemma_loop_follows(body: Seq<Instr>, body_after: Seq<Instr>, machine: Machine, steps: nat)
    requires
        refines(body, body_after),
        in_range(machine.pointer),
        run(seq![Instr::Loop(body)], machine, steps).error is None,
    ensures
        follows(seq![Instr::Loop(body)], seq![Instr::Loop(body_after)], machine, steps),
    decreases steps,
{
    let before = seq![Instr::Loop(body)];
    let after = seq![Instr::Loop(body_after)];
    assert(before.skip(1) =~= Seq::<Instr>::empty());
    assert(after.skip(1) =~= Seq::<Instr>::empty());
    assert(before[0] == Instr::Loop(body));
    assert(after[0] == Instr::Loop(body_after));
    if 0 <= machine.pointer < machine.memory.len() && machine.memory[machine.pointer] != 0 {
        assert(steps > 0);
        let pass = run(body, machine, (steps - 1) as nat);
        let pass_after = run(body_after, machine, (steps - 1) as nat);
        lemma_run_steps(body, machine, (steps - 1) as nat);
        lemma_run_steps(body_after, machine, (steps - 1) as nat);
        assert(pass.error is None);
        assert(follows(body, body_after, machine, (steps - 1) as nat));
        lemma_run_in_range(body, machine, (steps - 1) as nat);
        assert(run(before, machine, steps) == run(before, pass.machine, pass.steps_left));
        lemma_loop_follows(body, body_after, pass.machine, pass.steps_left);
        lemma_run_more_steps(
            after,
            pass.machine,
            pass.steps_left,
            (pass_after.steps_left - pass.steps_left) as nat,
        );
        assert(run(after, machine, steps) == run(after, pass_after.machine, pass_after.steps_left));
    }
}

/// A loop whose body may stand for the body of another may stand for that
/// other.
pub proof fn lemma_refines_loop(body: Seq<Instr>, body_after: Seq<Instr>)
    requires
        refines(body, body_after),
    ensures
        refines(seq![Instr::Loop(body)], seq![Instr::Loop(body_after)]),
{
    let before = seq![Instr::Loop(body)];
    let after = seq![Instr::Loop(body_after)];
    assert forall|machine: Machine, steps: nat|
        in_range(machine.pointer) && (#[trigger] run(before, machine, steps)).error
            is None implies follows(before, after, machine, steps) by {
        lemma_loop_follows(body, body_after, machine, steps);
    }
}

/// The machine after an instruction that is not a loop; none where the
/// instruction stops the run.
pub open spec fn advance(instr: Instr, machine: Machine) -> Option<Machine> {
    match instr {
        Instr::ChangeAddr(delta) => if in_range(machine.pointer + delta) {
            Some(Machine { pointer: machine.pointer + delta, ..machine })
        } else {
            None
        },
        Instr::Offset(offset, op) => apply(machine, offset, op),
        Instr::Loop(_) => None,
    }
}

/// Whether the run of instructions that are not loops, of which `result`
/// is what `advance` makes of them in turn, is `run`.
pub open spec fn ends_as(run: Run, result: Option<Machine>, steps: nat) -> bool {
    match result {
        Some(machine) => run == (Run { machine, steps_left: steps, error: None }),
        None => run.error is Some,
    }
}

/// The run of one instruction that is not a loop.
pub proof fn lemma_run_one(a: Instr, machine: Machine, steps: nat)
    requires
        !(a is Loop),
    ensures
        ends_as(run(seq![a], machine, steps), advance(a, machine), steps),
{
    let none = Seq::<Instr>::empty();
    assert(seq![a].skip(1) =~= none);
    assert(seq![a][0] == a);
    match advance(a, machine) {
        Some(next) => {
            assert(run(none, next, steps) == (Run { machine: next, steps_left: steps, error: None }));
        },
        None => {},
    }
}

/// The run of two instructions that are not loops.
pub proof fn lemma_run_two(a: Instr, b: Instr, machine: Machine, steps: nat)
    requires
        !(a is Loop),
        !(b is Loop),
    ensures
        ends_as(
            run(seq![a, b], machine, steps),
            match advance(a, machine) {
                Some(next) => advance(b, next),
                None => None,
            },
            steps,
        ),
{
    assert(seq![a, b].skip(1) =~= seq![b]);
    match advance(a, machine) {
        Some(next) => lemma_run_one(b, next, steps),
        None => {},
    }
}

/// The run of three instructions that are not loops.
pub proof fn lemma_run_three(a: Instr, b: Instr, c: Instr, machine: Machine, steps: nat)
    requires
        !(a is Loop),
        !(b is Loop),
        !(c is Loop),
    ensures
        ends_as(
            run(seq![a, b, c], machine, steps),
            match advance(a, machine) {
                Some(next) => match advance(b, next) {
                    Some(then) => advance(c, then),
                    None => None,
                },
                None => None,
            },
            steps,
        ),
{
    assert(seq![a, b, c].skip(1) =~= seq![b, c]);
    match advance(a, machine) {
        Some(next) => lemma_run_two(b, c, next, steps),
        None => {},
    }
}

/// Adding two steps to a cell one after the other is adding their wrapped
/// sum.
pub proof fn lemma_wrap_sum(cell: u8, a: i8, b: i8)
    ensures
        wrap_u8(wrap_u8(cell + a) + b) == wrap_u8(cell + wrap_i8(a + b)),
        wrap_u8(wrap_u8(0) + a) == wrap_u8(a as int),
{
    let first = (cell + a) % 256;
    let sum = (a + b) % 256;
    assert((first + b) % 256 == (cell + a + b) % 256);
    if sum < 128 {
        assert((cell + sum) % 256 == (cell + a + b) % 256);
    } else {
        assert((cell + (sum - 256)) % 256 == (cell + a + b) % 256);
    }
}

/// The machines that two operations on one cell leave, and the machine that
/// the operation leaves to which they fuse.
proof fn lemma_fuse_cell(offset: int, first: MemoryOp, second: MemoryOp, machine: Machine)
    requires
        fuse_pair(Instr::Offset(offset, first), Instr::Offset(offset, second)) is Some,
        apply(machine, offset, first) is Some,
    ensures
        ({
            let fused = fuse_pair(Instr::Offset(offset, first), Instr::Offset(offset, second))->0;
            fused matches Instr::Offset(at, op) && at == offset && apply(machine, at, op) == apply(
                apply(machine, offset, first)->0,
                offset,
                second,
            )
        }),
{
    let address = machine.pointer + offset;
    let cell = machine.memory[address];
    let fused = fuse_pair(Instr::Offset(offset, first), Instr::Offset(offset, second))->0;
    let middle = apply(machine, offset, first)->0;
    let last = apply(middle, offset, second)->0;
    match (first, second) {
        (MemoryOp::ChangeValue(a), MemoryOp::ChangeValue(b)) => {
            lemma_wrap_sum(cell, a, b);
        },
        (MemoryOp::SetValue(z), MemoryOp::ChangeValue(a)) => {
            lemma_wrap_sum(cell, a, a);
        },
        _ => {},
    }
    match fused {
        Instr::Offset(at, op) => {
            assert(apply(machine, at, op)->0.memory =~= last.memory);
        },
        _ => {},
    }
}

/// Two instructions that fuse may be replaced by what they fuse to.
pub proof fn lemma_fuse_pair_refines(pending: Instr, next: Instr)
    requires
        fuse_pair(pending, next) is Some,
    ensures
        refines(seq![pending, next], seq![fuse_pair(pending, next)->0]),
{
    let fused = fuse_pair(pending, next)->0;
    let before = seq![pending, next];
    let after = seq![fused];
    assert forall|machine: Machine, steps: nat|
        in_range(machine.pointer) && (#[trigger] run(before, machine, steps)).error
            is None implies follows(before, after, machine, steps) by {
        lemma_run_two(pending, next, machine, steps);
        lemma_run_one(fused, machine, steps);
        match (pending, next) {
            (Instr::Offset(offset, first), Instr::Offset(_, second)) => {
                lemma_fuse_cell(offset, first, second, machine);
            },
            _ => {},
        }
    }
}

/// Two moves may be replaced by the move by their sum.
pub proof fn lemma_fuse_moves_refines(a: int, b: int)
    ensures
        refines(
            seq![Instr::ChangeAddr(a), Instr::ChangeAddr(b)],
            seq![Instr::ChangeAddr(a + b)],
        ),
{
    let before = seq![Instr::ChangeAddr(a), Instr::ChangeAddr(b)];
    let after = seq![Instr::ChangeAddr(a + b)];
    assert forall|machine: Machine, steps: nat|
        in_range(machine.pointer) && (#[trigger] run(before, machine, steps)).error
            is None implies follows(before, after, machine, steps) by {
        lemma_run_two(Instr::ChangeAddr(a), Instr::ChangeAddr(b), machine, steps);
        lemma_run_one(Instr::ChangeAddr(a + b), machine, steps);
    }
}

/// A move, a change of the cell then under the pointer and the move back
/// may be replaced by the change at the move's distance.
pub proof fn lemma_round_trip_refines(pending: Instr, next: Instr, after: Instr)
    requires
        fuse_round_trip(pending, next, after) is Some,
    ensures
        refines(seq![pending, next, after], seq![fuse_round_trip(pending, next, after)->0]),
{
    let fused = fuse_round_trip(pending, next, after)->0;
    let before = seq![pending, next, after];
    let replaced = seq![fused];
    assert forall|machine: Machine, steps: nat|
        in_range(machine.pointer) && (#[trigger] run(before, machine, steps)).error
            is None implies follows(before, replaced, machine, steps) by {
        lemma_run_three(pending, next, after, machine, steps);
        lemma_run_one(fused, machine, steps);
    }
}

/// The run of the loop that changes the cell under the pointer by a fixed
/// step: where it reaches its end, it has cleared that cell and done
/// nothing else.
proof fn lemma_clear_loop_follows(body: Seq<Instr>, machine: Machine, steps: nat)
    requires
        is_clear_body(body),
        run(seq![Instr::Loop(body)], machine, steps).error is None,
    ensures
        0 <= machine.pointer < machine.memory.len(),
        run(seq![Instr::Loop(body)], machine, steps).machine == (Machine {
            memory: machine.memory.update(machine.pointer, 0),
            ..machine
        }),
    decreases steps,
{
    let whole = seq![Instr::Loop(body)];
    assert(whole.skip(1) =~= Seq::<Instr>::empty());
    assert(whole[0] == Instr::Loop(body));
    if machine.memory[machine.pointer] != 0 {
        assert(body =~= seq![body[0]]);
        lemma_run_one(body[0], machine, (steps - 1) as nat);
        let pass = run(body, machine, (steps - 1) as nat);
        lemma_run_steps(body, machine, (steps - 1) as nat);
        assert(run(whole, machine, steps) == run(whole, pass.machine, pass.steps_left));
        lemma_clear_loop_follows(body, pass.machine, pass.steps_left);
        assert(pass.machine.memory.update(machine.pointer, 0) =~= machine.memory.update(
            machine.pointer,
            0,
        ));
    } else {
        assert(run(Seq::<Instr>::empty(), machine, steps).machine == machine);
        assert(machine.memory.update(machine.pointer, 0) =~= machine.memory);
    }
}

/// The loop that changes the cell under the pointer by a fixed step may be
/// replaced by the instruction that clears that cell.
pub proof fn lemma_clear_loop_refines(body: Seq<Instr>)
    requires
        is_clear_body(body),
    ensures
        refines(seq![Instr::Loop(body)], seq![Instr::Offset(0, MemoryOp::SetValue(0))]),
{
    let clear = Instr::Offset(0, MemoryOp::SetValue(0));
    let before = seq![Instr::Loop(body)];
    let after = seq![clear];
    assert forall|machine: Machine, steps: nat|
        in_range(machine.pointer) && (#[trigger] run(before, machine, steps)).error
            is None implies follows(before, after, machine, steps) by {
        lemma_clear_loop_follows(body, machine, steps);
        lemma_run_one(clear, machine, steps);
        lemma_run_steps(seq![Instr::Loop(body)], machine, steps);
    }
}

/// A move before an operation may be made after it, with the operation's
/// offset longer by the move.
pub proof fn lemma_move_past_refines(delta: int, offset: int, op: MemoryOp)
    ensures
        refines(
            seq![Instr::ChangeAddr(delta), Instr::Offset(offset, op)],
            seq![Instr::Offset(offset + delta, op), Instr::ChangeAddr(delta)],
        ),
{
    let before = seq![Instr::ChangeAddr(delta), Instr::Offset(offset, op)];
    let after = seq![Instr::Offset(offset + delta, op), Instr::ChangeAddr(delta)];
    assert forall|machine: Machine, steps: nat|
        in_range(machine.pointer) && (#[trigger] run(before, machine, steps)).error
            is None implies follows(before, after, machine, steps) by {
        lemma_run_two(Instr::ChangeAddr(delta), Instr::Offset(offset, op), machine, steps);
        lemma_run_two(Instr::Offset(offset + delta, op), Instr::ChangeAddr(delta), machine, steps);
    }
}

/// A move by nothing may be left out, and may be put in.
pub proof fn lemma_no_move_refines()
    ensures
        refines(seq![Instr::ChangeAddr(0)], Seq::empty()),
        refines(Seq::empty(), seq![Instr::ChangeAddr(0)]),
{
    let stay = seq![Instr::ChangeAddr(0)];
    let none = Seq::<Instr>::empty();
    assert forall|machine: Machine, steps: nat|
        in_range(machine.pointer) && (#[trigger] run(stay, machine, steps)).error
            is None implies follows(stay, none, machine, steps) by {
        lemma_run_one(Instr::ChangeAddr(0), machine, steps);
    }
    assert forall|machine: Machine, steps: nat|
        in_range(machine.pointer) && (#[trigger] run(none, machine, steps)).error
            is None implies follows(none, stay, machine, steps) by {
        lemma_run_one(Instr::ChangeAddr(0), machine, steps);
    }
}

} // verus!
