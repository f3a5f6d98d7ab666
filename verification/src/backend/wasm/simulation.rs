//! The emitted code does what the program does: the structure of the code
//! of a program, and the run of that code beside the run of the program.

use crate::backend::wasm::code_stream::{instruction_bytes, wrap_i32, Instruction, LocalHandle};
use crate::backend::wasm::code_stream::wrap_u32;
use crate::backend::wasm::machine::{
    bytes_of, exec, lemma_bytes_concat, lemma_bytes_one, lemma_exec_concat, lemma_exec_plain,
    lemma_exec_steps, lemma_exec_then, plain, popped, pushed, step, top, unsigned, Code, End,
    Outcome, Step, Vm,
};
use crate::optimizer::{lemma_optimize_keeps_runs, optimized};
use crate::refinement::lemma_run_one;
use crate::semantics::{
    apply, in_range, lemma_run_concat, lemma_run_in_range, lemma_run_steps,
    lemma_run_tape_length, run, wrap_u8, Machine,
};
use crate::backend::wasm::module_builder::{
    access_offset, address_code, code_of, code_of_all, function_body, loop_entry_code,
    loop_exit_code, PRINT_FUNCTION,
};
use crate::types::{Instr, MemoryOp};
use vstd::prelude::*;

verus! {

/// The operations that put on the stack the address from which an access
/// at `offset` from the pointer is made.
pub open spec fn address_ops(pointer: LocalHandle, offset: int) -> Seq<Code> {
    if offset >= 0 {
        plain(Instruction::GetLocal(pointer))
    } else {
        plain(Instruction::GetLocal(pointer)) + plain(Instruction::PushI32(wrap_i32(offset)))
            + plain(Instruction::AddI32)
    }
}

/// The operations that put the cell under the pointer on the stack.
pub open spec fn guard_ops(pointer: LocalHandle) -> Seq<Code> {
    plain(Instruction::GetLocal(pointer)) + plain(Instruction::Load8Unsigned(0))
}

/// The structured code of one instruction, with the pointer in the local
/// `pointer`.
pub open spec fn ops_of(pointer: LocalHandle, instr: Instr) -> Seq<Code>
    decreases instr,
{
    match instr {
        Instr::ChangeAddr(delta) => plain(Instruction::GetLocal(pointer)) + plain(
            Instruction::PushI32(wrap_i32(delta)),
        ) + plain(Instruction::AddI32) + plain(Instruction::SetLocal(pointer)),
        Instr::Offset(offset, MemoryOp::ChangeValue(value)) => address_ops(pointer, offset)
            + address_ops(pointer, offset) + plain(
            Instruction::Load8Unsigned(access_offset(offset)),
        ) + plain(Instruction::PushI32(value as i32)) + plain(Instruction::AddI32) + plain(
            Instruction::Store8(access_offset(offset)),
        ),
        Instr::Offset(offset, MemoryOp::SetValue(value)) => address_ops(pointer, offset) + plain(
            Instruction::PushI32(value as i32),
        ) + plain(Instruction::Store8(access_offset(offset))),
        Instr::Offset(offset, MemoryOp::Print) => address_ops(pointer, offset) + plain(
            Instruction::Load8Unsigned(access_offset(offset)),
        ) + plain(Instruction::Call(PRINT_FUNCTION)),
        Instr::Loop(body) => seq![
            Code::Block(
                guard_ops(pointer) + plain(Instruction::EqualsZeroI32) + plain(
                    Instruction::BranchIf(0),
                ) + seq![Code::Loop(repeated_ops(pointer, body))],
            ),
        ],
    }
}

/// The code inside the loop of a program's loop: the body, and the branch
/// back while the cell under the pointer is not zero.
pub open spec fn repeated_ops(pointer: LocalHandle, body: Seq<Instr>) -> Seq<Code>
    decreases body, 1nat,
{
    ops_of_all(pointer, body) + guard_ops(pointer) + plain(Instruction::BranchIf(0))
}

/// The structured code of a sequence of instructions.
pub open spec fn ops_of_all(pointer: LocalHandle, instrs: Seq<Instr>) -> Seq<Code>
    decreases instrs, 0nat,
{
    if instrs.len() == 0 {
        Seq::empty()
    } else {
        ops_of_all(pointer, instrs.drop_last()) + ops_of(pointer, instrs.last())
    }
}

/// The bytes of code with one more operation behind it.
proof fn lemma_bytes_then(before: Seq<Code>, op: Instruction)
    ensures
        bytes_of(before + plain(op)) == bytes_of(before) + instruction_bytes(op),
{
    lemma_bytes_concat(before, plain(op));
    lemma_bytes_one(Code::Plain(op));
}

/// The bytes of the operations that compute an address.
proof fn lemma_address_bytes(pointer: LocalHandle, offset: int)
    ensures
        bytes_of(address_ops(pointer, offset)) == address_code(pointer, offset),
{
    let get = Instruction::GetLocal(pointer);
    lemma_bytes_one(Code::Plain(get));
    if offset < 0 {
        lemma_bytes_then(plain(get), Instruction::PushI32(wrap_i32(offset)));
        lemma_bytes_then(
            plain(get) + plain(Instruction::PushI32(wrap_i32(offset))),
            Instruction::AddI32,
        );
    }
}

/// The bytes of the code of a move.
proof fn lemma_move_bytes(pointer: LocalHandle, delta: int)
    ensures
        code_of(pointer, Instr::ChangeAddr(delta)) == bytes_of(
            ops_of(pointer, Instr::ChangeAddr(delta)),
        ),
{
    let get = plain(Instruction::GetLocal(pointer));
    let push = Instruction::PushI32(wrap_i32(delta));
    lemma_bytes_one(Code::Plain(Instruction::GetLocal(pointer)));
    lemma_bytes_then(get, push);
    lemma_bytes_then(get + plain(push), Instruction::AddI32);
    lemma_bytes_then(
        get + plain(push) + plain(Instruction::AddI32),
        Instruction::SetLocal(pointer),
    );
}

/// The bytes of the code of a change of a cell.
proof fn lemma_change_bytes(pointer: LocalHandle, offset: int, value: i8)
    ensures
        code_of(pointer, Instr::Offset(offset, MemoryOp::ChangeValue(value))) == bytes_of(
            ops_of(pointer, Instr::Offset(offset, MemoryOp::ChangeValue(value))),
        ),
{
    let address = address_ops(pointer, offset);
    let load = Instruction::Load8Unsigned(access_offset(offset));
    let push = Instruction::PushI32(value as i32);
    let store = Instruction::Store8(access_offset(offset));
    lemma_address_bytes(pointer, offset);
    lemma_bytes_concat(address, address);
    lemma_bytes_then(address + address, load);
    lemma_bytes_then(address + address + plain(load), push);
    lemma_bytes_then(address + address + plain(load) + plain(push), Instruction::AddI32);
    lemma_bytes_then(
        address + address + plain(load) + plain(push) + plain(Instruction::AddI32),
        store,
    );
}

/// The bytes of the code of a set of a cell.
proof fn lemma_set_bytes(pointer: LocalHandle, offset: int, value: i8)
    ensures
        code_of(pointer, Instr::Offset(offset, MemoryOp::SetValue(value))) == bytes_of(
            ops_of(pointer, Instr::Offset(offset, MemoryOp::SetValue(value))),
        ),
{
    let address = address_ops(pointer, offset);
    let push = Instruction::PushI32(value as i32);
    lemma_address_bytes(pointer, offset);
    lemma_bytes_then(address, push);
    lemma_bytes_then(address + plain(push), Instruction::Store8(access_offset(offset)));
}

/// The bytes of the code of a print of a cell.
proof fn lemma_print_bytes(pointer: LocalHandle, offset: int)
    ensures
        code_of(pointer, Instr::Offset(offset, MemoryOp::Print)) == bytes_of(
            ops_of(pointer, Instr::Offset(offset, MemoryOp::Print)),
        ),
{
    let address = address_ops(pointer, offset);
    let load = Instruction::Load8Unsigned(access_offset(offset));
    lemma_address_bytes(pointer, offset);
    lemma_bytes_then(address, load);
    lemma_bytes_then(address + plain(load), Instruction::Call(PRINT_FUNCTION));
}

/// The bytes of the code around a loop's body.
proof fn lemma_loop_bytes(pointer: LocalHandle, body: Seq<Instr>)
    requires
        code_of_all(pointer, body) == bytes_of(ops_of_all(pointer, body)),
    ensures
        code_of(pointer, Instr::Loop(body)) == bytes_of(ops_of(pointer, Instr::Loop(body))),
{
    let get = plain(Instruction::GetLocal(pointer));
    let guard = guard_ops(pointer);
    let branch = Instruction::BranchIf(0);
    let repeated = repeated_ops(pointer, body);
    let entry = guard + plain(Instruction::EqualsZeroI32) + plain(branch);
    lemma_bytes_one(Code::Plain(Instruction::GetLocal(pointer)));
    lemma_bytes_then(get, Instruction::Load8Unsigned(0));
    lemma_bytes_then(guard, Instruction::EqualsZeroI32);
    lemma_bytes_then(guard + plain(Instruction::EqualsZeroI32), branch);
    assert(loop_entry_code(pointer) =~= instruction_bytes(Instruction::Block) + bytes_of(entry)
        + instruction_bytes(Instruction::Loop));
    lemma_bytes_concat(ops_of_all(pointer, body), guard);
    lemma_bytes_then(ops_of_all(pointer, body) + guard, branch);
    lemma_bytes_one(Code::Loop(repeated));
    lemma_bytes_concat(entry, seq![Code::Loop(repeated)]);
    lemma_bytes_one(Code::Block(entry + seq![Code::Loop(repeated)]));
    assert(bytes_of(ops_of(pointer, Instr::Loop(body))) =~= loop_entry_code(pointer)
        + code_of_all(pointer, body) + loop_exit_code(pointer));
}

/// The bytes that the module builder emits for an instruction are the bytes
/// of the instruction's structured code.
pub proof fn lemma_code_structure(pointer: LocalHandle, instr: Instr)
    ensures
        code_of(pointer, instr) == bytes_of(ops_of(pointer, instr)),
    decreases instr, 1nat,
{
    match instr {
        Instr::ChangeAddr(delta) => lemma_move_bytes(pointer, delta),
        Instr::Offset(offset, MemoryOp::ChangeValue(value)) => lemma_change_bytes(
            pointer,
            offset,
            value,
        ),
        Instr::Offset(offset, MemoryOp::SetValue(value)) => lemma_set_bytes(
            pointer,
            offset,
            value,
        ),
        Instr::Offset(offset, MemoryOp::Print) => lemma_print_bytes(pointer, offset),
        Instr::Loop(body) => {
            lemma_code_structure_all(pointer, body);
            lemma_loop_bytes(pointer, body);
        },
    }
}

/// The bytes that the module builder emits for a sequence of instructions
/// are the bytes of the sequence's structured code.
pub proof fn lemma_code_structure_all(pointer: LocalHandle, instrs: Seq<Instr>)
    ensures
        code_of_all(pointer, instrs) == bytes_of(ops_of_all(pointer, instrs)),
    decreases instrs, 0nat,
{
    if instrs.len() > 0 {
        lemma_code_structure_all(pointer, instrs.drop_last());
        lemma_code_structure(pointer, instrs.last());
        lemma_bytes_concat(
            ops_of_all(pointer, instrs.drop_last()),
            ops_of(pointer, instrs.last()),
        );
    }
}

/// Whether a memory with addresses of 32 bits can hold the machine's tape.
pub open spec fn addressable(machine: Machine) -> bool {
    machine.memory.len() <= 0x1_0000_0000
}

/// Whether a host stands for a machine: the local `pointer` holds the
/// machine's pointer, cut down to 32 bits, and memory and output are the
/// machine's.
pub open spec fn stands_for(vm: Vm, machine: Machine, pointer: LocalHandle) -> bool {
    &&& pointer.0 < vm.locals.len()
    &&& vm.locals[pointer.0 as int] == wrap_i32(machine.pointer)
    &&& vm.memory == machine.memory
    &&& vm.output == machine.output
}

/// The host that stands for `machine` and is `vm` in all that a machine
/// has not: the stack and the other locals.
pub open spec fn host_of(vm: Vm, machine: Machine, pointer: LocalHandle) -> Vm {
    Vm {
        locals: vm.locals.update(pointer.0 as int, wrap_i32(machine.pointer)),
        stack: vm.stack,
        memory: machine.memory,
        output: machine.output,
    }
}

/// Whether the run of `code` on `vm` with `steps` steps reaches its end on
/// the host that stands for `machine`, with at least `least` steps left.
pub open spec fn reaches(
    code: Seq<Code>,
    vm: Vm,
    steps: nat,
    machine: Machine,
    pointer: LocalHandle,
    least: nat,
) -> bool {
    let outcome = exec(code, vm, steps);
    &&& outcome.end is Done
    &&& outcome.vm == host_of(vm, machine, pointer)
    &&& outcome.steps_left >= least
}

/// Cutting down to 32 bits before and after an addition is cutting down
/// after it.
pub proof fn lemma_wrap_add(a: int, b: int)
    ensures
        wrap_i32(wrap_i32(a) + wrap_i32(b)) == wrap_i32(a + b),
        wrap_i32(wrap_i32(a) + b) == wrap_i32(a + b),
{
    let m = 0x1_0000_0000int;
    let h = 0x8000_0000int;
    let x = (a + h) % m - h;
    let y = (b + h) % m - h;
    assert((x + y + h) % m == (a + b + h) % m) by {
        assert((a + h) % m == a + h - m * ((a + h) / m));
        assert((b + h) % m == b + h - m * ((b + h) / m));
        vstd::arithmetic::div_mod::lemma_mod_multiples_vanish(
            -((a + h) / m) - ((b + h) / m),
            a + b + h,
            m,
        );
        assert(x + y + h == m * (-((a + h) / m) - ((b + h) / m)) + (a + b + h)) by (nonlinear_arith)
            requires
                x == a + h - m * ((a + h) / m) - h,
                y == b + h - m * ((b + h) / m) - h,
        ;
    }
    assert((x + b + h) % m == (a + b + h) % m) by {
        vstd::arithmetic::div_mod::lemma_mod_multiples_vanish(-((a + h) / m), a + b + h, m);
        assert(x + b + h == m * (-((a + h) / m)) + (a + b + h)) by (nonlinear_arith)
            requires
                x == a + h - m * ((a + h) / m) - h,
        ;
    }
}

/// A number that is an address of the memory survives being cut down to 32
/// bits and read as unsigned.
pub proof fn lemma_unsigned_wrap(address: int)
    requires
        0 <= address < 0x1_0000_0000,
    ensures
        unsigned(wrap_i32(address)) == address,
        wrap_u32(address) == address,
{
}

/// Whether the run of `code` on `vm` reaches its end on `after` without
/// using a step.
pub open spec fn runs_to(code: Seq<Code>, vm: Vm, steps: nat, after: Vm) -> bool {
    exec(code, vm, steps) == (Outcome { vm: after, steps_left: steps, end: End::Done })
}

/// The run of one operation that goes on.
proof fn lemma_runs_one(op: Instruction, vm: Vm, steps: nat, after: Vm)
    requires
        step(op, vm) == Step::Next(after),
    ensures
        runs_to(plain(op), vm, steps, after),
{
    lemma_exec_plain(op, vm, steps);
}

/// The run of code with one more operation behind it that goes on.
proof fn lemma_runs_then(
    before: Seq<Code>,
    op: Instruction,
    vm: Vm,
    steps: nat,
    middle: Vm,
    after: Vm,
)
    requires
        runs_to(before, vm, steps, middle),
        step(op, middle) == Step::Next(after),
    ensures
        runs_to(before + plain(op), vm, steps, after),
{
    lemma_exec_then(before, op, vm, steps);
    lemma_exec_plain(op, middle, steps);
}

/// The run of one piece of code after another.
proof fn lemma_runs_concat(
    first: Seq<Code>,
    second: Seq<Code>,
    vm: Vm,
    steps: nat,
    middle: Vm,
    after: Vm,
)
    requires
        runs_to(first, vm, steps, middle),
        runs_to(second, middle, steps, after),
    ensures
        runs_to(first + second, vm, steps, after),
{
    lemma_exec_concat(first, second, vm, steps);
}

/// The address that the code of an access puts on the stack.
pub open spec fn address_base(machine: Machine, offset: int) -> i32 {
    if offset >= 0 {
        wrap_i32(machine.pointer)
    } else {
        wrap_i32(machine.pointer + offset)
    }
}

/// The operations that compute an address put it on the stack, and with the
/// offset of the access it is the address of the cell.
proof fn lemma_address_runs(
    pointer: LocalHandle,
    offset: int,
    vm: Vm,
    machine: Machine,
    held: Vm,
    steps: nat,
)
    requires
        stands_for(vm, machine, pointer),
        held.locals == vm.locals,
        in_range(machine.pointer),
        addressable(machine),
        0 <= machine.pointer + offset < machine.memory.len(),
    ensures
        runs_to(
            address_ops(pointer, offset),
            held,
            steps,
            pushed(held, address_base(machine, offset)),
        ),
        unsigned(address_base(machine, offset)) + access_offset(offset) == machine.pointer
            + offset,
{
    let get = Instruction::GetLocal(pointer);
    let first = pushed(held, wrap_i32(machine.pointer));
    lemma_runs_one(get, held, steps, first);
    if offset < 0 {
        let push = Instruction::PushI32(wrap_i32(offset));
        let second = pushed(first, wrap_i32(offset));
        lemma_runs_then(plain(get), push, held, steps, first, second);
        lemma_wrap_add(machine.pointer, offset);
        let third = pushed(held, wrap_i32(machine.pointer + offset));
        assert(popped(second, 2).stack =~= held.stack);
        assert(step(Instruction::AddI32, second) == Step::Next(third));
        lemma_runs_then(plain(get) + plain(push), Instruction::AddI32, held, steps, second, third);
        lemma_unsigned_wrap(machine.pointer + offset);
    } else {
        lemma_unsigned_wrap(machine.pointer);
        lemma_unsigned_wrap(offset);
    }
}

/// The code of a move moves the pointer of the host.
proof fn lemma_move_runs(pointer: LocalHandle, delta: int, vm: Vm, machine: Machine, steps: nat)
    requires
        stands_for(vm, machine, pointer),
    ensures
        runs_to(
            ops_of(pointer, Instr::ChangeAddr(delta)),
            vm,
            steps,
            host_of(vm, Machine { pointer: machine.pointer + delta, ..machine }, pointer),
        ),
{
    let get = Instruction::GetLocal(pointer);
    let push = Instruction::PushI32(wrap_i32(delta));
    let set = Instruction::SetLocal(pointer);
    let first = pushed(vm, wrap_i32(machine.pointer));
    let second = pushed(first, wrap_i32(delta));
    let third = pushed(vm, wrap_i32(machine.pointer + delta));
    let after = host_of(vm, Machine { pointer: machine.pointer + delta, ..machine }, pointer);
    lemma_runs_one(get, vm, steps, first);
    lemma_runs_then(plain(get), push, vm, steps, first, second);
    lemma_wrap_add(machine.pointer, delta);
    assert(popped(second, 2).stack =~= vm.stack);
    assert(step(Instruction::AddI32, second) == Step::Next(third));
    lemma_runs_then(plain(get) + plain(push), Instruction::AddI32, vm, steps, second, third);
    assert(popped(third, 1).stack =~= vm.stack);
    assert(step(set, third) == Step::Next(after));
    lemma_runs_then(
        plain(get) + plain(push) + plain(Instruction::AddI32),
        set,
        vm,
        steps,
        third,
        after,
    );
}

/// The code of a change of a cell changes the cell of the host.
proof fn lemma_change_runs(
    pointer: LocalHandle,
    offset: int,
    value: i8,
    vm: Vm,
    machine: Machine,
    steps: nat,
)
    requires
        stands_for(vm, machine, pointer),
        in_range(machine.pointer),
        addressable(machine),
        apply(machine, offset, MemoryOp::ChangeValue(value)) is Some,
    ensures
        runs_to(
            ops_of(pointer, Instr::Offset(offset, MemoryOp::ChangeValue(value))),
            vm,
            steps,
            host_of(vm, apply(machine, offset, MemoryOp::ChangeValue(value))->0, pointer),
        ),
{
    let address = address_ops(pointer, offset);
    let base = address_base(machine, offset);
    let at = machine.pointer + offset;
    let cell = machine.memory[at];
    let load = Instruction::Load8Unsigned(access_offset(offset));
    let push = Instruction::PushI32(value as i32);
    let store = Instruction::Store8(access_offset(offset));
    let after = host_of(vm, apply(machine, offset, MemoryOp::ChangeValue(value))->0, pointer);
    let s1 = pushed(vm, base);
    let s2 = pushed(s1, base);
    let s3 = pushed(s1, cell as i32);
    let s4 = pushed(s3, value as i32);
    let s5 = pushed(s1, wrap_i32(cell + value));
    lemma_address_runs(pointer, offset, vm, machine, vm, steps);
    lemma_address_runs(pointer, offset, vm, machine, s1, steps);
    lemma_runs_concat(address, address, vm, steps, s1, s2);
    assert(popped(s2, 1).stack =~= s1.stack);
    assert(step(load, s2) == Step::Next(s3));
    lemma_runs_then(address + address, load, vm, steps, s2, s3);
    lemma_runs_then(address + address + plain(load), push, vm, steps, s3, s4);
    assert(popped(s4, 2).stack =~= s1.stack);
    assert(step(Instruction::AddI32, s4) == Step::Next(s5));
    lemma_runs_then(
        address + address + plain(load) + plain(push),
        Instruction::AddI32,
        vm,
        steps,
        s4,
        s5,
    );
    assert(popped(s5, 2).stack =~= vm.stack);
    assert(after.locals =~= vm.locals);
    assert(wrap_u8(wrap_i32(cell + value) as int) == wrap_u8(cell + value));
    assert(step(store, s5) == Step::Next(after));
    lemma_runs_then(
        address + address + plain(load) + plain(push) + plain(Instruction::AddI32),
        store,
        vm,
        steps,
        s5,
        after,
    );
}

/// The code of a set of a cell sets the cell of the host.
proof fn lemma_set_runs(
    pointer: LocalHandle,
    offset: int,
    value: i8,
    vm: Vm,
    machine: Machine,
    steps: nat,
)
    requires
        stands_for(vm, machine, pointer),
        in_range(machine.pointer),
        addressable(machine),
        apply(machine, offset, MemoryOp::SetValue(value)) is Some,
    ensures
        runs_to(
            ops_of(pointer, Instr::Offset(offset, MemoryOp::SetValue(value))),
            vm,
            steps,
            host_of(vm, apply(machine, offset, MemoryOp::SetValue(value))->0, pointer),
        ),
{
    let address = address_ops(pointer, offset);
    let base = address_base(machine, offset);
    let push = Instruction::PushI32(value as i32);
    let store = Instruction::Store8(access_offset(offset));
    let after = host_of(vm, apply(machine, offset, MemoryOp::SetValue(value))->0, pointer);
    let s1 = pushed(vm, base);
    let s2 = pushed(s1, value as i32);
    lemma_address_runs(pointer, offset, vm, machine, vm, steps);
    lemma_runs_then(address, push, vm, steps, s1, s2);
    assert(popped(s2, 2).stack =~= vm.stack);
    assert(after.locals =~= vm.locals);
    assert(step(store, s2) == Step::Next(after));
    lemma_runs_then(address + plain(push), store, vm, steps, s2, after);
}

/// The code of a print of a cell prints the cell of the host.
proof fn lemma_print_runs(
    pointer: LocalHandle,
    offset: int,
    vm: Vm,
    machine: Machine,
    steps: nat,
)
    requires
        stands_for(vm, machine, pointer),
        in_range(machine.pointer),
        addressable(machine),
        apply(machine, offset, MemoryOp::Print) is Some,
    ensures
        runs_to(
            ops_of(pointer, Instr::Offset(offset, MemoryOp::Print)),
            vm,
            steps,
            host_of(vm, apply(machine, offset, MemoryOp::Print)->0, pointer),
        ),
{
    let address = address_ops(pointer, offset);
    let base = address_base(machine, offset);
    let cell = machine.memory[machine.pointer + offset];
    let load = Instruction::Load8Unsigned(access_offset(offset));
    let call = Instruction::Call(PRINT_FUNCTION);
    let after = host_of(vm, apply(machine, offset, MemoryOp::Print)->0, pointer);
    let s1 = pushed(vm, base);
    let s2 = pushed(vm, cell as i32);
    lemma_address_runs(pointer, offset, vm, machine, vm, steps);
    assert(popped(s1, 1).stack =~= vm.stack);
    assert(step(load, s1) == Step::Next(s2));
    lemma_runs_then(address, load, vm, steps, s1, s2);
    assert(popped(s2, 1).stack =~= vm.stack);
    assert(after.locals =~= vm.locals);
    assert(step(call, s2) == Step::Next(after));
    lemma_runs_then(address + plain(load), call, vm, steps, s2, after);
}

/// The code of an instruction that is not a loop does on the host what the
/// instruction does on the machine.
proof fn lemma_simple_runs(
    pointer: LocalHandle,
    instr: Instr,
    vm: Vm,
    machine: Machine,
    next: Machine,
    steps: nat,
)
    requires
        stands_for(vm, machine, pointer),
        in_range(machine.pointer),
        addressable(machine),
        !(instr is Loop),
        match instr {
            Instr::ChangeAddr(delta) => next == (Machine {
                pointer: machine.pointer + delta,
                ..machine
            }),
            Instr::Offset(offset, op) => apply(machine, offset, op) == Some(next),
            Instr::Loop(_) => false,
        },
    ensures
        runs_to(ops_of(pointer, instr), vm, steps, host_of(vm, next, pointer)),
{
    match instr {
        Instr::ChangeAddr(delta) => lemma_move_runs(pointer, delta, vm, machine, steps),
        Instr::Offset(offset, MemoryOp::ChangeValue(value)) => lemma_change_runs(
            pointer,
            offset,
            value,
            vm,
            machine,
            steps,
        ),
        Instr::Offset(offset, MemoryOp::SetValue(value)) => lemma_set_runs(
            pointer,
            offset,
            value,
            vm,
            machine,
            steps,
        ),
        Instr::Offset(offset, MemoryOp::Print) => lemma_print_runs(
            pointer,
            offset,
            vm,
            machine,
            steps,
        ),
        Instr::Loop(_) => {},
    }
}

/// The structured code of one sequence after another.
pub proof fn lemma_ops_concat(pointer: LocalHandle, first: Seq<Instr>, second: Seq<Instr>)
    ensures
        ops_of_all(pointer, first + second) == ops_of_all(pointer, first) + ops_of_all(
            pointer,
            second,
        ),
    decreases second.len(),
{
    if second.len() == 0 {
        assert(first + second =~= first);
        assert(ops_of_all(pointer, first) + ops_of_all(pointer, second) =~= ops_of_all(
            pointer,
            first,
        ));
    } else {
        let both = first + second;
        assert(both.drop_last() =~= first + second.drop_last());
        assert(both.last() == second.last());
        lemma_ops_concat(pointer, first, second.drop_last());
        assert(ops_of_all(pointer, both) =~= ops_of_all(pointer, first) + ops_of_all(
            pointer,
            second,
        ));
    }
}

/// The structured code of a sequence is that of its first instruction and
/// then that of the rest.
pub proof fn lemma_ops_first(pointer: LocalHandle, instrs: Seq<Instr>)
    requires
        instrs.len() > 0,
    ensures
        ops_of_all(pointer, instrs) == ops_of(pointer, instrs[0]) + ops_of_all(
            pointer,
            instrs.skip(1),
        ),
{
    let first = seq![instrs[0]];
    assert(first + instrs.skip(1) =~= instrs);
    lemma_ops_concat(pointer, first, instrs.skip(1));
    assert(first.drop_last() =~= Seq::<Instr>::empty());
    assert(ops_of_all(pointer, Seq::<Instr>::empty()) =~= Seq::<Code>::empty());
    assert(ops_of_all(pointer, first) =~= ops_of(pointer, instrs[0]));
}

/// The operations of a guard put the cell under the pointer on the stack.
proof fn lemma_guard_runs(pointer: LocalHandle, vm: Vm, machine: Machine, steps: nat)
    requires
        stands_for(vm, machine, pointer),
        addressable(machine),
        0 <= machine.pointer < machine.memory.len(),
    ensures
        runs_to(
            guard_ops(pointer),
            vm,
            steps,
            pushed(vm, machine.memory[machine.pointer] as i32),
        ),
{
    let get = Instruction::GetLocal(pointer);
    let load = Instruction::Load8Unsigned(0);
    let first = pushed(vm, wrap_i32(machine.pointer));
    let second = pushed(vm, machine.memory[machine.pointer] as i32);
    lemma_unsigned_wrap(machine.pointer);
    lemma_runs_one(get, vm, steps, first);
    assert(popped(first, 1).stack =~= vm.stack);
    assert(step(load, first) == Step::Next(second));
    lemma_runs_then(plain(get), load, vm, steps, first, second);
}

/// The run of the loop of a program's loop, entered with the cell under
/// the pointer not zero, beside the run of the program's loop.
proof fn lemma_repeat_mirrored(
    pointer: LocalHandle,
    body: Seq<Instr>,
    machine: Machine,
    steps: nat,
    vm: Vm,
    extra: nat,
)
    requires
        stands_for(vm, machine, pointer),
        in_range(machine.pointer),
        addressable(machine),
        0 <= machine.pointer < machine.memory.len(),
        machine.memory[machine.pointer] != 0,
        run(seq![Instr::Loop(body)], machine, steps).error is None,
    ensures
        steps >= 1,
        reaches(
            seq![Code::Loop(repeated_ops(pointer, body))],
            vm,
            (steps - 1 + extra) as nat,
            run(seq![Instr::Loop(body)], machine, steps).machine,
            pointer,
            run(seq![Instr::Loop(body)], machine, steps).steps_left + extra,
        ),
    decreases steps, 0nat, 0nat,
{
    let whole = seq![Instr::Loop(body)];
    let none = Seq::<Instr>::empty();
    assert(whole[0] == Instr::Loop(body));
    assert(whole.skip(1) =~= none);
    let pass = run(body, machine, (steps - 1) as nat);
    lemma_run_steps(body, machine, (steps - 1) as nat);
    lemma_run_in_range(body, machine, (steps - 1) as nat);
    lemma_run_tape_length(body, machine, (steps - 1) as nat);
    assert(run(whole, machine, steps) == run(whole, pass.machine, pass.steps_left));
    let result = run(whole, machine, steps);

    let budget = (steps - 1 + extra) as nat;
    let inside = ops_of_all(pointer, body);
    let guard = guard_ops(pointer);
    let branch = Instruction::BranchIf(0);
    let repeated = repeated_ops(pointer, body);
    let code = seq![Code::Loop(repeated)];
    assert(code[0] == Code::Loop(repeated));
    assert(code.skip(1) =~= Seq::<Code>::empty());

    lemma_program_mirrored(pointer, body, machine, (steps - 1) as nat, vm, extra);
    let passed = exec(inside, vm, budget);
    let host = host_of(vm, pass.machine, pointer);
    assert(passed.vm == host);
    lemma_exec_steps(inside, vm, budget);

    let cell = pass.machine.memory[pass.machine.pointer];
    let loaded = pushed(host, cell as i32);
    lemma_guard_runs(pointer, host, pass.machine, passed.steps_left);
    lemma_exec_concat(inside, guard, vm, budget);
    lemma_exec_then(inside + guard, branch, vm, budget);
    lemma_exec_plain(branch, loaded, passed.steps_left);
    assert(popped(loaded, 1).stack =~= host.stack);
    assert(popped(loaded, 1) == host);
    let inner = exec(repeated, vm, budget);
    if cell != 0 {
        assert(inner == Outcome { vm: host, steps_left: passed.steps_left, end: End::Branch(0) });
        assert(pass.steps_left >= 1);
        lemma_repeat_mirrored(
            pointer,
            body,
            pass.machine,
            pass.steps_left,
            host,
            (passed.steps_left - pass.steps_left) as nat,
        );
        assert(host_of(host, result.machine, pointer).locals =~= host_of(
            vm,
            result.machine,
            pointer,
        ).locals);
    } else {
        assert(inner == Outcome { vm: host, steps_left: passed.steps_left, end: End::Done });
        assert(run(none, pass.machine, pass.steps_left).machine == pass.machine);
        assert(exec(Seq::<Code>::empty(), host, passed.steps_left).vm == host);
    }
}

/// The run of the code of a program's loop beside the run of the loop.
proof fn lemma_loop_mirrored(
    pointer: LocalHandle,
    body: Seq<Instr>,
    machine: Machine,
    steps: nat,
    vm: Vm,
    extra: nat,
)
    requires
        stands_for(vm, machine, pointer),
        in_range(machine.pointer),
        addressable(machine),
        run(seq![Instr::Loop(body)], machine, steps).error is None,
    ensures
        reaches(
            ops_of(pointer, Instr::Loop(body)),
            vm,
            steps + extra,
            run(seq![Instr::Loop(body)], machine, steps).machine,
            pointer,
            run(seq![Instr::Loop(body)], machine, steps).steps_left + extra,
        ),
    decreases steps, 0nat, 1nat,
{
    let whole = seq![Instr::Loop(body)];
    let none = Seq::<Instr>::empty();
    assert(whole[0] == Instr::Loop(body));
    assert(whole.skip(1) =~= none);
    let result = run(whole, machine, steps);
    let budget = steps + extra;
    let cell = machine.memory[machine.pointer];

    let guard = guard_ops(pointer);
    let test = Instruction::EqualsZeroI32;
    let branch = Instruction::BranchIf(0);
    let repeated = seq![Code::Loop(repeated_ops(pointer, body))];
    let entry = guard + plain(test) + plain(branch);
    let block = entry + repeated;
    let code = ops_of(pointer, Instr::Loop(body));
    assert(code =~= seq![Code::Block(block)]);
    assert(code[0] == Code::Block(block));
    assert(code.skip(1) =~= Seq::<Code>::empty());

    let loaded = pushed(vm, cell as i32);
    let tested = pushed(
        vm,
        if cell == 0 {
            1i32
        } else {
            0i32
        },
    );
    lemma_guard_runs(pointer, vm, machine, budget);
    assert(popped(loaded, 1).stack =~= vm.stack);
    assert(step(test, loaded) == Step::Next(tested));
    lemma_runs_then(guard, test, vm, budget, loaded, tested);
    lemma_exec_then(guard + plain(test), branch, vm, budget);
    lemma_exec_plain(branch, tested, budget);
    assert(popped(tested, 1).stack =~= vm.stack);
    assert(popped(tested, 1) == vm);
    lemma_exec_concat(entry, repeated, vm, budget);
    let inner = exec(block, vm, budget);
    assert(host_of(vm, machine, pointer).locals =~= vm.locals);
    if cell == 0 {
        assert(inner == Outcome { vm, steps_left: budget, end: End::Branch(0) });
        assert(run(none, machine, steps).machine == machine);
        assert(exec(Seq::<Code>::empty(), vm, budget).vm == vm);
    } else {
        assert(exec(entry, vm, budget) == Outcome { vm, steps_left: budget, end: End::Done });
        lemma_repeat_mirrored(pointer, body, machine, steps, vm, extra + 1);
        assert(inner == exec(repeated, vm, budget));
        lemma_exec_steps(repeated, vm, budget);
        assert(exec(Seq::<Code>::empty(), inner.vm, inner.steps_left).vm == inner.vm);
    }
}

/// The run of the code of a program beside the run of the program: where
/// the program's run reaches its end, the code's run reaches its end on the
/// host that stands for the machine that the program's run left, and uses
/// no more steps.
pub proof fn lemma_program_mirrored(
    pointer: LocalHandle,
    program: Seq<Instr>,
    machine: Machine,
    steps: nat,
    vm: Vm,
    extra: nat,
)
    requires
        stands_for(vm, machine, pointer),
        in_range(machine.pointer),
        addressable(machine),
        run(program, machine, steps).error is None,
    ensures
        reaches(
            ops_of_all(pointer, program),
            vm,
            steps + extra,
            run(program, machine, steps).machine,
            pointer,
            run(program, machine, steps).steps_left + extra,
        ),
    decreases steps, 1nat, program.len(),
{
    let result = run(program, machine, steps);
    let budget = steps + extra;
    if program.len() == 0 {
        assert(ops_of_all(pointer, program) =~= Seq::<Code>::empty());
        assert(host_of(vm, machine, pointer).locals =~= vm.locals);
    } else {
        let first = seq![program[0]];
        let rest = program.skip(1);
        assert(first + rest =~= program);
        lemma_run_concat(first, rest, machine, steps);
        lemma_ops_first(pointer, program);
        let head = run(first, machine, steps);
        lemma_run_steps(first, machine, steps);
        lemma_run_in_range(first, machine, steps);
        lemma_run_tape_length(first, machine, steps);
        let code = ops_of(pointer, program[0]);
        lemma_exec_concat(code, ops_of_all(pointer, rest), vm, budget);
        match program[0] {
            Instr::Loop(body) => {
                lemma_loop_mirrored(pointer, body, machine, steps, vm, extra);
            },
            _ => {
                lemma_run_one(program[0], machine, steps);
                lemma_simple_runs(pointer, program[0], vm, machine, head.machine, budget);
            },
        }
        let reached = exec(code, vm, budget);
        let host = host_of(vm, head.machine, pointer);
        assert(reached.vm == host);
        lemma_program_mirrored(
            pointer,
            rest,
            head.machine,
            head.steps_left,
            host,
            (reached.steps_left - head.steps_left) as nat,
        );
        assert(host_of(host, result.machine, pointer).locals =~= host_of(
            vm,
            result.machine,
            pointer,
        ).locals);
    }
}

/// The local that holds the pointer in the main function.
pub open spec fn main_pointer() -> LocalHandle {
    LocalHandle(0)
}

/// The structured code of the main function of a program's module: the
/// program, then the return of the pointer.
pub open spec fn main_code(program: Seq<Instr>) -> Seq<Code> {
    ops_of_all(main_pointer(), program) + plain(Instruction::GetLocal(main_pointer())) + plain(
        Instruction::Return,
    )
}

/// The host at the start of the main function on a machine: one local,
/// which is zero, an empty stack, and the machine's memory and output.
pub open spec fn host_at_start(machine: Machine) -> Vm {
    Vm { locals: seq![0i32], stack: Seq::empty(), memory: machine.memory, output: machine.output }
}

/// The body of the main function in a program's module is the declaration
/// of the one local, the bytes of the function's structured code, and the
/// end of the function.
pub proof fn lemma_function_structure(program: Seq<Instr>)
    ensures
        function_body(program) == seq![1u8, 1, 0x7F] + bytes_of(main_code(program))
            + instruction_bytes(Instruction::End),
{
    let inside = ops_of_all(main_pointer(), program);
    let get = Instruction::GetLocal(main_pointer());
    lemma_code_structure_all(main_pointer(), program);
    lemma_bytes_then(inside, get);
    lemma_bytes_then(inside + plain(get), Instruction::Return);
    assert(function_body(program) =~= seq![1u8, 1, 0x7F] + bytes_of(main_code(program))
        + instruction_bytes(Instruction::End));
}

/// The module does what the program does. Where the run of a program on a
/// machine with its pointer on the first cell, and with a tape that a
/// memory can hold, reaches the program's end, the run of the main function
/// of the program's module on a host with that tape as its memory returns,
/// within as many steps, with the same memory and the same output, and
/// returns the pointer, cut down to 32 bits.
pub proof fn lemma_module_runs_like_program(program: Seq<Instr>, machine: Machine, steps: nat)
    requires
        machine.pointer == 0,
        addressable(machine),
        run(program, machine, steps).error is None,
    ensures
        ({
            let target = run(program, machine, steps);
            let outcome = exec(main_code(program), host_at_start(machine), steps);
            &&& outcome.end is Returned
            &&& outcome.vm.memory == target.machine.memory
            &&& outcome.vm.output == target.machine.output
            &&& outcome.vm.stack == seq![wrap_i32(target.machine.pointer)]
            &&& outcome.steps_left >= target.steps_left
        }),
{
    let pointer = main_pointer();
    let vm = host_at_start(machine);
    let target = run(program, machine, steps);
    let inside = ops_of_all(pointer, program);
    let get = Instruction::GetLocal(pointer);
    lemma_program_mirrored(pointer, program, machine, steps, vm, 0);
    let reached = exec(inside, vm, steps);
    let host = host_of(vm, target.machine, pointer);
    let loaded = pushed(host, wrap_i32(target.machine.pointer));
    lemma_exec_then(inside, get, vm, steps);
    lemma_exec_plain(get, host, reached.steps_left);
    lemma_exec_then(inside + plain(get), Instruction::Return, vm, steps);
    lemma_exec_plain(Instruction::Return, loaded, reached.steps_left);
    assert(loaded.stack =~= seq![wrap_i32(target.machine.pointer)]);
}

/// The module of the optimized program does what the program does: where
/// the run of a program reaches the program's end, the main function of the
/// module of the optimized program returns with the same memory and the
/// same output, and returns the pointer, cut down to 32 bits.
pub proof fn lemma_optimized_module_runs_like_program(
    program: Seq<Instr>,
    machine: Machine,
    steps: nat,
)
    requires
        machine.pointer == 0,
        addressable(machine),
        run(program, machine, steps).error is None,
    ensures
        optimized(program) matches Some(settled) ==> ({
            let target = run(program, machine, steps);
            let outcome = exec(main_code(settled), host_at_start(machine), steps);
            &&& outcome.end is Returned
            &&& outcome.vm.memory == target.machine.memory
            &&& outcome.vm.output == target.machine.output
            &&& outcome.vm.stack == seq![wrap_i32(target.machine.pointer)]
            &&& outcome.steps_left >= target.steps_left
        }),
{
    lemma_optimize_keeps_runs(program, machine, steps);
    match optimized(program) {
        Some(settled) => lemma_module_runs_like_program(settled, machine, steps),
        None => {},
    }
}

} // verus!
