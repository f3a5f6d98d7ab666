//! What the emitted code means: the run of structured code on a host with
//! a stack, locals, one memory and a print function.

use crate::backend::wasm::code_stream::{instruction_bytes, wrap_i32, Instruction};
use crate::semantics::wrap_u8;
use vstd::prelude::*;

verus! {

/// Code with its blocks and loops as trees.
pub ghost enum Code {
    /// One operation that is neither the start nor the end of a block.
    Plain(Instruction),
    /// A block: a branch to it goes on behind it.
    Block(Seq<Code>),
    /// A loop: a branch to it starts it again.
    Loop(Seq<Code>),
}

/// A host in the middle of a run: the locals of the function, the stack,
/// the memory, and what has been printed.
pub ghost struct Vm {
    pub locals: Seq<i32>,
    pub stack: Seq<i32>,
    pub memory: Seq<u8>,
    pub output: Seq<u8>,
}

/// What one operation leaves: the host to go on with, a branch out of
/// `depth` enclosing blocks, the return from the function, or a trap.
pub ghost enum Step {
    Next(Vm),
    Branch(nat, Vm),
    Return(Vm),
    Trap,
}

/// How the run of a piece of code ended.
pub ghost enum End {
    /// At the end of the code.
    Done,
    /// With a branch that leaves `depth` more enclosing blocks.
    Branch(nat),
    /// With the return from the function.
    Returned,
    /// With a trap.
    Trapped,
    /// With no step left for a branch back to a loop's start.
    OutOfSteps,
}

/// The run of a piece of code: the host it left, the steps it did not use,
/// and how it ended.
pub ghost struct Outcome {
    pub vm: Vm,
    pub steps_left: nat,
    pub end: End,
}

/// A number of 32 bits read as unsigned.
pub open spec fn unsigned(value: i32) -> int {
    if value < 0 {
        value + 0x1_0000_0000
    } else {
        value as int
    }
}

/// A byte read as a signed number.
pub open spec fn signed_byte(byte: u8) -> i32 {
    if byte < 128 {
        byte as i32
    } else {
        (byte - 256) as i32
    }
}

/// The host with a value put on its stack.
pub open spec fn pushed(vm: Vm, value: i32) -> Vm {
    Vm { stack: vm.stack.push(value), ..vm }
}

/// The host with the top `count` values taken off its stack.
pub open spec fn popped(vm: Vm, count: int) -> Vm {
    Vm { stack: vm.stack.take(vm.stack.len() - count), ..vm }
}

/// The value that is `depth` below the top of the stack.
pub open spec fn top(vm: Vm, depth: int) -> i32 {
    vm.stack[vm.stack.len() - 1 - depth]
}

/// What one operation does. A local is read and written by its slot. A load
/// and a store reach the memory at the address on the stack, read as
/// unsigned, plus the operation's offset, and trap outside the memory; a
/// store keeps the low eight bits of the value. An addition wraps. The call
/// of function 0 prints the low eight bits of the value on the stack; the
/// call of any other function is outside what is described here, and traps,
/// as does an operation that finds too few values on the stack and the start
/// or end of a block met as an operation.
pub open spec fn step(op: Instruction, vm: Vm) -> Step {
    match op {
        Instruction::GetLocal(handle) => if handle.0 < vm.locals.len() {
            Step::Next(pushed(vm, vm.locals[handle.0 as int]))
        } else {
            Step::Trap
        },
        Instruction::SetLocal(handle) => if handle.0 < vm.locals.len() && vm.stack.len() >= 1 {
            Step::Next(
                Vm { locals: vm.locals.update(handle.0 as int, top(vm, 0)), ..popped(vm, 1) },
            )
        } else {
            Step::Trap
        },
        Instruction::PushI32(value) => Step::Next(pushed(vm, value)),
        Instruction::Load8Signed(offset) => if vm.stack.len() >= 1 && unsigned(top(vm, 0))
            + offset < vm.memory.len() {
            Step::Next(
                pushed(popped(vm, 1), signed_byte(vm.memory[unsigned(top(vm, 0)) + offset])),
            )
        } else {
            Step::Trap
        },
        Instruction::Load8Unsigned(offset) => if vm.stack.len() >= 1 && unsigned(top(vm, 0))
            + offset < vm.memory.len() {
            Step::Next(
                pushed(popped(vm, 1), vm.memory[unsigned(top(vm, 0)) + offset] as i32),
            )
        } else {
            Step::Trap
        },
        Instruction::Store8(offset) => if vm.stack.len() >= 2 && unsigned(top(vm, 1)) + offset
            < vm.memory.len() {
            Step::Next(
                Vm {
                    memory: vm.memory.update(
                        unsigned(top(vm, 1)) + offset,
                        wrap_u8(top(vm, 0) as int),
                    ),
                    ..popped(vm, 2)
                },
            )
        } else {
            Step::Trap
        },
        Instruction::AddI32 => if vm.stack.len() >= 2 {
            Step::Next(pushed(popped(vm, 2), wrap_i32(top(vm, 1) + top(vm, 0))))
        } else {
            Step::Trap
        },
        Instruction::Call(function) => if function == 0 && vm.stack.len() >= 1 {
            Step::Next(
                Vm { output: vm.output.push(wrap_u8(top(vm, 0) as int)), ..popped(vm, 1) },
            )
        } else {
            Step::Trap
        },
        Instruction::BranchIf(depth) => if vm.stack.len() >= 1 {
            if top(vm, 0) != 0 {
                Step::Branch(depth as nat, popped(vm, 1))
            } else {
                Step::Next(popped(vm, 1))
            }
        } else {
            Step::Trap
        },
        Instruction::EqualsZeroI32 => if vm.stack.len() >= 1 {
            Step::Next(
                pushed(
                    popped(vm, 1),
                    if top(vm, 0) == 0 {
                        1i32
                    } else {
                        0i32
                    },
                ),
            )
        } else {
            Step::Trap
        },
        Instruction::Drop => if vm.stack.len() >= 1 {
            Step::Next(popped(vm, 1))
        } else {
            Step::Trap
        },
        Instruction::Return => Step::Return(vm),
        Instruction::Loop => Step::Trap,
        Instruction::Block => Step::Trap,
        Instruction::End => Step::Trap,
    }
}

/// The steps that are left for what follows a piece of code: those that the
/// piece left, and never more than there were.
pub open spec fn left_after(inner: Outcome, steps: nat) -> nat {
    if inner.steps_left < steps {
        inner.steps_left
    } else {
        steps
    }
}

/// The run of code on a host with a number of steps allowed. Operations run
/// in order. A branch of depth zero out of a block goes on behind the block;
/// out of a loop it starts the loop again, which takes one step; a branch of
/// a greater depth leaves the block or loop with a depth one less. The end
/// of a block's or loop's code goes on behind it.
pub open spec fn exec(code: Seq<Code>, vm: Vm, steps: nat) -> Outcome
    decreases steps, code,
{
    if code.len() == 0 {
        Outcome { vm, steps_left: steps, end: End::Done }
    } else {
        match code[0] {
            Code::Plain(op) => match step(op, vm) {
                Step::Next(next) => exec(code.skip(1), next, steps),
                Step::Branch(depth, next) => Outcome {
                    vm: next,
                    steps_left: steps,
                    end: End::Branch(depth),
                },
                Step::Return(next) => Outcome { vm: next, steps_left: steps, end: End::Returned },
                Step::Trap => Outcome { vm, steps_left: steps, end: End::Trapped },
            },
            Code::Block(body) => {
                let inner = exec(body, vm, steps);
                match inner.end {
                    End::Done => exec(code.skip(1), inner.vm, left_after(inner, steps)),
                    End::Branch(depth) => if depth == 0 {
                        exec(code.skip(1), inner.vm, left_after(inner, steps))
                    } else {
                        Outcome { end: End::Branch((depth - 1) as nat), ..inner }
                    },
                    _ => inner,
                }
            },
            Code::Loop(body) => {
                let inner = exec(body, vm, steps);
                match inner.end {
                    End::Done => exec(code.skip(1), inner.vm, left_after(inner, steps)),
                    End::Branch(depth) => if depth == 0 {
                        if left_after(inner, steps) == 0 {
                            Outcome { end: End::OutOfSteps, ..inner }
                        } else {
                            exec(code, inner.vm, (left_after(inner, steps) - 1) as nat)
                        }
                    } else {
                        Outcome { end: End::Branch((depth - 1) as nat), ..inner }
                    },
                    _ => inner,
                }
            },
        }
    }
}

/// The bytes of structured code: the operations' bytes in order, a block
/// and a loop between their start and their end.
pub open spec fn bytes_of(code: Seq<Code>) -> Seq<u8>
    decreases code,
{
    if code.len() == 0 {
        Seq::empty()
    } else {
        bytes_of(code.drop_last()) + (match code.last() {
            Code::Plain(op) => instruction_bytes(op),
            Code::Block(body) => instruction_bytes(Instruction::Block) + bytes_of(body)
                + instruction_bytes(Instruction::End),
            Code::Loop(body) => instruction_bytes(Instruction::Loop) + bytes_of(body)
                + instruction_bytes(Instruction::End),
        })
    }
}

/// The code of one operation.
pub open spec fn plain(op: Instruction) -> Seq<Code> {
    seq![Code::Plain(op)]
}

/// The bytes of one piece of code after another are the bytes of the first
/// and then those of the second.
pub proof fn lemma_bytes_concat(first: Seq<Code>, second: Seq<Code>)
    ensures
        bytes_of(first + second) == bytes_of(first) + bytes_of(second),
    decreases second.len(),
{
    if second.len() == 0 {
        assert(first + second =~= first);
        assert(bytes_of(first) + bytes_of(second) =~= bytes_of(first));
    } else {
        let both = first + second;
        assert(both.drop_last() =~= first + second.drop_last());
        assert(both.last() == second.last());
        lemma_bytes_concat(first, second.drop_last());
        assert(bytes_of(both) =~= bytes_of(first) + bytes_of(second));
    }
}

/// The bytes of a single piece of code.
pub proof fn lemma_bytes_one(code: Code)
    ensures
        bytes_of(seq![code]) == (match code {
            Code::Plain(op) => instruction_bytes(op),
            Code::Block(body) => instruction_bytes(Instruction::Block) + bytes_of(body)
                + instruction_bytes(Instruction::End),
            Code::Loop(body) => instruction_bytes(Instruction::Loop) + bytes_of(body)
                + instruction_bytes(Instruction::End),
        }),
{
    let none = Seq::<Code>::empty();
    assert(seq![code].drop_last() =~= none);
    assert(bytes_of(none) =~= Seq::<u8>::empty());
    assert(bytes_of(seq![code]) =~= Seq::<u8>::empty() + (match code {
        Code::Plain(op) => instruction_bytes(op),
        Code::Block(body) => instruction_bytes(Instruction::Block) + bytes_of(body)
            + instruction_bytes(Instruction::End),
        Code::Loop(body) => instruction_bytes(Instruction::Loop) + bytes_of(body)
            + instruction_bytes(Instruction::End),
    }));
}

/// A run never ends with more steps than it was allowed.
pub proof fn lemma_exec_steps(code: Seq<Code>, vm: Vm, steps: nat)
    ensures
        exec(code, vm, steps).steps_left <= steps,
    decreases steps, code,
{
    if code.len() > 0 {
        match code[0] {
            Code::Plain(op) => {
                match step(op, vm) {
                    Step::Next(next) => lemma_exec_steps(code.skip(1), next, steps),
                    _ => {},
                }
            },
            Code::Block(body) => {
                let inner = exec(body, vm, steps);
                lemma_exec_steps(body, vm, steps);
                match inner.end {
                    End::Done => lemma_exec_steps(code.skip(1), inner.vm, left_after(inner, steps)),
                    End::Branch(depth) => {
                        if depth == 0 {
                            lemma_exec_steps(code.skip(1), inner.vm, left_after(inner, steps));
                        }
                    },
                    _ => {},
                }
            },
            Code::Loop(body) => {
                let inner = exec(body, vm, steps);
                lemma_exec_steps(body, vm, steps);
                match inner.end {
                    End::Done => lemma_exec_steps(code.skip(1), inner.vm, left_after(inner, steps)),
                    End::Branch(depth) => {
                        if depth == 0 && left_after(inner, steps) > 0 {
                            lemma_exec_steps(
                                code,
                                inner.vm,
                                (left_after(inner, steps) - 1) as nat,
                            );
                        }
                    },
                    _ => {},
                }
            },
        }
    }
}

/// The run of one piece of code after another is the run of the first and
/// then, where that reaches its end, the run of the second on what it
/// left.
pub proof fn lemma_exec_concat(first: Seq<Code>, second: Seq<Code>, vm: Vm, steps: nat)
    ensures
        exec(first + second, vm, steps) == ({
            let head = exec(first, vm, steps);
            if head.end is Done {
                exec(second, head.vm, head.steps_left)
            } else {
                head
            }
        }),
    decreases steps, first.len(),
{
    let both = first + second;
    if first.len() == 0 {
        assert(both =~= second);
    } else {
        assert(both[0] == first[0]);
        assert(both.skip(1) =~= first.skip(1) + second);
        match first[0] {
            Code::Plain(op) => {
                match step(op, vm) {
                    Step::Next(next) => lemma_exec_concat(first.skip(1), second, next, steps),
                    _ => {},
                }
            },
            Code::Block(body) => {
                let inner = exec(body, vm, steps);
                lemma_exec_steps(body, vm, steps);
                match inner.end {
                    End::Done => lemma_exec_concat(
                        first.skip(1),
                        second,
                        inner.vm,
                        left_after(inner, steps),
                    ),
                    End::Branch(depth) => {
                        if depth == 0 {
                            lemma_exec_concat(
                                first.skip(1),
                                second,
                                inner.vm,
                                left_after(inner, steps),
                            );
                        }
                    },
                    _ => {},
                }
            },
            Code::Loop(body) => {
                let inner = exec(body, vm, steps);
                lemma_exec_steps(body, vm, steps);
                match inner.end {
                    End::Done => lemma_exec_concat(
                        first.skip(1),
                        second,
                        inner.vm,
                        left_after(inner, steps),
                    ),
                    End::Branch(depth) => {
                        if depth == 0 && left_after(inner, steps) > 0 {
                            lemma_exec_concat(
                                first,
                                second,
                                inner.vm,
                                (left_after(inner, steps) - 1) as nat,
                            );
                        }
                    },
                    _ => {},
                }
            },
        }
    }
}

/// The run of a single operation.
pub proof fn lemma_exec_plain(op: Instruction, vm: Vm, steps: nat)
    ensures
        exec(plain(op), vm, steps) == (match step(op, vm) {
            Step::Next(next) => Outcome { vm: next, steps_left: steps, end: End::Done },
            Step::Branch(depth, next) => Outcome {
                vm: next,
                steps_left: steps,
                end: End::Branch(depth),
            },
            Step::Return(next) => Outcome { vm: next, steps_left: steps, end: End::Returned },
            Step::Trap => Outcome { vm, steps_left: steps, end: End::Trapped },
        }),
{
    let none = Seq::<Code>::empty();
    assert(plain(op).skip(1) =~= none);
    assert(plain(op)[0] == Code::Plain(op));
    match step(op, vm) {
        Step::Next(next) => {
            assert(exec(none, next, steps) == Outcome {
                vm: next,
                steps_left: steps,
                end: End::Done,
            });
        },
        _ => {},
    }
}

/// The run of code with one more operation behind it: where the code
/// reaches its end, what the operation makes of the host it left.
pub proof fn lemma_exec_then(before: Seq<Code>, op: Instruction, vm: Vm, steps: nat)
    ensures
        exec(before + plain(op), vm, steps) == ({
            let head = exec(before, vm, steps);
            if head.end is Done {
                exec(plain(op), head.vm, head.steps_left)
            } else {
                head
            }
        }),
{
    lemma_exec_concat(before, plain(op), vm, steps);
}

} // verus!
