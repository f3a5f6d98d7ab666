//! The data every stage works on: source symbols, the instruction tree and the
//! machine state, each with the mathematical model its contracts speak of.

use vstd::prelude::*;

verus! {

/// One symbol of the source language, as the lexer hands it on.
#[derive(Debug, PartialEq, Eq, Clone, Copy, Structural)]
pub enum ParseToken {
    IncrAddr,
    DecrAddr,
    IncrValue,
    DecrValue,
    LoopStart,
    LoopEnd,
    Print,
}

/// What an instruction does to the one cell it addresses.
#[derive(Debug, PartialEq, Eq, Clone, Copy, Structural)]
pub enum MemoryOp {
    /// Adds to the cell, wrapping modulo 256.
    ChangeValue(i8),
    /// Overwrites the cell.
    SetValue(i8),
    /// Emits the cell.
    Print,
}

/// A node of the instruction tree.
#[derive(Debug, PartialEq, Eq)]
pub enum ProgramToken {
    /// Moves the pointer.
    ChangeAddr(isize),
    /// Applies an operation to the cell at `pointer + offset`.
    Offset(isize, MemoryOp),
    /// Repeats the body while the cell under the pointer is not zero.
    Loop(Vec<ProgramToken>),
}

impl ProgramToken {
    /// Adds `value` to the cell under the pointer.
    pub fn change_value(value: i8) -> (token: ProgramToken)
        ensures
            token == ProgramToken::Offset(0, MemoryOp::ChangeValue(value)),
    {
        ProgramToken::Offset(0, MemoryOp::ChangeValue(value))
    }

    /// Adds `value` to the cell at `pointer + offset`.
    pub fn offs_change_value(offset: isize, value: i8) -> (token: ProgramToken)
        ensures
            token == ProgramToken::Offset(offset, MemoryOp::ChangeValue(value)),
    {
        ProgramToken::Offset(offset, MemoryOp::ChangeValue(value))
    }

    /// Overwrites the cell under the pointer with `value`.
    pub fn set_value(value: i8) -> (token: ProgramToken)
        ensures
            token == ProgramToken::Offset(0, MemoryOp::SetValue(value)),
    {
        ProgramToken::Offset(0, MemoryOp::SetValue(value))
    }

    /// Overwrites the cell at `pointer + offset` with `value`.
    pub fn offs_set_value(offset: isize, value: i8) -> (token: ProgramToken)
        ensures
            token == ProgramToken::Offset(offset, MemoryOp::SetValue(value)),
    {
        ProgramToken::Offset(offset, MemoryOp::SetValue(value))
    }
}

/// The number of cells of a fresh tape.
pub const TAPE_LENGTH: usize = 65536;

/// The state of a run: the tape and the pointer into it.
pub struct State {
    pub pointer: usize,
    pub memory: Vec<u8>,
}

impl State {
    /// The state before a run: a tape of `TAPE_LENGTH` cells, all zero, and
    /// the pointer on its first cell.
    pub fn new() -> (state: State)
        ensures
            state.pointer == 0,
            state.memory@ == Seq::new(TAPE_LENGTH as nat, |i: int| 0u8),
    {
        let memory = vec![0u8; TAPE_LENGTH];
        assert(memory@ =~= Seq::new(TAPE_LENGTH as nat, |i: int| 0u8));
        State { pointer: 0, memory }
    }
}

/// The mathematical model of a [`ProgramToken`]: the same tree over unbounded
/// integers and sequences.
pub ghost enum Instr {
    ChangeAddr(int),
    Offset(int, MemoryOp),
    Loop(Seq<Instr>),
}

impl DeepView for ProgramToken {
    type V = Instr;

    open spec fn deep_view(&self) -> Instr
        decreases self,
    {
        match self {
            ProgramToken::ChangeAddr(d) => Instr::ChangeAddr(*d as int),
            ProgramToken::Offset(o, op) => Instr::Offset(*o as int, *op),
            ProgramToken::Loop(body) => Instr::Loop(instrs_of(body@)),
        }
    }
}

/// The models of a sequence of tokens, in order.
pub open spec fn instrs_of(tokens: Seq<ProgramToken>) -> Seq<Instr>
    decreases tokens,
{
    if tokens.len() == 0 {
        Seq::empty()
    } else {
        instrs_of(tokens.drop_last()).push(tokens.last().deep_view())
    }
}

/// `instrs_of` maps each token to its model, position by position.
pub proof fn lemma_instrs_of(tokens: Seq<ProgramToken>)
    ensures
        instrs_of(tokens).len() == tokens.len(),
        forall|i: int| 0 <= i < tokens.len() ==> instrs_of(tokens)[i] == tokens[i].deep_view(),
    decreases tokens.len(),
{
    if tokens.len() > 0 {
        lemma_instrs_of(tokens.drop_last());
        assert(instrs_of(tokens) == instrs_of(tokens.drop_last()).push(tokens.last().deep_view()));
    } else {
        assert(instrs_of(tokens) == Seq::<Instr>::empty());
    }
}

/// The model of a loop is the loop over the models of its body's tokens.
pub broadcast proof fn lemma_loop_view(body: Vec<ProgramToken>)
    ensures
        #[trigger] ProgramToken::Loop(body).deep_view() == Instr::Loop(body.deep_view()),
{
    lemma_instrs_of(body@);
    assert(instrs_of(body@) =~= body.deep_view());
}

/// The tokens of a vector, as a slice with the same model.
pub fn tokens_of(tokens: &Vec<ProgramToken>) -> (slice: &[ProgramToken])
    ensures
        slice@ == tokens@,
        slice.deep_view() == tokens.deep_view(),
{
    let slice = tokens.as_slice();
    assert(slice.deep_view() =~= tokens.deep_view());
    slice
}

/// Copies one token, subtree included.
pub fn clone_token(token: &ProgramToken) -> (copy: ProgramToken)
    ensures
        copy.deep_view() == token.deep_view(),
    decreases token,
{
    broadcast use lemma_loop_view;

    match token {
        ProgramToken::ChangeAddr(d) => ProgramToken::ChangeAddr(*d),
        ProgramToken::Offset(o, op) => ProgramToken::Offset(*o, *op),
        ProgramToken::Loop(body) => ProgramToken::Loop(clone_tokens(tokens_of(body))),
    }
}

/// Copies a sequence of tokens, subtrees included.
pub fn clone_tokens(tokens: &[ProgramToken]) -> (copy: Vec<ProgramToken>)
    ensures
        copy.deep_view() == tokens.deep_view(),
    decreases tokens@,
{
    let mut copy: Vec<ProgramToken> = Vec::new();
    let mut i: usize = 0;
    while i < tokens.len()
        invariant
            i <= tokens.len(),
            copy.len() == i,
            forall|k: int| 0 <= k < i ==> copy@[k].deep_view() == tokens@[k].deep_view(),
        decreases tokens.len() - i,
    {
        let item = clone_token(&tokens[i]);
        copy.push(item);
        i += 1;
    }
    assert(copy.deep_view() =~= tokens.deep_view());
    copy
}

/// Whether two tokens are the same tree.
pub fn same_token(a: &ProgramToken, b: &ProgramToken) -> (same: bool)
    ensures
        same == (a.deep_view() == b.deep_view()),
    decreases a,
{
    match (a, b) {
        (ProgramToken::ChangeAddr(x), ProgramToken::ChangeAddr(y)) => *x == *y,
        (ProgramToken::Offset(o1, op1), ProgramToken::Offset(o2, op2)) => *o1 == *o2 && *op1
            == *op2,
        (ProgramToken::Loop(body1), ProgramToken::Loop(body2)) => {
            proof {
                lemma_loop_view(*body1);
                lemma_loop_view(*body2);
            }
            same_tokens(tokens_of(body1), tokens_of(body2))
        },
        _ => false,
    }
}

/// Whether two token sequences are the same trees in the same order.
pub fn same_tokens(a: &[ProgramToken], b: &[ProgramToken]) -> (same: bool)
    ensures
        same == (a.deep_view() == b.deep_view()),
    decreases a@,
{
    if a.len() != b.len() {
        assert(a.deep_view().len() != b.deep_view().len());
        return false;
    }
    let mut i: usize = 0;
    while i < a.len()
        invariant
            i <= a.len(),
            a.len() == b.len(),
            forall|k: int| 0 <= k < i ==> a@[k].deep_view() == b@[k].deep_view(),
        decreases a.len() - i,
    {
        if !same_token(&a[i], &b[i]) {
            assert(a.deep_view()[i as int] != b.deep_view()[i as int]);
            return false;
        }
        i += 1;
    }
    assert(a.deep_view() =~= b.deep_view());
    true
}

impl Clone for ProgramToken {
    fn clone(&self) -> (copy: Self)
        ensures
            copy.deep_view() == self.deep_view(),
    {
        clone_token(self)
    }
}

} // verus!
