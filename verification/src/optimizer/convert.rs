//! Conversion of the flat symbol sequence into the instruction tree, with the
//! check that loop brackets are balanced.

use crate::optimizer::OptimizerError;
use crate::types::{lemma_loop_view, Instr, MemoryOp, ParseToken, ProgramToken};
use vstd::prelude::*;

verus! {

/// How a symbol changes the depth of loop nesting.
pub open spec fn nesting_step(token: ParseToken) -> int {
    match token {
        ParseToken::LoopStart => 1,
        ParseToken::LoopEnd => -1,
        _ => 0,
    }
}

/// The depth of loop nesting after a sequence of symbols: loops opened less
/// loops closed.
pub open spec fn nesting(tokens: Seq<ParseToken>) -> int
    decreases tokens.len(),
{
    if tokens.len() == 0 {
        0
    } else {
        nesting(tokens.drop_last()) + nesting_step(tokens.last())
    }
}

/// Whether some loop is closed that was never opened.
pub open spec fn closes_unopened(tokens: Seq<ParseToken>) -> bool {
    exists|k: int| 0 <= k <= tokens.len() && nesting(#[trigger] tokens.take(k)) < 0
}

/// Whether every loop that is closed was opened, and every loop that was
/// opened is closed.
pub open spec fn balanced(tokens: Seq<ParseToken>) -> bool {
    !closes_unopened(tokens) && nesting(tokens) == 0
}

/// The instruction that a symbol other than a bracket stands for.
pub open spec fn primitive_of(token: ParseToken) -> Instr {
    match token {
        ParseToken::IncrAddr => Instr::ChangeAddr(1),
        ParseToken::DecrAddr => Instr::ChangeAddr(-1),
        ParseToken::IncrValue => Instr::Offset(0, MemoryOp::ChangeValue(1i8)),
        ParseToken::DecrValue => Instr::Offset(0, MemoryOp::ChangeValue(-1i8)),
        _ => Instr::Offset(0, MemoryOp::Print),
    }
}

/// The instructions that the symbols from `start` on stand for, up to the
/// bracket that closes the enclosing loop or to the end, and the position
/// where reading stopped.
pub open spec fn parse_block(tokens: Seq<ParseToken>, start: int) -> (Seq<Instr>, int)
    decreases tokens.len() - start,
{
    if start < 0 || start >= tokens.len() {
        (Seq::empty(), tokens.len() as int)
    } else {
        match tokens[start] {
            ParseToken::LoopEnd => (Seq::empty(), start),
            ParseToken::LoopStart => {
                let (body, close) = parse_block(tokens, start + 1);
                if start < close < tokens.len() {
                    let (more, stop) = parse_block(tokens, close + 1);
                    (seq![Instr::Loop(body)] + more, stop)
                } else {
                    (seq![Instr::Loop(body)], tokens.len() as int)
                }
            },
            token => {
                let (more, stop) = parse_block(tokens, start + 1);
                (seq![primitive_of(token)] + more, stop)
            },
        }
    }
}

/// The instruction tree that a balanced sequence of symbols stands for.
pub open spec fn tree_of(tokens: Seq<ParseToken>) -> Seq<Instr> {
    parse_block(tokens, 0).0
}

/// The symbols that an instruction of a tree built from symbols was built
/// from.
pub open spec fn spelling(instr: Instr) -> Seq<ParseToken>
    decreases instr,
{
    match instr {
        Instr::ChangeAddr(delta) => if delta >= 0 {
            seq![ParseToken::IncrAddr]
        } else {
            seq![ParseToken::DecrAddr]
        },
        Instr::Offset(_, MemoryOp::ChangeValue(value)) => if value >= 0 {
            seq![ParseToken::IncrValue]
        } else {
            seq![ParseToken::DecrValue]
        },
        Instr::Offset(_, _) => seq![ParseToken::Print],
        Instr::Loop(body) => seq![ParseToken::LoopStart] + spelling_of_all(body)
            + seq![ParseToken::LoopEnd],
    }
}

/// The symbols that a tree built from symbols was built from.
pub open spec fn spelling_of_all(instrs: Seq<Instr>) -> Seq<ParseToken>
    decreases instrs,
{
    if instrs.len() == 0 {
        Seq::empty()
    } else {
        spelling(instrs[0]) + spelling_of_all(instrs.skip(1))
    }
}

/// Whether an instruction is one that a single symbol stands for, or a loop
/// of such instructions.
pub open spec fn primitive(instr: Instr) -> bool
    decreases instr,
{
    match instr {
        Instr::ChangeAddr(delta) => delta == 1 || delta == -1,
        Instr::Offset(offset, MemoryOp::ChangeValue(value)) => offset == 0 && (value == 1
            || value == -1),
        Instr::Offset(offset, MemoryOp::Print) => offset == 0,
        Instr::Offset(_, MemoryOp::SetValue(_)) => false,
        Instr::Loop(body) => forall|i: int| 0 <= i < body.len() ==> primitive(#[trigger] body[i]),
    }
}

/// Whether every loop that is opened in the block from `start` on is
/// closed.
pub open spec fn block_closed(tokens: Seq<ParseToken>, start: int) -> bool
    decreases tokens.len() - start,
{
    if start < 0 || start >= tokens.len() {
        true
    } else {
        match tokens[start] {
            ParseToken::LoopEnd => true,
            ParseToken::LoopStart => {
                let close = parse_block(tokens, start + 1).1;
                block_closed(tokens, start + 1) && start < close < tokens.len() && block_closed(
                    tokens,
                    close + 1,
                )
            },
            _ => block_closed(tokens, start + 1),
        }
    }
}

/// A block in which every loop is closed spells the symbols it was read
/// from, is made of primitive instructions, and stops at the end or before
/// the bracket that closes the enclosing loop.
pub proof fn lemma_block_spelling(tokens: Seq<ParseToken>, start: int)
    requires
        0 <= start <= tokens.len(),
        block_closed(tokens, start),
    ensures
        ({
            let (items, stop) = parse_block(tokens, start);
            &&& start <= stop <= tokens.len()
            &&& stop < tokens.len() ==> tokens[stop] == ParseToken::LoopEnd
            &&& spelling_of_all(items) == tokens.subrange(start, stop)
            &&& forall|i: int| 0 <= i < items.len() ==> primitive(#[trigger] items[i])
        }),
    decreases tokens.len() - start,
{
    let (items, stop) = parse_block(tokens, start);
    if start >= tokens.len() {
        assert(tokens.subrange(start, stop) =~= Seq::<ParseToken>::empty());
    } else {
        match tokens[start] {
            ParseToken::LoopEnd => {
                assert(tokens.subrange(start, stop) =~= Seq::<ParseToken>::empty());
            },
            ParseToken::LoopStart => {
                let (body, close) = parse_block(tokens, start + 1);
                lemma_block_spelling(tokens, start + 1);
                let (more, end) = parse_block(tokens, close + 1);
                lemma_block_spelling(tokens, close + 1);
                let first = Instr::Loop(body);
                assert(items == seq![first] + more);
                assert(items[0] == first);
                assert(items.skip(1) =~= more);
                assert(spelling(first) =~= tokens.subrange(start, close + 1));
                assert(tokens.subrange(start, close + 1) + tokens.subrange(close + 1, stop)
                    =~= tokens.subrange(start, stop));
                assert forall|i: int| 0 <= i < items.len() implies primitive(
                    #[trigger] items[i],
                ) by {
                    if i > 0 {
                        assert(items[i] == more[i - 1]);
                    }
                }
            },
            token => {
                let (more, end) = parse_block(tokens, start + 1);
                lemma_block_spelling(tokens, start + 1);
                let first = primitive_of(token);
                assert(items == seq![first] + more);
                assert(items[0] == first);
                assert(items.skip(1) =~= more);
                assert(spelling(first) =~= tokens.subrange(start, start + 1));
                assert(tokens.subrange(start, start + 1) + tokens.subrange(start + 1, stop)
                    =~= tokens.subrange(start, stop));
                assert forall|i: int| 0 <= i < items.len() implies primitive(
                    #[trigger] items[i],
                ) by {
                    if i > 0 {
                        assert(items[i] == more[i - 1]);
                    }
                }
            },
        }
    }
}

/// How the nesting depth runs over a block that starts at depth `level`:
/// it never falls below `level`; it is `level` again where the block stops
/// with every loop closed; and it ends above `level` where a loop stays
/// open.
pub proof fn lemma_block_nesting(tokens: Seq<ParseToken>, start: int, level: int)
    requires
        0 <= start <= tokens.len(),
        nesting(tokens.take(start)) == level,
    ensures
        ({
            let stop = parse_block(tokens, start).1;
            &&& start <= stop <= tokens.len()
            &&& forall|k: int| start <= k <= stop ==> nesting(#[trigger] tokens.take(k)) >= level
            &&& block_closed(tokens, start) ==> nesting(tokens.take(stop)) == level && (stop
                < tokens.len() ==> tokens[stop] == ParseToken::LoopEnd)
            &&& !block_closed(tokens, start) ==> stop == tokens.len() && nesting(tokens) > level
        }),
    decreases tokens.len() - start,
{
    let stop = parse_block(tokens, start).1;
    assert(tokens.take(tokens.len() as int) =~= tokens);
    if start < tokens.len() {
        lemma_nesting_next(tokens, start);
        match tokens[start] {
            ParseToken::LoopEnd => {},
            ParseToken::LoopStart => {
                let close = parse_block(tokens, start + 1).1;
                lemma_block_nesting(tokens, start + 1, level + 1);
                if start < close < tokens.len() && block_closed(tokens, start + 1) {
                    lemma_nesting_next(tokens, close);
                    lemma_block_nesting(tokens, close + 1, level);
                }
            },
            _ => {
                lemma_block_nesting(tokens, start + 1, level);
            },
        }
    }
}

/// The tree of a balanced sequence of symbols spells that sequence, and is
/// made of primitive instructions: it is the tree that the symbols were
/// written for.
pub proof fn lemma_tree_spelling(tokens: Seq<ParseToken>)
    requires
        balanced(tokens),
    ensures
        spelling_of_all(tree_of(tokens)) == tokens,
        forall|i: int| 0 <= i < tree_of(tokens).len() ==> primitive(#[trigger] tree_of(tokens)[i]),
{
    assert(tokens.take(0) =~= Seq::<ParseToken>::empty());
    lemma_block_nesting(tokens, 0, 0);
    let stop = parse_block(tokens, 0).1;
    assert(tokens.take(tokens.len() as int) =~= tokens);
    if stop < tokens.len() {
        lemma_nesting_next(tokens, stop);
        assert(nesting(tokens.take(stop + 1)) < 0);
    }
    lemma_block_spelling(tokens, 0);
    assert(tokens.subrange(0, tokens.len() as int) =~= tokens);
}

/// One more symbol changes the nesting depth by its step.
pub proof fn lemma_nesting_next(tokens: Seq<ParseToken>, k: int)
    requires
        0 <= k < tokens.len(),
    ensures
        nesting(tokens.take(k + 1)) == nesting(tokens.take(k)) + nesting_step(tokens[k]),
{
    assert(tokens.take(k + 1).drop_last() =~= tokens.take(k));
}

/// Reads one block of symbols: the body of a loop, or the whole program.
fn convert_block(tokens: &[ParseToken], start: usize, Ghost(level): Ghost<int>) -> (block: Result<
    (Vec<ProgramToken>, usize),
    OptimizerError,
>)
    requires
        start <= tokens.len(),
        nesting(tokens@.take(start as int)) == level,
    ensures
        match block {
            Ok((items, stop)) => {
                &&& items.deep_view() == parse_block(tokens@, start as int).0
                &&& stop == parse_block(tokens@, start as int).1
                &&& start <= stop <= tokens.len()
                &&& stop < tokens.len() ==> tokens@[stop as int] == ParseToken::LoopEnd
                &&& nesting(tokens@.take(stop as int)) == level
                &&& forall|k: int|
                    start <= k <= stop ==> nesting(#[trigger] tokens@.take(k)) >= level
            },
            Err(error) => {
                &&& error == OptimizerError::UnclosedLoop
                &&& nesting(tokens@) > level
                &&& forall|k: int|
                    start <= k <= tokens.len() ==> nesting(#[trigger] tokens@.take(k)) >= level
            },
        },
    decreases tokens.len() - start,
{
    let mut items: Vec<ProgramToken> = Vec::new();
    let mut pos: usize = start;
    assert(items.deep_view() =~= Seq::<Instr>::empty());
    while pos < tokens.len()
        invariant
            start <= pos <= tokens.len(),
            parse_block(tokens@, start as int).0 == items.deep_view() + parse_block(
                tokens@,
                pos as int,
            ).0,
            parse_block(tokens@, start as int).1 == parse_block(tokens@, pos as int).1,
            nesting(tokens@.take(pos as int)) == level,
            forall|k: int| start <= k <= pos ==> nesting(#[trigger] tokens@.take(k)) >= level,
        decreases tokens.len() - pos,
    {
        let ghost before = items.deep_view();
        proof {
            lemma_nesting_next(tokens@, pos as int);
        }
        match tokens[pos] {
            ParseToken::LoopEnd => {
                assert(before + Seq::<Instr>::empty() =~= before);
                return Ok((items, pos));
            },
            ParseToken::LoopStart => {
                match convert_block(tokens, pos + 1, Ghost(level + 1)) {
                    Err(error) => {
                        return Err(error);
                    },
                    Ok((body, close)) => {
                        if close >= tokens.len() {
                            assert(tokens@.take(tokens.len() as int) =~= tokens@);
                            return Err(OptimizerError::UnclosedLoop);
                        }
                        proof {
                            lemma_loop_view(body);
                            lemma_nesting_next(tokens@, close as int);
                        }
                        let ghost item = Instr::Loop(body.deep_view());
                        let ghost more = parse_block(tokens@, close + 1).0;
                        items.push(ProgramToken::Loop(body));
                        proof {
                            assert(items.deep_view() =~= before.push(item));
                            assert(before + (seq![item] + more) =~= before.push(item) + more);
                        }
                        pos = close + 1;
                    },
                }
            },
            token => {
                let item = match token {
                    ParseToken::IncrAddr => ProgramToken::ChangeAddr(1),
                    ParseToken::DecrAddr => ProgramToken::ChangeAddr(-1),
                    ParseToken::IncrValue => ProgramToken::Offset(0, MemoryOp::ChangeValue(1)),
                    ParseToken::DecrValue => ProgramToken::Offset(0, MemoryOp::ChangeValue(-1)),
                    _ => ProgramToken::Offset(0, MemoryOp::Print),
                };
                let ghost more = parse_block(tokens@, pos + 1).0;
                let ghost model = item.deep_view();
                items.push(item);
                proof {
                    assert(model == primitive_of(token));
                    assert(items.deep_view() =~= before.push(model));
                    assert(before + (seq![model] + more) =~= before.push(model) + more);
                }
                pos += 1;
            },
        }
    }
    assert(items.deep_view() + Seq::<Instr>::empty() =~= items.deep_view());
    Ok((items, pos))
}

/// Builds the instruction tree of a symbol sequence. A sequence whose loop
/// brackets are not balanced is rejected: with `UnmatchedLoopEnd` where a loop
/// is closed that was never opened, else with `UnclosedLoop`.
pub fn convert_tokens(all_tokens: &[ParseToken]) -> (program: Result<
    Vec<ProgramToken>,
    OptimizerError,
>)
    ensures
        program is Ok <==> balanced(all_tokens@),
        program matches Ok(tree) ==> tree.deep_view() == tree_of(all_tokens@),
        program == Err::<Vec<ProgramToken>, OptimizerError>(OptimizerError::UnmatchedLoopEnd)
            <==> closes_unopened(all_tokens@),
        program == Err::<Vec<ProgramToken>, OptimizerError>(OptimizerError::UnclosedLoop) <==> (
        !closes_unopened(all_tokens@) && nesting(all_tokens@) > 0),
{
    assert(all_tokens@.take(0) =~= Seq::<ParseToken>::empty());
    match convert_block(all_tokens, 0, Ghost(0)) {
        Err(error) => Err(error),
        Ok((items, stop)) => {
            if stop == all_tokens.len() {
                assert(all_tokens@.take(stop as int) =~= all_tokens@);
                Ok(items)
            } else {
                proof {
                    lemma_nesting_next(all_tokens@, stop as int);
                }
                Err(OptimizerError::UnmatchedLoopEnd)
            }
        },
    }
}

} // verus!
