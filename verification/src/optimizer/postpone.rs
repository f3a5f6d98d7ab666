//! Move postponement: pointer moves are held back and folded into the address
//! offsets of the operations that follow them, up to the next loop.

use crate::optimizer::merge::{fits_isize, instr_count, lemma_count_concat, lemma_count_one};
use crate::refinement::{
    lemma_fuse_moves_refines, lemma_move_past_refines, lemma_no_move_refines,
    lemma_refines_chain, lemma_refines_concat, lemma_refines_itself, lemma_refines_loop, refines,
};
use crate::types::{lemma_loop_view, tokens_of, Instr, ProgramToken};
use vstd::prelude::*;

verus! {

/// The explicit move that settles a held-back pointer delta, if there is one.
pub open spec fn flush(offset: int) -> Seq<Instr> {
    if offset != 0 {
        seq![Instr::ChangeAddr(offset)]
    } else {
        Seq::empty()
    }
}

/// The pass, from a state of its scan: `rest` is what has not been looked at,
/// `offset` the pointer delta held back so far. A move joins the delta; an
/// operation takes the delta into its offset; a loop, and the end, settle it.
/// Where a sum cannot be held by a token, the delta is settled first.
pub open spec fn postpone_from(rest: Seq<Instr>, offset: int) -> Seq<Instr>
    decreases rest,
{
    if rest.len() == 0 {
        flush(offset)
    } else {
        match rest[0] {
            Instr::ChangeAddr(d) => if fits_isize(offset + d) {
                postpone_from(rest.skip(1), offset + d)
            } else {
                flush(offset) + postpone_from(rest.skip(1), d)
            },
            Instr::Offset(o, op) => if fits_isize(o + offset) {
                seq![Instr::Offset(o + offset, op)] + postpone_from(rest.skip(1), offset)
            } else {
                flush(offset) + seq![Instr::Offset(o, op)] + postpone_from(rest.skip(1), 0)
            },
            Instr::Loop(body) => flush(offset) + seq![Instr::Loop(postpone_from(body, 0))]
                + postpone_from(rest.skip(1), 0),
        }
    }
}

/// The postponed form of a whole sequence.
pub open spec fn postpone(instrs: Seq<Instr>) -> Seq<Instr> {
    postpone_from(instrs, 0)
}

/// What the scan makes of a state holds no more instructions than the rest
/// does, and the move by the delta held back.
pub proof fn lemma_postpone_from_count(rest: Seq<Instr>, offset: int)
    ensures
        instr_count(postpone_from(rest, offset)) <= instr_count(rest) + (if offset != 0 {
            1nat
        } else {
            0nat
        }),
    decreases rest,
{
    let settled = flush(offset);
    if offset != 0 {
        lemma_count_one(Instr::ChangeAddr(offset));
    } else {
        assert(instr_count(settled) == 0);
    }
    if rest.len() > 0 {
        let tail = rest.skip(1);
        match rest[0] {
            Instr::ChangeAddr(delta) => {
                if fits_isize(offset + delta) {
                    lemma_postpone_from_count(tail, offset + delta);
                } else {
                    lemma_postpone_from_count(tail, delta);
                    lemma_count_concat(settled, postpone_from(tail, delta));
                }
            },
            Instr::Offset(at, op) => {
                if fits_isize(at + offset) {
                    let shifted = Instr::Offset(at + offset, op);
                    lemma_postpone_from_count(tail, offset);
                    lemma_count_concat(seq![shifted], postpone_from(tail, offset));
                    lemma_count_one(shifted);
                } else {
                    lemma_postpone_from_count(tail, 0);
                    lemma_count_concat(settled, seq![rest[0]]);
                    lemma_count_concat(settled + seq![rest[0]], postpone_from(tail, 0));
                    lemma_count_one(rest[0]);
                }
            },
            Instr::Loop(body) => {
                let inner = Instr::Loop(postpone_from(body, 0));
                lemma_postpone_from_count(body, 0);
                lemma_postpone_from_count(tail, 0);
                lemma_count_concat(settled, seq![inner]);
                lemma_count_concat(settled + seq![inner], postpone_from(tail, 0));
                lemma_count_one(inner);
            },
        }
    }
}

/// The postponed form of a program holds no more instructions than the
/// program.
pub proof fn lemma_postpone_count(program: Seq<Instr>)
    ensures
        instr_count(postpone(program)) <= instr_count(program),
{
    lemma_postpone_from_count(program, 0);
}

/// The move that settles a delta may stand for the move by that delta.
proof fn lemma_flush_refines(offset: int)
    ensures
        refines(seq![Instr::ChangeAddr(offset)], flush(offset)),
{
    if offset == 0 {
        lemma_no_move_refines();
    } else {
        lemma_refines_itself(flush(offset));
    }
}

/// What the scan makes of a state may stand for the move by the delta held
/// back, followed by the rest.
pub proof fn lemma_postpone_from_refines(rest: Seq<Instr>, offset: int)
    ensures
        refines(seq![Instr::ChangeAddr(offset)] + rest, postpone_from(rest, offset)),
    decreases rest,
{
    let held = seq![Instr::ChangeAddr(offset)];
    let stay = seq![Instr::ChangeAddr(0)];
    let before = held + rest;
    let result = postpone_from(rest, offset);
    lemma_flush_refines(offset);
    lemma_no_move_refines();
    if rest.len() == 0 {
        assert(before =~= held);
    } else {
        let tail = rest.skip(1);
        let head = seq![rest[0]];
        assert(head + tail =~= rest);
        match rest[0] {
            Instr::ChangeAddr(delta) => {
                if fits_isize(offset + delta) {
                    let joined = seq![Instr::ChangeAddr(offset + delta)];
                    let pair = seq![Instr::ChangeAddr(offset), Instr::ChangeAddr(delta)];
                    lemma_fuse_moves_refines(offset, delta);
                    lemma_refines_itself(tail);
                    lemma_refines_concat(pair, joined, tail, tail);
                    assert(pair + tail =~= before);
                    lemma_postpone_from_refines(tail, offset + delta);
                    lemma_refines_chain(before, joined + tail, result);
                } else {
                    lemma_postpone_from_refines(tail, delta);
                    lemma_refines_concat(held, flush(offset), head + tail, postpone_from(tail, delta));
                }
            },
            Instr::Offset(at, op) => {
                if fits_isize(at + offset) {
                    let pair = seq![Instr::ChangeAddr(offset), Instr::Offset(at, op)];
                    let swapped = seq![Instr::Offset(at + offset, op), Instr::ChangeAddr(offset)];
                    let shifted = seq![Instr::Offset(at + offset, op)];
                    lemma_move_past_refines(offset, at, op);
                    lemma_refines_itself(tail);
                    lemma_refines_concat(pair, swapped, tail, tail);
                    assert(pair + tail =~= before);
                    assert(swapped + tail =~= shifted + (held + tail));
                    lemma_postpone_from_refines(tail, offset);
                    lemma_refines_itself(shifted);
                    lemma_refines_concat(shifted, shifted, held + tail, postpone_from(tail, offset));
                    lemma_refines_chain(before, swapped + tail, result);
                } else {
                    lemma_postpone_from_refines(tail, 0);
                    lemma_refines_itself(tail);
                    lemma_refines_concat(Seq::<Instr>::empty(), stay, tail, tail);
                    assert(Seq::<Instr>::empty() + tail =~= tail);
                    lemma_refines_chain(tail, stay + tail, postpone_from(tail, 0));
                    lemma_refines_itself(head);
                    lemma_refines_concat(head, head, tail, postpone_from(tail, 0));
                    lemma_refines_concat(
                        held,
                        flush(offset),
                        head + tail,
                        head + postpone_from(tail, 0),
                    );
                    assert(flush(offset) + (head + postpone_from(tail, 0)) =~= result);
                }
            },
            Instr::Loop(body) => {
                let inner = postpone_from(body, 0);
                lemma_postpone_from_refines(body, 0);
                lemma_refines_itself(body);
                lemma_refines_concat(Seq::<Instr>::empty(), stay, body, body);
                assert(Seq::<Instr>::empty() + body =~= body);
                lemma_refines_chain(body, stay + body, inner);
                lemma_refines_loop(body, inner);
                lemma_postpone_from_refines(tail, 0);
                lemma_refines_itself(tail);
                lemma_refines_concat(Seq::<Instr>::empty(), stay, tail, tail);
                assert(Seq::<Instr>::empty() + tail =~= tail);
                lemma_refines_chain(tail, stay + tail, postpone_from(tail, 0));
                lemma_refines_concat(head, seq![Instr::Loop(inner)], tail, postpone_from(tail, 0));
                lemma_refines_concat(
                    held,
                    flush(offset),
                    head + tail,
                    seq![Instr::Loop(inner)] + postpone_from(tail, 0),
                );
                assert(flush(offset) + (seq![Instr::Loop(inner)] + postpone_from(tail, 0))
                    =~= result);
            },
        }
    }
}

/// The postponed form of a program may stand for the program: whatever a
/// run of the program does that reaches its end, the run of the postponed
/// form does.
pub proof fn lemma_postpone_refines(program: Seq<Instr>)
    ensures
        refines(program, postpone(program)),
{
    let stay = seq![Instr::ChangeAddr(0)];
    lemma_no_move_refines();
    lemma_refines_itself(program);
    lemma_refines_concat(Seq::<Instr>::empty(), stay, program, program);
    assert(Seq::<Instr>::empty() + program =~= program);
    lemma_postpone_from_refines(program, 0);
    lemma_refines_chain(program, stay + program, postpone(program));
}

/// Writes out a held-back pointer delta as an explicit move.
fn flush_offset(results: &mut Vec<ProgramToken>, offset: isize)
    ensures
        final(results).deep_view() == old(results).deep_view() + flush(offset as int),
{
    if offset != 0 {
        results.push(ProgramToken::ChangeAddr(offset));
        assert(results.deep_view() =~= old(results).deep_view() + flush(offset as int));
    } else {
        assert(results.deep_view() =~= old(results).deep_view() + flush(offset as int));
    }
}

/// Rewrites a token sequence so that pointer moves come as late as they can:
/// each operation carries the moves before it in its offset, and one move
/// settles the pointer before every loop and at the end.
pub fn postpone_moves(all_tokens: &[ProgramToken]) -> (results: Vec<ProgramToken>)
    ensures
        results.deep_view() == postpone(all_tokens.deep_view()),
    decreases all_tokens@,
{
    let ghost input = all_tokens.deep_view();
    let mut results: Vec<ProgramToken> = Vec::new();
    let mut i: usize = 0;
    let mut offset: isize = 0;
    assert(results.deep_view() =~= Seq::<Instr>::empty());
    assert(input.skip(0) =~= input);
    while i < all_tokens.len()
        invariant
            i <= all_tokens.len(),
            input == all_tokens.deep_view(),
            postpone(input) == results.deep_view() + postpone_from(
                input.skip(i as int),
                offset as int,
            ),
        decreases all_tokens.len() - i,
    {
        let ghost rest = input.skip(i as int);
        let ghost before = results.deep_view();
        let ghost tail = rest.skip(1);
        proof {
            assert(rest[0] == all_tokens@[i as int].deep_view());
            assert(tail =~= input.skip(i + 1));
        }
        match &all_tokens[i] {
            ProgramToken::ChangeAddr(d) => {
                match offset.checked_add(*d) {
                    Some(sum) => {
                        offset = sum;
                    },
                    None => {
                        flush_offset(&mut results, offset);
                        assert(before + (flush(offset as int) + postpone_from(tail, *d as int))
                            =~= results.deep_view() + postpone_from(tail, *d as int));
                        offset = *d;
                    },
                }
            },
            ProgramToken::Offset(o, op) => {
                match o.checked_add(offset) {
                    Some(shifted) => {
                        results.push(ProgramToken::Offset(shifted, *op));
                        proof {
                            let item = Instr::Offset(shifted as int, *op);
                            assert(results.deep_view() =~= before.push(item));
                            assert(before + (seq![item] + postpone_from(tail, offset as int))
                                =~= before.push(item) + postpone_from(tail, offset as int));
                        }
                    },
                    None => {
                        flush_offset(&mut results, offset);
                        let ghost settled = results.deep_view();
                        results.push(ProgramToken::Offset(*o, *op));
                        proof {
                            let item = Instr::Offset(*o as int, *op);
                            assert(results.deep_view() =~= settled.push(item));
                            assert(before + (flush(offset as int) + seq![item] + postpone_from(
                                tail,
                                0,
                            )) =~= settled.push(item) + postpone_from(tail, 0));
                        }
                        offset = 0;
                    },
                }
            },
            ProgramToken::Loop(body) => {
                flush_offset(&mut results, offset);
                let ghost settled = results.deep_view();
                let postponed = postpone_moves(tokens_of(body));
                proof {
                    lemma_loop_view(*body);
                    lemma_loop_view(postponed);
                }
                let ghost item = Instr::Loop(postponed.deep_view());
                results.push(ProgramToken::Loop(postponed));
                proof {
                    assert(results.deep_view() =~= settled.push(item));
                    assert(before + (flush(offset as int) + seq![item] + postpone_from(tail, 0))
                        =~= settled.push(item) + postpone_from(tail, 0));
                }
                offset = 0;
            },
        }
        i += 1;
    }
    proof {
        assert(input.skip(i as int) =~= Seq::<Instr>::empty());
    }
    flush_offset(&mut results, offset);
    results
}

} // verus!
