//! The peephole merger: one pass over a token sequence that fuses or cancels
//! adjacent compatible instructions and recognises the clear-cell loop.

use crate::refinement::{
    lemma_clear_loop_refines, lemma_fuse_pair_refines, lemma_refines_chain, lemma_refines_concat,
    lemma_refines_itself, lemma_refines_loop, lemma_round_trip_refines, refines,
};
use crate::types::{lemma_loop_view, tokens_of, Instr, MemoryOp, ProgramToken};
use vstd::prelude::*;

verus! {

/// Whether a pointer delta or an address offset can be held by a token.
pub open spec fn fits_isize(x: int) -> bool {
    isize::MIN <= x <= isize::MAX
}

/// The signed byte congruent to `x` modulo 256.
pub open spec fn wrap_i8(x: int) -> i8 {
    if x % 256 < 128 {
        (x % 256) as i8
    } else {
        (x % 256 - 256) as i8
    }
}

/// A measure of one instruction that counts a loop above any instruction
/// without a body.
pub open spec fn instr_size(instr: Instr) -> nat
    decreases instr,
{
    match instr {
        Instr::Loop(body) => 2 + instrs_size(body),
        _ => 1,
    }
}

/// The sum of the measures of a sequence of instructions.
pub open spec fn instrs_size(instrs: Seq<Instr>) -> nat
    decreases instrs,
{
    if instrs.len() == 0 {
        0
    } else {
        instr_size(instrs[0]) + instrs_size(instrs.skip(1))
    }
}

/// What a pending instruction and the one after it fuse to, if they fuse:
/// two moves add up, as long as the sum can be held; two changes of one cell
/// add up modulo 256; a change after a clearing set is a set; a set after a
/// set replaces it.
pub open spec fn fuse_pair(pending: Instr, next: Instr) -> Option<Instr> {
    match (pending, next) {
        (Instr::ChangeAddr(a), Instr::ChangeAddr(b)) => if fits_isize(a + b) {
            Some(Instr::ChangeAddr(a + b))
        } else {
            None
        },
        (
            Instr::Offset(o1, MemoryOp::ChangeValue(a)),
            Instr::Offset(o2, MemoryOp::ChangeValue(b)),
        ) => if o1 == o2 {
            Some(Instr::Offset(o1, MemoryOp::ChangeValue(wrap_i8(a + b))))
        } else {
            None
        },
        (
            Instr::Offset(o1, MemoryOp::SetValue(z)),
            Instr::Offset(o2, MemoryOp::ChangeValue(a)),
        ) => if o1 == o2 && z == 0 {
            Some(Instr::Offset(o1, MemoryOp::SetValue(a)))
        } else {
            None
        },
        (
            Instr::Offset(o1, MemoryOp::SetValue(_)),
            Instr::Offset(o2, MemoryOp::SetValue(a)),
        ) => if o1 == o2 {
            Some(Instr::Offset(o1, MemoryOp::SetValue(a)))
        } else {
            None
        },
        _ => None,
    }
}

/// What a pending move and the two instructions after it collapse to, if they
/// are a move, a change of the cell then under the pointer, and the move back.
pub open spec fn fuse_round_trip(pending: Instr, next: Instr, after: Instr) -> Option<Instr> {
    match (pending, next, after) {
        (
            Instr::ChangeAddr(a),
            Instr::Offset(o, MemoryOp::ChangeValue(v)),
            Instr::ChangeAddr(b),
        ) => if o == 0 && a + b == 0 {
            Some(Instr::Offset(a, MemoryOp::ChangeValue(v)))
        } else {
            None
        },
        _ => None,
    }
}

/// Whether a loop body is the single instruction that changes the cell under
/// the pointer by a step other than zero.
pub open spec fn is_clear_body(body: Seq<Instr>) -> bool {
    &&& body.len() == 1
    &&& body[0] matches Instr::Offset(o, MemoryOp::ChangeValue(v))
    &&& o == 0
    &&& v != 0
}

/// The pass, from a state of its scan: `pending` is the instruction held
/// back, `rest` what has not been looked at. With nothing pending, the next
/// instruction becomes pending. A pending loop has its body merged first;
/// where that body is then the clear-cell idiom, the instruction that clears
/// the cell is pending in the loop's place, else the loop is written out with
/// the merged body. Any other pending instruction is fused with the next one,
/// or collapsed with the next two, where a rule applies, and what they make
/// is pending; where no rule applies it is written out unchanged.
pub open spec fn merge_from(pending: Option<Instr>, rest: Seq<Instr>) -> Seq<Instr>
    decreases
        (match pending {
            Some(p) => instr_size(p),
            None => 0,
        }) + instrs_size(rest),
        (if pending is None {
            1nat
        } else {
            0nat
        }),
    via merge_from_decreases
{
    match pending {
        None => if rest.len() == 0 {
            Seq::empty()
        } else {
            merge_from(Some(rest[0]), rest.skip(1))
        },
        Some(Instr::Loop(body)) => {
            let merged = merge_from(None, body);
            if is_clear_body(merged) {
                merge_from(Some(Instr::Offset(0, MemoryOp::SetValue(0))), rest)
            } else {
                seq![Instr::Loop(merged)] + merge_from(None, rest)
            }
        },
        Some(p) => if rest.len() >= 1 && fuse_pair(p, rest[0]) is Some {
            merge_from(fuse_pair(p, rest[0]), rest.skip(1))
        } else if rest.len() >= 2 && fuse_round_trip(p, rest[0], rest[1]) is Some {
            merge_from(fuse_round_trip(p, rest[0], rest[1]), rest.skip(1).skip(1))
        } else {
            seq![p] + merge_from(None, rest)
        },
    }
}

#[via_fn]
proof fn merge_from_decreases(pending: Option<Instr>, rest: Seq<Instr>) {
    if rest.len() >= 1 {
        assert(instrs_size(rest) == instr_size(rest[0]) + instrs_size(rest.skip(1)));
    }
    if rest.len() >= 2 {
        assert(instrs_size(rest.skip(1)) == instr_size(rest.skip(1)[0]) + instrs_size(
            rest.skip(1).skip(1),
        ));
    }
}

/// The merged form of a whole sequence.
pub open spec fn merge(instrs: Seq<Instr>) -> Seq<Instr> {
    merge_from(None, instrs)
}

/// The number of instructions of a sequence, those in loop bodies included.
pub open spec fn instr_count(instrs: Seq<Instr>) -> nat
    decreases instrs,
{
    if instrs.len() == 0 {
        0
    } else {
        (match instrs[0] {
            Instr::Loop(body) => 1 + instr_count(body),
            _ => 1,
        }) + instr_count(instrs.skip(1))
    }
}

/// The count of one sequence after another is the sum of their counts.
pub proof fn lemma_count_concat(first: Seq<Instr>, second: Seq<Instr>)
    ensures
        instr_count(first + second) == instr_count(first) + instr_count(second),
    decreases first.len(),
{
    if first.len() == 0 {
        assert(first + second =~= second);
    } else {
        assert((first + second)[0] == first[0]);
        assert((first + second).skip(1) =~= first.skip(1) + second);
        lemma_count_concat(first.skip(1), second);
    }
}

/// The count of a single instruction that is not a loop is one; that of a
/// loop is one more than its body's.
pub proof fn lemma_count_one(instr: Instr)
    ensures
        instr_count(seq![instr]) == (match instr {
            Instr::Loop(body) => 1 + instr_count(body),
            _ => 1,
        }),
{
    assert(seq![instr].skip(1) =~= Seq::<Instr>::empty());
    assert(instr_count(Seq::<Instr>::empty()) == 0);
}

/// What the scan makes of a state is no longer than what the state has
/// still to account for, and holds no more instructions.
pub proof fn lemma_merge_from_shrinks(pending: Option<Instr>, rest: Seq<Instr>)
    ensures
        merge_from(pending, rest).len() <= with_pending(pending, rest).len(),
        instr_count(merge_from(pending, rest)) <= instr_count(with_pending(pending, rest)),
    decreases
        (match pending {
            Some(p) => instr_size(p),
            None => 0,
        }) + instrs_size(rest),
        (if pending is None {
            1nat
        } else {
            0nat
        }),
{
    let before = with_pending(pending, rest);
    if rest.len() >= 1 {
        assert(instrs_size(rest) == instr_size(rest[0]) + instrs_size(rest.skip(1)));
        assert(seq![rest[0]] + rest.skip(1) =~= rest);
        lemma_count_concat(seq![rest[0]], rest.skip(1));
        lemma_count_one(rest[0]);
    }
    if rest.len() >= 2 {
        assert(instrs_size(rest.skip(1)) == instr_size(rest.skip(1)[0]) + instrs_size(
            rest.skip(1).skip(1),
        ));
        assert(seq![rest[1]] + rest.skip(1).skip(1) =~= rest.skip(1));
        lemma_count_concat(seq![rest[1]], rest.skip(1).skip(1));
        lemma_count_one(rest[1]);
    }
    match pending {
        None => {
            if rest.len() > 0 {
                lemma_merge_from_shrinks(Some(rest[0]), rest.skip(1));
            }
        },
        Some(Instr::Loop(body)) => {
            let merged = merge_from(None, body);
            lemma_merge_from_shrinks(None, body);
            lemma_count_concat(seq![Instr::Loop(body)], rest);
            lemma_count_one(Instr::Loop(body));
            if is_clear_body(merged) {
                let clear = Instr::Offset(0, MemoryOp::SetValue(0));
                lemma_merge_from_shrinks(Some(clear), rest);
                lemma_count_concat(seq![clear], rest);
                lemma_count_one(clear);
            } else {
                lemma_merge_from_shrinks(None, rest);
                lemma_count_concat(seq![Instr::Loop(merged)], merge_from(None, rest));
                lemma_count_one(Instr::Loop(merged));
            }
        },
        Some(p) => {
            lemma_count_concat(seq![p], rest);
            lemma_count_one(p);
            if rest.len() >= 1 && fuse_pair(p, rest[0]) is Some {
                let fused = fuse_pair(p, rest[0])->0;
                lemma_merge_from_shrinks(Some(fused), rest.skip(1));
                lemma_count_concat(seq![fused], rest.skip(1));
                lemma_count_one(fused);
            } else if rest.len() >= 2 && fuse_round_trip(p, rest[0], rest[1]) is Some {
                let fused = fuse_round_trip(p, rest[0], rest[1])->0;
                lemma_merge_from_shrinks(Some(fused), rest.skip(1).skip(1));
                lemma_count_concat(seq![fused], rest.skip(1).skip(1));
                lemma_count_one(fused);
            } else {
                lemma_merge_from_shrinks(None, rest);
                lemma_count_concat(seq![p], merge_from(None, rest));
            }
        },
    }
}

/// The merged form of a program is no longer than the program, and holds
/// no more instructions.
pub proof fn lemma_merge_shrinks(program: Seq<Instr>)
    ensures
        merge(program).len() <= program.len(),
        instr_count(merge(program)) <= instr_count(program),
{
    lemma_merge_from_shrinks(None, program);
}

/// The instructions that a state of the scan has still to account for: the
/// pending one, then the rest.
pub open spec fn with_pending(pending: Option<Instr>, rest: Seq<Instr>) -> Seq<Instr> {
    match pending {
        Some(p) => seq![p] + rest,
        None => rest,
    }
}

/// What the scan makes of a state may stand for the instructions that the
/// state has still to account for.
pub proof fn lemma_merge_from_refines(pending: Option<Instr>, rest: Seq<Instr>)
    ensures
        refines(with_pending(pending, rest), merge_from(pending, rest)),
    decreases
        (match pending {
            Some(p) => instr_size(p),
            None => 0,
        }) + instrs_size(rest),
        (if pending is None {
            1nat
        } else {
            0nat
        }),
{
    let before = with_pending(pending, rest);
    if rest.len() >= 1 {
        assert(instrs_size(rest) == instr_size(rest[0]) + instrs_size(rest.skip(1)));
    }
    if rest.len() >= 2 {
        assert(instrs_size(rest.skip(1)) == instr_size(rest.skip(1)[0]) + instrs_size(
            rest.skip(1).skip(1),
        ));
    }
    match pending {
        None => {
            if rest.len() == 0 {
                lemma_refines_itself(rest);
            } else {
                lemma_merge_from_refines(Some(rest[0]), rest.skip(1));
                assert(seq![rest[0]] + rest.skip(1) =~= rest);
            }
        },
        Some(Instr::Loop(body)) => {
            let merged = merge_from(None, body);
            lemma_merge_from_refines(None, body);
            lemma_refines_loop(body, merged);
            lemma_refines_itself(rest);
            if is_clear_body(merged) {
                let clear = Instr::Offset(0, MemoryOp::SetValue(0));
                lemma_clear_loop_refines(merged);
                lemma_refines_chain(
                    seq![Instr::Loop(body)],
                    seq![Instr::Loop(merged)],
                    seq![clear],
                );
                lemma_refines_concat(seq![Instr::Loop(body)], seq![clear], rest, rest);
                lemma_merge_from_refines(Some(clear), rest);
                lemma_refines_chain(before, seq![clear] + rest, merge_from(pending, rest));
            } else {
                lemma_merge_from_refines(None, rest);
                lemma_refines_concat(
                    seq![Instr::Loop(body)],
                    seq![Instr::Loop(merged)],
                    rest,
                    merge_from(None, rest),
                );
            }
        },
        Some(p) => {
            if rest.len() >= 1 && fuse_pair(p, rest[0]) is Some {
                let fused = fuse_pair(p, rest[0])->0;
                let tail = rest.skip(1);
                lemma_fuse_pair_refines(p, rest[0]);
                lemma_refines_itself(tail);
                lemma_refines_concat(seq![p, rest[0]], seq![fused], tail, tail);
                assert(seq![p, rest[0]] + tail =~= before);
                lemma_merge_from_refines(Some(fused), tail);
                lemma_refines_chain(before, seq![fused] + tail, merge_from(pending, rest));
            } else if rest.len() >= 2 && fuse_round_trip(p, rest[0], rest[1]) is Some {
                let fused = fuse_round_trip(p, rest[0], rest[1])->0;
                let tail = rest.skip(1).skip(1);
                lemma_round_trip_refines(p, rest[0], rest[1]);
                lemma_refines_itself(tail);
                lemma_refines_concat(seq![p, rest[0], rest[1]], seq![fused], tail, tail);
                assert(seq![p, rest[0], rest[1]] + tail =~= before);
                lemma_merge_from_refines(Some(fused), tail);
                lemma_refines_chain(before, seq![fused] + tail, merge_from(pending, rest));
            } else {
                lemma_refines_itself(seq![p]);
                lemma_merge_from_refines(None, rest);
                lemma_refines_concat(seq![p], seq![p], rest, merge_from(None, rest));
            }
        },
    }
}

/// The merged form of a program may stand for the program: whatever a run
/// of the program does that reaches its end, the run of the merged form
/// does.
pub proof fn lemma_merge_refines(program: Seq<Instr>)
    ensures
        refines(program, merge(program)),
{
    lemma_merge_from_refines(None, program);
}

/// The sum of two signed bytes, wrapping modulo 256.
fn wrapping_sum(a: i8, b: i8) -> (sum: i8)
    ensures
        sum == wrap_i8(a + b),
{
    let wide: i16 = a as i16 + b as i16;
    if wide > 127 {
        (wide - 256) as i8
    } else if wide < -128 {
        (wide + 256) as i8
    } else {
        wide as i8
    }
}

/// Fuses a pending token with the one after it, where a rule for two tokens
/// applies.
fn fuse_tokens(pending: &ProgramToken, next: &ProgramToken) -> (fused: Option<ProgramToken>)
    ensures
        fused.deep_view() == fuse_pair(pending.deep_view(), next.deep_view()),
{
    match (pending, next) {
        (ProgramToken::ChangeAddr(a), ProgramToken::ChangeAddr(b)) => match a.checked_add(*b) {
            Some(sum) => Some(ProgramToken::ChangeAddr(sum)),
            None => None,
        },
        (
            ProgramToken::Offset(o1, MemoryOp::ChangeValue(a)),
            ProgramToken::Offset(o2, MemoryOp::ChangeValue(b)),
        ) => if *o1 == *o2 {
            Some(ProgramToken::Offset(*o1, MemoryOp::ChangeValue(wrapping_sum(*a, *b))))
        } else {
            None
        },
        (
            ProgramToken::Offset(o1, MemoryOp::SetValue(z)),
            ProgramToken::Offset(o2, MemoryOp::ChangeValue(a)),
        ) => if *o1 == *o2 && *z == 0 {
            Some(ProgramToken::Offset(*o1, MemoryOp::SetValue(*a)))
        } else {
            None
        },
        (
            ProgramToken::Offset(o1, MemoryOp::SetValue(_)),
            ProgramToken::Offset(o2, MemoryOp::SetValue(a)),
        ) => if *o1 == *o2 {
            Some(ProgramToken::Offset(*o1, MemoryOp::SetValue(*a)))
        } else {
            None
        },
        _ => None,
    }
}

/// Collapses a pending move, a change under the pointer and the move back.
fn fuse_round_trip_tokens(
    pending: &ProgramToken,
    next: &ProgramToken,
    after: &ProgramToken,
) -> (fused: Option<ProgramToken>)
    ensures
        fused.deep_view() == fuse_round_trip(
            pending.deep_view(),
            next.deep_view(),
            after.deep_view(),
        ),
{
    match (pending, next, after) {
        (
            ProgramToken::ChangeAddr(a),
            ProgramToken::Offset(o, MemoryOp::ChangeValue(v)),
            ProgramToken::ChangeAddr(b),
        ) => if *o == 0 && *a as i128 + *b as i128 == 0 {
            Some(ProgramToken::Offset(*a, MemoryOp::ChangeValue(*v)))
        } else {
            None
        },
        _ => None,
    }
}

/// Whether a merged loop body is the clear-cell idiom.
fn is_clear_loop(body: &Vec<ProgramToken>) -> (clear: bool)
    ensures
        clear == is_clear_body(body.deep_view()),
{
    if body.len() != 1 {
        return false;
    }
    match &body[0] {
        ProgramToken::Offset(o, MemoryOp::ChangeValue(v)) => *o == 0 && *v != 0,
        _ => false,
    }
}

/// Merges a token sequence in one left-to-right pass: the pending token is
/// held against what follows it, fused where a rule applies and written out
/// where none does. Loop bodies are merged before their loop is judged.
pub fn merge_instructions(all_tokens: &[ProgramToken]) -> (results: Vec<ProgramToken>)
    ensures
        results.deep_view() == merge(all_tokens.deep_view()),
    decreases all_tokens@,
{
    let ghost input = all_tokens.deep_view();
    let mut results: Vec<ProgramToken> = Vec::new();
    let mut pending: Option<ProgramToken> = None;
    let mut i: usize = 0;
    assert(results.deep_view() =~= Seq::<Instr>::empty());
    assert(input.skip(0) =~= input);
    while i < all_tokens.len() || pending.is_some()
        invariant
            i <= all_tokens.len(),
            input == all_tokens.deep_view(),
            !(pending.deep_view() matches Some(Instr::Loop(_))),
            merge(input) == results.deep_view() + merge_from(
                pending.deep_view(),
                input.skip(i as int),
            ),
        decreases
            all_tokens.len() - i,
            (if pending.is_some() {
                1nat
            } else {
                0nat
            }),
    {
        let ghost rest = input.skip(i as int);
        let ghost before = results.deep_view();
        proof {
            if i < all_tokens.len() {
                assert(rest[0] == all_tokens@[i as int].deep_view());
                assert(rest.skip(1) =~= input.skip(i + 1));
            }
            if i + 1 < all_tokens.len() {
                assert(rest[1] == all_tokens@[i + 1].deep_view());
                assert(rest.skip(1).skip(1) =~= input.skip(i + 2));
            }
        }
        match pending {
            None => {
                match &all_tokens[i] {
                    ProgramToken::Loop(body) => {
                        let merged = merge_instructions(tokens_of(body));
                        proof {
                            lemma_loop_view(*body);
                            lemma_loop_view(merged);
                            assert(merge_from(None, rest) == merge_from(
                                Some(rest[0]),
                                rest.skip(1),
                            ));
                        }
                        if is_clear_loop(&merged) {
                            pending = Some(ProgramToken::Offset(0, MemoryOp::SetValue(0)));
                        } else {
                            results.push(ProgramToken::Loop(merged));
                            proof {
                                assert(results.deep_view() =~= before.push(
                                    Instr::Loop(merged.deep_view()),
                                ));
                                assert(before + (seq![Instr::Loop(merged.deep_view())]
                                    + merge_from(None, rest.skip(1))) =~= before.push(
                                    Instr::Loop(merged.deep_view()),
                                ) + merge_from(None, rest.skip(1)));
                            }
                        }
                    },
                    ProgramToken::ChangeAddr(d) => {
                        pending = Some(ProgramToken::ChangeAddr(*d));
                    },
                    ProgramToken::Offset(o, op) => {
                        pending = Some(ProgramToken::Offset(*o, *op));
                    },
                }
                i += 1;
            },
            Some(held) => {
                let fused = if i < all_tokens.len() {
                    fuse_tokens(&held, &all_tokens[i])
                } else {
                    None
                };
                if fused.is_some() {
                    pending = fused;
                    i += 1;
                } else {
                    let collapsed = if i < all_tokens.len() && i + 1 < all_tokens.len() {
                        fuse_round_trip_tokens(&held, &all_tokens[i], &all_tokens[i + 1])
                    } else {
                        None
                    };
                    if collapsed.is_some() {
                        pending = collapsed;
                        i += 2;
                    } else {
                        let ghost flushed = held.deep_view();
                        results.push(held);
                        pending = None;
                        proof {
                            assert(results.deep_view() =~= before.push(flushed));
                            assert(before + (seq![flushed] + merge_from(None, rest))
                                =~= before.push(flushed) + merge_from(None, rest));
                        }
                    }
                }
            },
        }
    }
    proof {
        assert(input.skip(i as int) =~= Seq::<Instr>::empty());
        assert(results.deep_view() + Seq::<Instr>::empty() =~= results.deep_view());
    }
    results
}

} // verus!
