//! A rendering of a program as pseudo-C, for reading.

use crate::text::{decimal, write_decimal, write_text};
use crate::types::{lemma_loop_view, tokens_of, Instr, MemoryOp, ProgramToken};
use vstd::prelude::*;
use vstd::string::StringSliceAdditionalSpecFns;

verus! {

/// The line of one instruction that is not a loop, without its indentation.
pub open spec fn statement(instr: Instr) -> Seq<u8> {
    match instr {
        Instr::ChangeAddr(delta) => "pointer += ".spec_bytes() + decimal(delta)
            + "\n".spec_bytes(),
        Instr::Offset(offset, MemoryOp::ChangeValue(value)) => "memory[pointer + ".spec_bytes()
            + decimal(offset) + "] += ".spec_bytes() + decimal(value as int)
            + "\n".spec_bytes(),
        Instr::Offset(offset, MemoryOp::SetValue(value)) => "memory[pointer + ".spec_bytes()
            + decimal(offset) + "] = ".spec_bytes() + decimal(value as int)
            + "\n".spec_bytes(),
        Instr::Offset(offset, MemoryOp::Print) => "print(memory[pointer + ".spec_bytes()
            + decimal(offset) + "])\n".spec_bytes(),
        Instr::Loop(_) => Seq::empty(),
    }
}

/// The lines of one instruction at the given indentation. A loop is a
/// `while` over the cell under the pointer; its body is indented by two
/// spaces more.
pub open spec fn lines_of(instr: Instr, indent: Seq<u8>) -> Seq<u8>
    decreases instr,
{
    match instr {
        Instr::Loop(body) => indent + "while (memory[pointer]) {\n".spec_bytes() + lines_of_all(
            body,
            indent + "  ".spec_bytes(),
        ) + indent + "}\n".spec_bytes(),
        _ => indent + statement(instr),
    }
}

/// The lines of a sequence of instructions at the given indentation.
pub open spec fn lines_of_all(instrs: Seq<Instr>, indent: Seq<u8>) -> Seq<u8>
    decreases instrs,
{
    if instrs.len() == 0 {
        Seq::empty()
    } else {
        lines_of_all(instrs.drop_last(), indent) + lines_of(instrs.last(), indent)
    }
}

/// Appends the pseudo-C lines of a program to `output`, each line behind
/// the given indentation.
pub fn write_as_c(output: &mut Vec<u8>, program: &[ProgramToken], indent: &Vec<u8>)
    ensures
        final(output)@ == old(output)@ + lines_of_all(program.deep_view(), indent@),
    decreases program@,
{
    let ghost instrs = program.deep_view();
    let mut i: usize = 0;
    assert(instrs.take(0) =~= Seq::<Instr>::empty());
    assert(output@ =~= old(output)@ + lines_of_all(instrs.take(0), indent@));
    while i < program.len()
        invariant
            i <= program.len(),
            instrs == program.deep_view(),
            output@ == old(output)@ + lines_of_all(instrs.take(i as int), indent@),
        decreases program.len() - i,
    {
        let ghost before = output@;
        let ghost instr = program@[i as int].deep_view();
        output.extend_from_slice(indent.as_slice());
        match &program[i] {
            ProgramToken::ChangeAddr(delta) => {
                write_text(output, "pointer += ");
                write_decimal(output, *delta as i128);
                write_text(output, "\n");
                assert(output@ =~= before + lines_of(instr, indent@));
            },
            ProgramToken::Offset(offset, MemoryOp::ChangeValue(value)) => {
                write_text(output, "memory[pointer + ");
                write_decimal(output, *offset as i128);
                write_text(output, "] += ");
                write_decimal(output, *value as i128);
                write_text(output, "\n");
                assert(output@ =~= before + lines_of(instr, indent@));
            },
            ProgramToken::Offset(offset, MemoryOp::SetValue(value)) => {
                write_text(output, "memory[pointer + ");
                write_decimal(output, *offset as i128);
                write_text(output, "] = ");
                write_decimal(output, *value as i128);
                write_text(output, "\n");
                assert(output@ =~= before + lines_of(instr, indent@));
            },
            ProgramToken::Offset(offset, MemoryOp::Print) => {
                write_text(output, "print(memory[pointer + ");
                write_decimal(output, *offset as i128);
                write_text(output, "])\n");
                assert(output@ =~= before + lines_of(instr, indent@));
            },
            ProgramToken::Loop(body) => {
                write_text(output, "while (memory[pointer]) {\n");
                let mut deeper: Vec<u8> = Vec::new();
                deeper.extend_from_slice(indent.as_slice());
                write_text(&mut deeper, "  ");
                assert(deeper@ =~= indent@ + "  ".spec_bytes());
                write_as_c(output, tokens_of(body), &deeper);
                output.extend_from_slice(indent.as_slice());
                write_text(output, "}\n");
                proof {
                    lemma_loop_view(*body);
                    assert(instr == Instr::Loop(body.deep_view()));
                    assert(output@ =~= before + lines_of(instr, indent@));
                }
            },
        }
        proof {
            assert(instrs.take(i + 1).drop_last() =~= instrs.take(i as int));
            assert(instrs.take(i + 1).last() == instr);
            assert(output@ =~= old(output)@ + lines_of_all(instrs.take(i + 1), indent@));
        }
        i += 1;
    }
    assert(instrs.take(i as int) =~= instrs);
}

/// The pseudo-C text of a program, each line behind the given indentation.
pub fn format_as_c(program: &[ProgramToken], indent: &str) -> (text: Vec<u8>)
    ensures
        text@ == lines_of_all(program.deep_view(), indent.spec_bytes()),
{
    let mut margin: Vec<u8> = Vec::new();
    write_text(&mut margin, indent);
    let mut text: Vec<u8> = Vec::new();
    write_as_c(&mut text, program, &margin);
    assert(text@ =~= lines_of_all(program.deep_view(), indent.spec_bytes()));
    text
}

} // verus!
