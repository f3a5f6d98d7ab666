//! The text back end: C source with the same meaning as the program.

use crate::backend::Backend;
use crate::text::{decimal, write_decimal, write_text};
use crate::types::{lemma_loop_view, tokens_of, Instr, MemoryOp, ProgramToken};
use vstd::prelude::*;
use vstd::string::StringSliceAdditionalSpecFns;

verus! {

/// The line of one instruction that is not a loop, without its indentation.
pub open spec fn statement(instr: Instr) -> Seq<u8> {
    match instr {
        Instr::ChangeAddr(delta) => "pointer += ".spec_bytes() + decimal(delta)
            + ";\n".spec_bytes(),
        Instr::Offset(offset, MemoryOp::ChangeValue(value)) => "buffer[pointer + ".spec_bytes()
            + decimal(offset) + "] += ".spec_bytes() + decimal(value as int)
            + ";\n".spec_bytes(),
        Instr::Offset(offset, MemoryOp::SetValue(value)) => "buffer[pointer + ".spec_bytes()
            + decimal(offset) + "] = ".spec_bytes() + decimal(value as int)
            + ";\n".spec_bytes(),
        Instr::Offset(offset, MemoryOp::Print) => "putchar(buffer[pointer + ".spec_bytes()
            + decimal(offset) + "]);\n".spec_bytes(),
        Instr::Loop(_) => Seq::empty(),
    }
}

/// The lines of one instruction at the given indentation. A loop is a
/// `while` over the cell under the pointer; its body is indented by two
/// spaces more.
pub open spec fn lines_of(instr: Instr, indent: Seq<u8>) -> Seq<u8>
    decreases instr,
{
    match instr {
        Instr::Loop(body) => indent + "while (buffer[pointer]) {\n".spec_bytes() + lines_of_all(
            body,
            indent + "  ".spec_bytes(),
        ) + indent + "}\n".spec_bytes(),
        _ => indent + statement(instr),
    }
}

/// The lines of a sequence of instructions at the given indentation.
pub open spec fn lines_of_all(instrs: Seq<Instr>, indent: Seq<u8>) -> Seq<u8>
    decreases instrs,
{
    if instrs.len() == 0 {
        Seq::empty()
    } else {
        lines_of_all(instrs.drop_last(), indent) + lines_of(instrs.last(), indent)
    }
}

/// The lines before the program's own.
pub open spec fn prologue() -> Seq<u8> {
    "#include <stdlib.h>\n".spec_bytes() + "#include <stdio.h>\n".spec_bytes()
        + "int main() {\n".spec_bytes() + "  char* buffer = malloc(30000);\n".spec_bytes()
        + "  int pointer = 0;\n".spec_bytes()
}

/// The lines behind the program's own.
pub open spec fn epilogue() -> Seq<u8> {
    "  free(buffer);\n".spec_bytes() + "  return 0;\n".spec_bytes() + "}\n".spec_bytes()
}

/// The C source of a program: a `main` that allocates the tape, runs the
/// program's statements and frees the tape.
pub open spec fn c_source(program: Seq<Instr>) -> Seq<u8> {
    prologue() + lines_of_all(program, "  ".spec_bytes()) + epilogue()
}

/// Appends the lines of a sequence of tokens at the given indentation.
pub fn write_lines(output: &mut Vec<u8>, tokens: &[ProgramToken], indent: &Vec<u8>)
    ensures
        final(output)@ == old(output)@ + lines_of_all(tokens.deep_view(), indent@),
    decreases tokens@,
{
    let ghost instrs = tokens.deep_view();
    let mut i: usize = 0;
    assert(instrs.take(0) =~= Seq::<Instr>::empty());
    assert(output@ =~= old(output)@ + lines_of_all(instrs.take(0), indent@));
    while i < tokens.len()
        invariant
            i <= tokens.len(),
            instrs == tokens.deep_view(),
            output@ == old(output)@ + lines_of_all(instrs.take(i as int), indent@),
        decreases tokens.len() - i,
    {
        let ghost before = output@;
        let ghost instr = tokens@[i as int].deep_view();
        output.extend_from_slice(indent.as_slice());
        match &tokens[i] {
            ProgramToken::ChangeAddr(delta) => {
                write_text(output, "pointer += ");
                write_decimal(output, *delta as i128);
                write_text(output, ";\n");
                assert(output@ =~= before + lines_of(instr, indent@));
            },
            ProgramToken::Offset(offset, MemoryOp::ChangeValue(value)) => {
                write_text(output, "buffer[pointer + ");
                write_decimal(output, *offset as i128);
                write_text(output, "] += ");
                write_decimal(output, *value as i128);
                write_text(output, ";\n");
                assert(output@ =~= before + lines_of(instr, indent@));
            },
            ProgramToken::Offset(offset, MemoryOp::SetValue(value)) => {
                write_text(output, "buffer[pointer + ");
                write_decimal(output, *offset as i128);
                write_text(output, "] = ");
                write_decimal(output, *value as i128);
                write_text(output, ";\n");
                assert(output@ =~= before + lines_of(instr, indent@));
            },
            ProgramToken::Offset(offset, MemoryOp::Print) => {
                write_text(output, "putchar(buffer[pointer + ");
                write_decimal(output, *offset as i128);
                write_text(output, "]);\n");
                assert(output@ =~= before + lines_of(instr, indent@));
            },
            ProgramToken::Loop(body) => {
                write_text(output, "while (buffer[pointer]) {\n");
                let mut deeper: Vec<u8> = Vec::new();
                deeper.extend_from_slice(indent.as_slice());
                write_text(&mut deeper, "  ");
                assert(deeper@ =~= indent@ + "  ".spec_bytes());
                write_lines(output, tokens_of(body), &deeper);
                output.extend_from_slice(indent.as_slice());
                write_text(output, "}\n");
                proof {
                    lemma_loop_view(*body);
                    assert(instr == Instr::Loop(body.deep_view()));
                    assert(output@ =~= before + lines_of(instr, indent@));
                }
            },
        }
        proof {
            assert(output@ =~= before + lines_of(instr, indent@));
            assert(instrs.take(i + 1).drop_last() =~= instrs.take(i as int));
            assert(instrs.take(i + 1).last() == instr);
            assert(output@ =~= old(output)@ + lines_of_all(instrs.take(i + 1), indent@));
        }
        i += 1;
    }
    assert(instrs.take(i as int) =~= instrs);
}

/// The back end that emits C source.
pub struct CBackend;

impl Backend for CBackend {
    open spec fn extension_of(&self) -> Seq<char> {
        ".c"@
    }

    open spec fn artifact(&self, program: Seq<Instr>) -> Seq<u8> {
        c_source(program)
    }

    fn extension(&self) -> (extension: &'static str) {
        ".c"
    }

    fn compile_to_stream(&self, tokens: &[ProgramToken], stream: &mut Vec<u8>) {
        let ghost before = stream@;
        write_text(stream, "#include <stdlib.h>\n");
        write_text(stream, "#include <stdio.h>\n");
        write_text(stream, "int main() {\n");
        write_text(stream, "  char* buffer = malloc(30000);\n");
        write_text(stream, "  int pointer = 0;\n");
        assert(stream@ =~= before + prologue());
        let mut indent: Vec<u8> = Vec::new();
        write_text(&mut indent, "  ");
        write_lines(stream, tokens, &indent);
        write_text(stream, "  free(buffer);\n");
        write_text(stream, "  return 0;\n");
        write_text(stream, "}\n");
        assert(stream@ =~= before + c_source(tokens.deep_view()));
    }
}

} // verus!
