use bfcrs::backend::c::{write_lines, CBackend};
use bfcrs::backend::{Backend, Target};
use bfcrs::parser::parse_program;
use bfcrs::pseudo_c_formatter::{format_as_c, write_as_c};
use bfcrs::text::{write_decimal, write_text};
use bfcrs::types::{MemoryOp, ParseToken, ProgramToken};

fn sample() -> Vec<ProgramToken> {
    vec![
        ProgramToken::ChangeAddr(-3),
        ProgramToken::offs_change_value(2, -128),
        ProgramToken::Loop(vec![
            ProgramToken::offs_set_value(-1, 127),
            ProgramToken::Loop(vec![ProgramToken::Offset(0, MemoryOp::Print)]),
        ]),
        ProgramToken::ChangeAddr(1200),
    ]
}

#[test]
fn c_source_of_a_program() {
    let mut stream = b"// generated\n".to_vec();
    CBackend.compile_to_stream(&sample(), &mut stream);
    let expected = "// generated\n\
#include <stdlib.h>\n\
#include <stdio.h>\n\
int main() {\n\
\x20 char* buffer = malloc(30000);\n\
\x20 int pointer = 0;\n\
\x20 pointer += -3;\n\
\x20 buffer[pointer + 2] += -128;\n\
\x20 while (buffer[pointer]) {\n\
\x20   buffer[pointer + -1] = 127;\n\
\x20   while (buffer[pointer]) {\n\
\x20     putchar(buffer[pointer + 0]);\n\
\x20   }\n\
\x20 }\n\
\x20 pointer += 1200;\n\
\x20 free(buffer);\n\
\x20 return 0;\n\
}\n";
    assert_eq!(String::from_utf8(stream).unwrap(), expected);
    assert_eq!(CBackend.extension(), ".c");
}

#[test]
fn c_source_of_the_empty_program() {
    let mut stream = Vec::new();
    CBackend.compile_to_stream(&[], &mut stream);
    assert_eq!(
        String::from_utf8(stream).unwrap(),
        "#include <stdlib.h>\n#include <stdio.h>\nint main() {\n  char* buffer = malloc(30000);\n  int pointer = 0;\n  free(buffer);\n  return 0;\n}\n"
    );
}

#[test]
fn numbers_are_written_in_decimal() {
    let program = vec![
        ProgramToken::ChangeAddr(0),
        ProgramToken::ChangeAddr(9),
        ProgramToken::ChangeAddr(10),
        ProgramToken::ChangeAddr(-10),
        ProgramToken::ChangeAddr(isize::MAX),
        ProgramToken::ChangeAddr(isize::MIN),
    ];
    let expected = format!(
        "pointer += 0\npointer += 9\npointer += 10\npointer += -10\npointer += {}\npointer += {}\n",
        isize::MAX,
        isize::MIN
    );
    assert_eq!(
        String::from_utf8(format_as_c(&program, "")).unwrap(),
        expected
    );
}

#[test]
fn pseudo_c_of_a_program() {
    let expected = "> pointer += -3\n\
> memory[pointer + 2] += -128\n\
> while (memory[pointer]) {\n\
>   memory[pointer + -1] = 127\n\
>   while (memory[pointer]) {\n\
>     print(memory[pointer + 0])\n\
>   }\n\
> }\n\
> pointer += 1200\n";
    assert_eq!(
        String::from_utf8(format_as_c(&sample(), "> ")).unwrap(),
        expected
    );
}

#[test]
fn back_ends_are_found_by_name() {
    assert_eq!(<dyn Backend>::from_name("c"), Some(Target::C));
    assert_eq!(<dyn Backend>::from_name("wasm"), Some(Target::Wasm));
    assert_eq!(<dyn Backend>::from_name("Wasm"), None);
    assert_eq!(<dyn Backend>::from_name(""), None);
    assert_eq!(<dyn Backend>::from_name("wasm "), None);
    assert_eq!(Target::C.extension(), ".c");
    assert_eq!(Target::Wasm.extension(), ".wasm");

    let program = sample();
    let mut by_target = Vec::new();
    Target::C.compile_to_stream(&program, &mut by_target);
    let mut direct = Vec::new();
    CBackend.compile_to_stream(&program, &mut direct);
    assert_eq!(by_target, direct);

    let mut by_target = Vec::new();
    Target::Wasm.compile_to_stream(&program, &mut by_target);
    assert_eq!(by_target, bfcrs::compile_tokens(&program, false).unwrap());
}

#[test]
fn lexer_keeps_symbols_and_drops_the_rest() {
    assert_eq!(
        parse_program("a>b<c+d-e[f]g.h,\u{e9}\n"),
        vec![
            ParseToken::IncrAddr,
            ParseToken::DecrAddr,
            ParseToken::IncrValue,
            ParseToken::DecrValue,
            ParseToken::LoopStart,
            ParseToken::LoopEnd,
            ParseToken::Print,
        ]
    );
    assert_eq!(parse_program(""), vec![]);
    assert_eq!(parse_program("hello, world"), vec![]);
}

#[test]
fn text_is_written_as_bytes() {
    let mut output = b"x = ".to_vec();
    write_decimal(&mut output, -1200);
    write_text(&mut output, ";\u{e9}");
    write_decimal(&mut output, i128::MIN);
    write_decimal(&mut output, i128::MAX);
    assert_eq!(
        String::from_utf8(output).unwrap(),
        format!("x = -1200;\u{e9}{}{}", i128::MIN, i128::MAX)
    );

    let program = vec![ProgramToken::Loop(vec![ProgramToken::set_value(3)])];
    let mut output = Vec::new();
    write_lines(&mut output, &program, &b"\t".to_vec());
    assert_eq!(
        String::from_utf8(output).unwrap(),
        "\twhile (buffer[pointer]) {\n\t  buffer[pointer + 0] = 3;\n\t}\n"
    );
    let mut output = Vec::new();
    write_as_c(&mut output, &program, &b"\t".to_vec());
    assert_eq!(
        String::from_utf8(output).unwrap(),
        "\twhile (memory[pointer]) {\n\t  memory[pointer + 0] = 3\n\t}\n"
    );
}
