use bfcrs::backend::wasm::code_stream::{
    low_i32, low_u32, CodeStreamExt, CodeStreamWriter, Instruction, LocalHandle, WasmType,
};
use bfcrs::backend::wasm::module_builder::{
    add_code_section, add_export_section, add_function_section, add_import_section,
    add_memory_section, add_type_section, emit_token, emit_tokens, ModuleBuilder, WasmModule,
};
use bfcrs::semantics::RunError;
use bfcrs::backend::wasm::WasmBackend;
use bfcrs::backend::Backend;
use bfcrs::interpreter::{run_program, run_tokens, BfIo, Transcript};
use bfcrs::optimizer::optimize_parsed;
use bfcrs::parser::parse_program;
use bfcrs::types::{MemoryOp, ProgramToken, State};
use bfcrs::{compile_program, compile_tokens};

const HELLO: &str = "++++++++[>++++[>++>+++>+++>+<<<<-]>+>+>->>+[<]<-]>>.>---.+++++++..+++.>>.<-.<.+++.------.--------.>>+.>++.";

const STEPS: u64 = 10_000_000;

struct RunResult {
    output: String,
    state: State,
}

#[derive(Debug, Clone, Copy, PartialEq)]
enum Op {
    GetLocal(u32),
    SetLocal(u32),
    Const(i32),
    Load8Signed(u32),
    Load8Unsigned(u32),
    Store8(u32),
    Add,
    Call(u32),
    BranchIf(u32),
    EqualsZero,
    Loop,
    Block,
    End,
    Drop,
    Return,
}

fn read_u32(bytes: &mut &[u8]) -> u32 {
    leb128::read::unsigned(bytes).unwrap() as u32
}

fn read_i32(bytes: &mut &[u8]) -> i32 {
    leb128::read::signed(bytes).unwrap() as i32
}

fn read_byte(bytes: &mut &[u8]) -> u8 {
    let byte = bytes[0];
    *bytes = &bytes[1..];
    byte
}

fn sections_of(module: &[u8]) -> Vec<(u8, Vec<u8>)> {
    assert_eq!(&module[0..4], &[0x00, 0x61, 0x73, 0x6d]);
    assert_eq!(&module[4..8], &[0x01, 0x00, 0x00, 0x00]);
    let mut rest = &module[8..];
    let mut sections = Vec::new();
    while !rest.is_empty() {
        let id = read_byte(&mut rest);
        let length = read_u32(&mut rest) as usize;
        sections.push((id, rest[..length].to_vec()));
        rest = &rest[length..];
    }
    sections
}

fn decode_body(module: &[u8]) -> Vec<Op> {
    let sections = sections_of(module);
    let ids: Vec<u8> = sections.iter().map(|section| section.0).collect();
    assert_eq!(ids, vec![1, 2, 3, 5, 7, 10]);
    let code = &sections[5].1;
    let mut rest = &code[..];
    assert_eq!(read_u32(&mut rest), 1);
    let body_length = read_u32(&mut rest) as usize;
    assert_eq!(body_length, rest.len());
    assert_eq!(read_u32(&mut rest), 1);
    assert_eq!(read_u32(&mut rest), 1);
    assert_eq!(read_byte(&mut rest), 0x7F);
    let mut ops = Vec::new();
    while !rest.is_empty() {
        let opcode = read_byte(&mut rest);
        let op = match opcode {
            0x20 => Op::GetLocal(read_u32(&mut rest)),
            0x21 => Op::SetLocal(read_u32(&mut rest)),
            0x41 => Op::Const(read_i32(&mut rest)),
            0x2C | 0x2D | 0x3A => {
                assert_eq!(read_u32(&mut rest), 0);
                let offset = read_u32(&mut rest);
                match opcode {
                    0x2C => Op::Load8Signed(offset),
                    0x2D => Op::Load8Unsigned(offset),
                    _ => Op::Store8(offset),
                }
            }
            0x6A => Op::Add,
            0x10 => Op::Call(read_u32(&mut rest)),
            0x0D => Op::BranchIf(read_u32(&mut rest)),
            0x45 => Op::EqualsZero,
            0x03 => {
                assert_eq!(read_byte(&mut rest), 0x40);
                Op::Loop
            }
            0x02 => {
                assert_eq!(read_byte(&mut rest), 0x40);
                Op::Block
            }
            0x0B => Op::End,
            0x1A => Op::Drop,
            0x0F => Op::Return,
            other => panic!("unknown opcode {}", other),
        };
        ops.push(op);
    }
    ops
}

fn matching_ends(ops: &[Op]) -> Vec<usize> {
    let mut ends = vec![0; ops.len()];
    let mut open = Vec::new();
    for (at, op) in ops.iter().enumerate() {
        match op {
            Op::Loop | Op::Block => open.push(at),
            Op::End => {
                if let Some(start) = open.pop() {
                    ends[start] = at;
                }
            }
            _ => {}
        }
    }
    assert!(open.is_empty());
    ends
}

fn address(base: i32, offset: u32) -> Option<usize> {
    let at = base as u32 as u64 + offset as u64;
    if at < 65536 {
        Some(at as usize)
    } else {
        None
    }
}

fn run_module(module: &[u8]) -> RunResult {
    try_run_module(module).expect("memory access out of bounds")
}

fn try_run_module(module: &[u8]) -> Option<RunResult> {
    let ops = decode_body(module);
    let ends = matching_ends(&ops);
    let mut memory = vec![0u8; 65536];
    let mut locals = [0i32; 1];
    let mut stack: Vec<i32> = Vec::new();
    let mut frames: Vec<usize> = Vec::new();
    let mut output = String::new();
    let mut pc = 0;
    let mut steps: u64 = 0;
    let pointer = loop {
        steps += 1;
        assert!(steps < 1_000_000_000, "the module does not halt");
        match ops[pc] {
            Op::GetLocal(slot) => stack.push(locals[slot as usize]),
            Op::SetLocal(slot) => locals[slot as usize] = stack.pop().unwrap(),
            Op::Const(value) => stack.push(value),
            Op::Load8Signed(offset) => {
                let base = stack.pop().unwrap();
                stack.push(memory[address(base, offset)?] as i8 as i32);
            }
            Op::Load8Unsigned(offset) => {
                let base = stack.pop().unwrap();
                stack.push(memory[address(base, offset)?] as i32);
            }
            Op::Store8(offset) => {
                let value = stack.pop().unwrap();
                let base = stack.pop().unwrap();
                memory[address(base, offset)?] = value as u8;
            }
            Op::Add => {
                let right = stack.pop().unwrap();
                let left = stack.pop().unwrap();
                stack.push(left.wrapping_add(right));
            }
            Op::Call(function) => match function {
                0 => output.push((stack.pop().unwrap() as u8).into()),
                1 => stack.push(0),
                other => panic!("unknown function {}", other),
            },
            Op::BranchIf(depth) => {
                if stack.pop().unwrap() != 0 {
                    let target = frames[frames.len() - 1 - depth as usize];
                    frames.truncate(frames.len() - depth as usize);
                    if ops[target] == Op::Loop {
                        pc = target;
                    } else {
                        frames.pop();
                        pc = ends[target];
                    }
                }
            }
            Op::EqualsZero => {
                let value = stack.pop().unwrap();
                stack.push((value == 0) as i32);
            }
            Op::Loop | Op::Block => frames.push(pc),
            Op::End => {
                if frames.pop().is_none() {
                    break stack.pop().unwrap();
                }
            }
            Op::Drop => {
                stack.pop().unwrap();
            }
            Op::Return => break stack.pop().unwrap(),
        }
        pc += 1;
    };
    Some(RunResult {
        output,
        state: State {
            pointer: pointer as u32 as usize,
            memory,
        },
    })
}

fn run_source_as_module(source: &str) -> RunResult {
    run_module(&compile_program(source).unwrap())
}

fn run_tokens_as_module(program: &[ProgramToken]) -> RunResult {
    run_module(&compile_tokens(program, false).unwrap())
}

struct MockIo {
    output: String,
}

impl BfIo for MockIo {
    fn taken(&self) -> Transcript {
        unreachable!()
    }

    fn print(&mut self, ch: u8) {
        self.output.push(ch.into());
    }

    fn read(&mut self) -> u8 {
        0
    }
}

fn run_tokens_in_interpreter(program: &[ProgramToken]) -> RunResult {
    let mut state = State::new();
    let mut io = MockIo {
        output: String::new(),
    };
    run_program(program, &mut state, &mut io, STEPS).unwrap();
    RunResult {
        output: io.output,
        state,
    }
}

fn compare_results(a: &RunResult, b: &RunResult) {
    assert_eq!(a.state.memory.len(), b.state.memory.len());
    for (i, (chunk_a, chunk_b)) in a
        .state
        .memory
        .chunks(64)
        .zip(b.state.memory.chunks(64))
        .enumerate()
    {
        assert_eq!(chunk_a, chunk_b, "Starting at offset {}", i * 64);
    }
    assert_eq!(a.state.pointer, b.state.pointer, "Pointers should equal.");
    assert_eq!(a.output, b.output, "Output should equal.");
}

fn run_and_expect_same_tokens(program: &[ProgramToken]) {
    let interpreter_result = run_tokens_in_interpreter(program);
    let module_result = run_tokens_as_module(program);
    compare_results(&interpreter_result, &module_result);
}

fn run_and_expect_same(source: &str) {
    let program = optimize_parsed(&parse_program(source)).unwrap();
    run_and_expect_same_tokens(&program);
}

#[test]
pub fn hello_world_compiler_output() {
    let result = run_source_as_module(HELLO);
    assert_eq!("Hello World!\n", result.output);
}

#[test]
pub fn hello_world_state() {
    run_and_expect_same(HELLO);
}

#[test]
pub fn hello_world_wasm_output() {
    let result = run_source_as_module(HELLO);
    assert_eq!("Hello World!\n", result.output);
}

#[test]
pub fn hello_world_same() {
    run_and_expect_same(HELLO);
}

#[test]
pub fn inc_dec_smoke_node() {
    let result = run_source_as_module("++-- >+ >++");

    assert_eq!("", result.output);
    assert_eq!(&[0, 1, 2], &result.state.memory[0..3]);
    assert_eq!(2, result.state.pointer);
}

#[test]
pub fn inc_dec_smoke_same() {
    run_and_expect_same("++-- >+ >++");
}

#[test]
pub fn inc_dec_negative_1() {
    run_and_expect_same("-");
}

#[test]
pub fn inc_dec_negative_2() {
    run_and_expect_same(">-");
}

#[test]
pub fn zero_nop_1() {
    run_and_expect_same_tokens(&[
        ProgramToken::ChangeAddr(100),
        ProgramToken::change_value(1),
        ProgramToken::set_value(0),
    ]);
}

#[test]
pub fn change_offset_smoke_1() {
    run_and_expect_same_tokens(&[ProgramToken::offs_change_value(1, 1)]);
}

#[test]
pub fn change_offset_smoke_2() {
    run_and_expect_same_tokens(&[ProgramToken::offs_change_value(1, -1)]);
}

#[test]
pub fn change_offset_nop_1() {
    run_and_expect_same_tokens(&[
        ProgramToken::offs_change_value(1, 1),
        ProgramToken::ChangeAddr(1),
        ProgramToken::offs_change_value(0, -1),
    ]);
}

#[test]
pub fn change_offset_nop_2() {
    run_and_expect_same_tokens(&[
        ProgramToken::offs_change_value(1, 1),
        ProgramToken::offs_change_value(1, -1),
    ]);
}

#[test]
pub fn change_offset_nop_3() {
    run_and_expect_same_tokens(&[
        ProgramToken::offs_change_value(1, -1),
        ProgramToken::offs_change_value(1, 1),
    ]);
}

#[test]
pub fn change_offset_negative_offset() {
    run_and_expect_same_tokens(&[
        ProgramToken::ChangeAddr(1),
        ProgramToken::offs_change_value(-1, 1),
    ]);
}

#[test]
fn negative_offsets_compute_the_address_on_the_stack() {
    let mut writer = CodeStreamWriter::new(Vec::new());
    let pointer = writer.declare_local(WasmType::I32);
    assert_eq!(pointer, LocalHandle(0));
    emit_token(&mut writer, pointer, &ProgramToken::offs_change_value(-1, 1));
    assert_eq!(
        writer.into_stream(),
        vec![
            0x20, 0x00, 0x41, 0x7F, 0x6A, 0x20, 0x00, 0x41, 0x7F, 0x6A, 0x2D, 0x00, 0x00, 0x41,
            0x01, 0x6A, 0x3A, 0x00, 0x00
        ]
    );

    let mut writer = CodeStreamWriter::new(Vec::new());
    emit_token(&mut writer, pointer, &ProgramToken::offs_set_value(-2, 5));
    assert_eq!(
        writer.into_stream(),
        vec![0x20, 0x00, 0x41, 0x7E, 0x6A, 0x41, 0x05, 0x3A, 0x00, 0x00]
    );

    let mut writer = CodeStreamWriter::new(Vec::new());
    emit_token(
        &mut writer,
        pointer,
        &ProgramToken::Offset(-3, MemoryOp::Print),
    );
    assert_eq!(
        writer.into_stream(),
        vec![0x20, 0x00, 0x41, 0x7D, 0x6A, 0x2D, 0x00, 0x00, 0x10, 0x00]
    );
}

#[test]
fn offsets_that_are_not_negative_go_into_the_access() {
    let pointer = LocalHandle(0);
    let mut writer = CodeStreamWriter::new(Vec::new());
    emit_token(&mut writer, pointer, &ProgramToken::offs_change_value(200, -1));
    assert_eq!(
        writer.into_stream(),
        vec![
            0x20, 0x00, 0x20, 0x00, 0x2D, 0x00, 0xC8, 0x01, 0x41, 0x7F, 0x6A, 0x3A, 0x00, 0xC8,
            0x01
        ]
    );

    let mut writer = CodeStreamWriter::new(Vec::new());
    emit_token(&mut writer, pointer, &ProgramToken::change_value(3));
    assert_eq!(
        writer.into_stream(),
        vec![0x20, 0x00, 0x20, 0x00, 0x2D, 0x00, 0x00, 0x41, 0x03, 0x6A, 0x3A, 0x00, 0x00]
    );

    let mut writer = CodeStreamWriter::new(Vec::new());
    emit_token(&mut writer, pointer, &ProgramToken::offs_set_value(1, 7));
    assert_eq!(
        writer.into_stream(),
        vec![0x20, 0x00, 0x41, 0x07, 0x3A, 0x00, 0x01]
    );

    let mut writer = CodeStreamWriter::new(Vec::new());
    emit_token(
        &mut writer,
        pointer,
        &ProgramToken::Offset(0, MemoryOp::Print),
    );
    assert_eq!(
        writer.into_stream(),
        vec![0x20, 0x00, 0x2D, 0x00, 0x00, 0x10, 0x00]
    );
}

#[test]
fn moves_and_loops_are_encoded() {
    let pointer = LocalHandle(0);
    let mut writer = CodeStreamWriter::new(Vec::new());
    emit_token(&mut writer, pointer, &ProgramToken::ChangeAddr(-100));
    assert_eq!(
        writer.into_stream(),
        vec![0x20, 0x00, 0x41, 0x9C, 0x7F, 0x6A, 0x21, 0x00]
    );

    let mut writer = CodeStreamWriter::new(Vec::new());
    emit_token(
        &mut writer,
        pointer,
        &ProgramToken::Loop(vec![ProgramToken::ChangeAddr(1)]),
    );
    assert_eq!(
        writer.into_stream(),
        vec![
            0x02, 0x40, 0x20, 0x00, 0x2D, 0x00, 0x00, 0x45, 0x0D, 0x00, 0x03, 0x40, 0x20, 0x00,
            0x41, 0x01, 0x6A, 0x21, 0x00, 0x20, 0x00, 0x2D, 0x00, 0x00, 0x0D, 0x00, 0x0B, 0x0B
        ]
    );
}

#[test]
fn every_operation_has_its_opcode() {
    let cases = vec![
        (Instruction::GetLocal(LocalHandle(3)), vec![0x20, 0x03]),
        (Instruction::SetLocal(LocalHandle(300)), vec![0x21, 0xAC, 0x02]),
        (Instruction::Load8Signed(4), vec![0x2C, 0x00, 0x04]),
        (Instruction::Load8Unsigned(128), vec![0x2D, 0x00, 0x80, 0x01]),
        (Instruction::Store8(5), vec![0x3A, 0x00, 0x05]),
        (Instruction::PushI32(-65), vec![0x41, 0xBF, 0x7F]),
        (Instruction::PushI32(64), vec![0x41, 0xC0, 0x00]),
        (Instruction::PushI32(63), vec![0x41, 0x3F]),
        (Instruction::PushI32(-64), vec![0x41, 0x40]),
        (
            Instruction::PushI32(i32::MIN),
            vec![0x41, 0x80, 0x80, 0x80, 0x80, 0x78],
        ),
        (
            Instruction::PushI32(i32::MAX),
            vec![0x41, 0xFF, 0xFF, 0xFF, 0xFF, 0x07],
        ),
        (Instruction::AddI32, vec![0x6A]),
        (
            Instruction::Call(u32::MAX),
            vec![0x10, 0xFF, 0xFF, 0xFF, 0xFF, 0x0F],
        ),
        (Instruction::BranchIf(1), vec![0x0D, 0x01]),
        (Instruction::EqualsZeroI32, vec![0x45]),
        (Instruction::Loop, vec![0x03, 0x40]),
        (Instruction::Block, vec![0x02, 0x40]),
        (Instruction::End, vec![0x0B]),
        (Instruction::Drop, vec![0x1A]),
        (Instruction::Return, vec![0x0F]),
    ];
    for (op, expected) in cases {
        let mut writer = CodeStreamWriter::new(vec![0xEE]);
        writer.emit(op);
        let mut bytes = vec![0xEE];
        bytes.extend(expected);
        assert_eq!(writer.into_stream(), bytes);
    }
}

#[test]
fn stream_writes_append_leb128() {
    let mut stream: Vec<u8> = vec![9];
    stream.write_leb_u8(0);
    stream.write_leb_u8(255);
    stream.write_leb_i8(-128);
    stream.write_leb_i8(127);
    stream.write_leb_u32(624485);
    stream.write_leb_i32(-123456);
    stream.write_local(LocalHandle(127));
    stream.write_str("main");
    stream.write_str("");
    assert_eq!(
        stream,
        vec![
            9, 0x00, 0xFF, 0x01, 0x80, 0x7F, 0xFF, 0x00, 0xE5, 0x8E, 0x26, 0xC0, 0xBB, 0x78,
            0x7F, 4, b'm', b'a', b'i', b'n', 0
        ]
    );
}

#[test]
fn locals_get_their_slots_in_order() {
    let mut writer = CodeStreamWriter::new(Vec::new());
    assert_eq!(writer.declare_local(WasmType::I32), LocalHandle(0));
    assert_eq!(writer.declare_local(WasmType::I32), LocalHandle(1));
    assert_eq!(writer.declare_local(WasmType::I32), LocalHandle(2));
    assert_eq!(writer.into_stream(), Vec::<u8>::new());
}

#[test]
fn print_string_pushes_and_calls_for_each_byte() {
    let mut writer = CodeStreamWriter::new(Vec::new());
    writer.emit_print_string("Hi\u{e9}");
    assert_eq!(
        writer.into_stream(),
        vec![
            0x41, 0xC8, 0x00, 0x10, 0x00, 0x41, 0xE9, 0x00, 0x10, 0x00, 0x41, 0xC3, 0x01, 0x10,
            0x00, 0x41, 0xA9, 0x01, 0x10, 0x00
        ]
    );
}

fn empty_module() -> Vec<u8> {
    vec![
        0x00, 0x61, 0x73, 0x6D, 0x01, 0x00, 0x00, 0x00, // header
        0x01, 0x0D, 0x03, 0x60, 0x01, 0x7F, 0x00, 0x60, 0x00, 0x01, 0x7F, 0x60, 0x00, 0x01,
        0x7F, // types
        0x02, 0x1C, 0x02, 0x05, b'b', b'f', b'c', b'r', b's', 0x05, b'p', b'r', b'i', b'n',
        b't', 0x00, 0x00, 0x05, b'b', b'f', b'c', b'r', b's', 0x04, b'r', b'e', b'a', b'd',
        0x00, 0x01, // imports
        0x03, 0x02, 0x01, 0x02, // functions
        0x05, 0x03, 0x01, 0x00, 0x01, // memory
        0x07, 0x11, 0x02, 0x04, b'm', b'a', b'i', b'n', 0x00, 0x02, 0x06, b'm', b'e', b'm',
        b'o', b'r', b'y', 0x02, 0x00, // exports
        0x0A, 0x09, 0x01, 0x07, 0x01, 0x01, 0x7F, 0x20, 0x00, 0x0F, 0x0B, // code
    ]
}

#[test]
fn module_of_the_empty_program_is_fixed() {
    assert_eq!(compile_tokens(&[], false), Ok(empty_module()));
    assert_eq!(compile_tokens(&[], true), Ok(empty_module()));
    assert_eq!(compile_program("no symbols here"), Ok(empty_module()));

    let mut stream = vec![1, 2, 3];
    WasmModule::write_to_stream(&mut stream, &[]);
    assert_eq!(&stream[..3], &[1, 2, 3]);
    assert_eq!(&stream[3..], &empty_module()[..]);

    let mut stream = Vec::new();
    WasmBackend.compile_to_stream(&[], &mut stream);
    assert_eq!(stream, empty_module());
    assert_eq!(WasmBackend.extension(), ".wasm");
}

#[test]
fn sections_are_written_in_ascending_order_of_id() {
    let mut builder = ModuleBuilder::new();
    add_code_section(&mut builder, &[]);
    add_export_section(&mut builder);
    add_memory_section(&mut builder, 1);
    add_function_section(&mut builder);
    add_import_section(&mut builder);
    add_type_section(&mut builder);
    let mut stream = Vec::new();
    builder.write_to_stream(&mut stream);
    assert_eq!(stream, empty_module());
}

#[test]
fn sections_with_one_id_keep_their_order() {
    let mut builder = ModuleBuilder::new();
    builder.add_section(9, &[vec![1], vec![2, 3]]);
    builder.add_section(4, &[vec![7]]);
    builder.add_section(9, &[]);
    builder.add_section(4, &[vec![8]]);
    builder.add_section(0, &[vec![]]);
    let mut stream = Vec::new();
    builder.write_to_stream(&mut stream);
    assert_eq!(
        stream,
        vec![
            0x00, 0x61, 0x73, 0x6D, 0x01, 0x00, 0x00, 0x00, 0, 1, 1, 4, 2, 1, 7, 4, 2, 1, 8, 9,
            4, 2, 1, 2, 3, 9, 1, 0
        ]
    );
}

#[test]
fn memory_section_holds_the_page_count() {
    let mut builder = ModuleBuilder::new();
    add_memory_section(&mut builder, 300);
    let mut stream = Vec::new();
    builder.write_to_stream(&mut stream);
    assert_eq!(&stream[8..], &[5, 4, 1, 0, 0xAC, 0x02]);
}

#[test]
fn long_function_bodies_have_long_lengths() {
    let program: Vec<ProgramToken> = (0..20).map(|_| ProgramToken::change_value(1)).collect();
    let module = compile_tokens(&program, false).unwrap();
    let sections = sections_of(&module);
    let code = &sections[5].1;
    assert_eq!(code.len(), 1 + 2 + 3 + 20 * 13 + 4);
    assert_eq!(&code[..6], &[0x01, 0x8B, 0x02, 0x01, 0x01, 0x7F]);
    let result = run_module(&module);
    assert_eq!(result.state.memory[0], 20);
}

#[test]
fn optimized_module_runs_like_the_plain_one() {
    let program = bfcrs::optimizer::convert_tokens(&parse_program(HELLO)).unwrap();
    let plain = run_module(&compile_tokens(&program, false).unwrap());
    let optimized = run_module(&compile_tokens(&program, true).unwrap());
    compare_results(&plain, &optimized);
    assert_eq!(plain.output, "Hello World!\n");
}

#[test]
fn overwritten_change_is_equivalent_to_the_set() {
    let program = vec![
        ProgramToken::ChangeAddr(100),
        ProgramToken::change_value(-64),
        ProgramToken::set_value(0),
    ];
    let optimized = bfcrs::optimizer::optimize(&program).unwrap();
    assert_eq!(
        optimized,
        vec![
            ProgramToken::offs_change_value(100, -64),
            ProgramToken::offs_set_value(100, 0),
            ProgramToken::ChangeAddr(100),
        ]
    );
    let reference = vec![ProgramToken::ChangeAddr(100), ProgramToken::set_value(0)];
    compare_results(
        &run_tokens_in_interpreter(&optimized),
        &run_tokens_in_interpreter(&reference),
    );
    compare_results(
        &run_tokens_as_module(&optimized),
        &run_tokens_in_interpreter(&reference),
    );
}

#[test]
fn numbers_are_cut_down_to_32_bits() {
    assert_eq!(low_i32(0), 0);
    assert_eq!(low_i32(-1), -1);
    assert_eq!(low_i32(i32::MAX as isize), i32::MAX);
    assert_eq!(low_i32(i32::MIN as isize), i32::MIN);
    assert_eq!(low_i32(0x1_0000_0005), 5);
    assert_eq!(low_i32(0x8000_0000), i32::MIN);
    assert_eq!(low_i32(-0x8000_0001), i32::MAX);
    assert_eq!(low_u32(0), 0);
    assert_eq!(low_u32(0xFFFF_FFFF), u32::MAX);
    assert_eq!(low_u32(0x1_0000_0000), 0);
    assert_eq!(low_u32(0x3_0000_0007), 7);
}

#[test]
fn wide_moves_and_offsets_are_cut_down_in_the_code() {
    let pointer = LocalHandle(0);
    let mut writer = CodeStreamWriter::new(Vec::new());
    emit_token(&mut writer, pointer, &ProgramToken::ChangeAddr(0x1_0000_0001));
    assert_eq!(
        writer.into_stream(),
        vec![0x20, 0x00, 0x41, 0x01, 0x6A, 0x21, 0x00]
    );

    let mut writer = CodeStreamWriter::new(Vec::new());
    emit_token(
        &mut writer,
        pointer,
        &ProgramToken::offs_set_value(0x2_0000_0003, 1),
    );
    assert_eq!(
        writer.into_stream(),
        vec![0x20, 0x00, 0x41, 0x01, 0x3A, 0x00, 0x03]
    );
}

#[test]
fn sequences_of_tokens_are_encoded_in_order() {
    let pointer = LocalHandle(0);
    let program = vec![
        ProgramToken::set_value(1),
        ProgramToken::Offset(0, MemoryOp::Print),
    ];
    let mut writer = CodeStreamWriter::new(vec![7]);
    emit_tokens(&mut writer, pointer, &program);
    assert_eq!(
        writer.into_stream(),
        vec![7, 0x20, 0x00, 0x41, 0x01, 0x3A, 0x00, 0x00, 0x20, 0x00, 0x2D, 0x00, 0x00, 0x10, 0x00]
    );
}

#[test]
fn a_module_that_leaves_its_memory_traps_where_the_interpreter_stops() {
    let program = vec![ProgramToken::offs_change_value(-1, 1)];
    let mut state = State::new();
    let mut output = Vec::new();
    assert_eq!(
        run_tokens(&program, &mut state, &mut output, STEPS),
        Err(RunError::PointerOutOfBounds)
    );
    let module = compile_tokens(&program, false).unwrap();
    assert!(try_run_module(&module).is_none());
}

fn next_random(seed: &mut u64) -> u64 {
    *seed = seed
        .wrapping_mul(6364136223846793005)
        .wrapping_add(1442695040888963407);
    *seed >> 33
}

fn random_program(seed: &mut u64, depth: u32) -> Vec<ProgramToken> {
    let mut program = Vec::new();
    let count = next_random(seed) % 7;
    for _ in 0..count {
        let pick = next_random(seed) % 9;
        let small = (next_random(seed) % 4) as isize - 1;
        let value = (next_random(seed) % 7) as i8 - 3;
        program.push(match pick {
            0 | 1 => ProgramToken::ChangeAddr(small),
            2 | 3 | 4 => ProgramToken::Offset(small, MemoryOp::ChangeValue(value)),
            5 => ProgramToken::Offset(small, MemoryOp::SetValue(value)),
            6 => ProgramToken::Offset(small, MemoryOp::Print),
            _ => {
                if depth > 0 {
                    ProgramToken::Loop(random_program(seed, depth - 1))
                } else {
                    ProgramToken::ChangeAddr(1)
                }
            }
        });
    }
    program
}

#[test]
fn random_programs_run_alike_everywhere() {
    let mut seed = 2024u64;
    let mut compared = 0;
    for _ in 0..3000 {
        let mut program = vec![ProgramToken::ChangeAddr(8)];
        program.extend(random_program(&mut seed, 3));
        let mut state = State::new();
        let mut output = Vec::new();
        if run_tokens(&program, &mut state, &mut output, 2000).is_err() {
            continue;
        }
        compared += 1;
        let plain = RunResult {
            output: output.into_iter().map(|byte| char::from(byte)).collect(),
            state,
        };
        let optimized = bfcrs::optimizer::optimize(&program).unwrap();
        compare_results(&plain, &run_tokens_in_interpreter(&optimized));
        compare_results(&plain, &run_tokens_as_module(&program));
        compare_results(&plain, &run_tokens_as_module(&optimized));
    }
    assert!(compared > 500);
}
