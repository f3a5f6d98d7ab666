use bfcrs::interpreter::{run_program, run_tokens, BfIo, Transcript};
use bfcrs::optimizer::{convert_tokens, optimize_parsed};
use bfcrs::parser::parse_program;
use bfcrs::semantics::RunError;
use bfcrs::types::{MemoryOp, ProgramToken, State};

const HELLO: &str = "++++++++[>++++[>++>+++>+++>+<<<<-]>+>+>->>+[<]<-]>>.>---.+++++++..+++.>>.<-.<.+++.------.--------.>>+.>++.";

const STEPS: u64 = 1_000_000;

struct MockIo {
    output: String,
}

impl BfIo for MockIo {
    fn taken(&self) -> Transcript {
        unreachable!()
    }

    fn print(&mut self, ch: u8) {
        self.output.push(ch.into());
    }

    fn read(&mut self) -> u8 {
        0
    }
}

fn run_in_interpreter(program: &[ProgramToken]) -> (String, State) {
    let mut state = State::new();
    let mut io = MockIo {
        output: String::new(),
    };
    run_program(program, &mut state, &mut io, STEPS).unwrap();
    (io.output, state)
}

#[test]
fn hello_world_interpreter_output() {
    let program = optimize_parsed(&parse_program(HELLO)).unwrap();
    let (output, _) = run_in_interpreter(&program);
    assert_eq!("Hello World!\n", output);
}

#[test]
fn fresh_state_is_a_zeroed_tape() {
    let state = State::new();
    assert_eq!(state.pointer, 0);
    assert_eq!(state.memory.len(), 65536);
    assert!(state.memory.iter().all(|cell| *cell == 0));
}

#[test]
fn optimized_and_plain_programs_agree() {
    let tokens = parse_program(HELLO);
    let plain = convert_tokens(&tokens).unwrap();
    let optimized = optimize_parsed(&tokens).unwrap();
    let (plain_output, plain_state) = run_in_interpreter(&plain);
    let (optimized_output, optimized_state) = run_in_interpreter(&optimized);
    assert_eq!(plain_output, optimized_output);
    assert_eq!(plain_state.pointer, optimized_state.pointer);
    assert_eq!(plain_state.memory, optimized_state.memory);
}

#[test]
fn cell_arithmetic_wraps() {
    let program = vec![
        ProgramToken::change_value(-1),
        ProgramToken::offs_change_value(1, 127),
        ProgramToken::offs_change_value(1, 127),
        ProgramToken::offs_change_value(1, 3),
        ProgramToken::offs_set_value(2, -2),
        ProgramToken::Offset(2, MemoryOp::Print),
    ];
    let mut state = State::new();
    let mut output = Vec::new();
    assert_eq!(run_tokens(&program, &mut state, &mut output, 0), Ok(0));
    assert_eq!(&state.memory[0..3], &[255, 1, 254]);
    assert_eq!(state.pointer, 0);
    assert_eq!(output, vec![254]);
}

#[test]
fn every_pass_through_a_loop_takes_a_step() {
    let program = vec![
        ProgramToken::set_value(3),
        ProgramToken::Loop(vec![
            ProgramToken::change_value(-1),
            ProgramToken::offs_change_value(1, 2),
        ]),
    ];
    let mut state = State::new();
    let mut output = Vec::new();
    assert_eq!(run_tokens(&program, &mut state, &mut output, 10), Ok(7));
    assert_eq!(&state.memory[0..2], &[0, 6]);

    let mut state = State::new();
    assert_eq!(
        run_tokens(&program, &mut state, &mut output, 2),
        Err(RunError::StepLimit)
    );
    assert_eq!(&state.memory[0..2], &[1, 4]);
}

#[test]
fn a_loop_that_never_ends_runs_out_of_steps() {
    let program = vec![
        ProgramToken::set_value(1),
        ProgramToken::Loop(vec![ProgramToken::change_value(2)]),
    ];
    let mut state = State::new();
    let mut output = Vec::new();
    assert_eq!(
        run_tokens(&program, &mut state, &mut output, 1000),
        Err(RunError::StepLimit)
    );
}

#[test]
fn leaving_the_tape_stops_the_run() {
    let mut output = Vec::new();

    let mut state = State::new();
    assert_eq!(
        run_tokens(&[ProgramToken::ChangeAddr(-1)], &mut state, &mut output, 5),
        Err(RunError::PointerOutOfBounds)
    );
    assert_eq!(state.pointer, 0);

    let mut state = State::new();
    assert_eq!(
        run_tokens(
            &[ProgramToken::offs_change_value(65536, 1)],
            &mut state,
            &mut output,
            5
        ),
        Err(RunError::PointerOutOfBounds)
    );

    let mut state = State::new();
    let program = vec![
        ProgramToken::ChangeAddr(65536),
        ProgramToken::Loop(vec![]),
    ];
    assert_eq!(
        run_tokens(&program, &mut state, &mut output, 5),
        Err(RunError::PointerOutOfBounds)
    );
    assert_eq!(state.pointer, 65536);

    let mut state = State::new();
    let program = vec![
        ProgramToken::ChangeAddr(65536),
        ProgramToken::offs_set_value(-1, 9),
    ];
    assert_eq!(run_tokens(&program, &mut state, &mut output, 5), Ok(5));
    assert_eq!(state.memory[65535], 9);
}

#[test]
fn clear_loop_with_an_even_step_may_never_end() {
    let looping = vec![
        ProgramToken::set_value(1),
        ProgramToken::Loop(vec![ProgramToken::change_value(2)]),
    ];
    let optimized = bfcrs::optimizer::optimize(&looping).unwrap();
    assert_eq!(optimized, vec![ProgramToken::set_value(0)]);
}

struct Watch {
    seen: Vec<(u8, u8)>,
    reads: u8,
}

impl BfIo for Watch {
    fn taken(&self) -> Transcript {
        unreachable!()
    }

    fn print(&mut self, ch: u8) {
        self.seen.push((ch, self.reads));
    }

    fn read(&mut self) -> u8 {
        self.reads += 1;
        self.reads
    }
}

#[test]
fn output_reaches_the_io_as_it_is_printed() {
    let program = vec![
        ProgramToken::set_value(65),
        ProgramToken::Offset(0, MemoryOp::Print),
        ProgramToken::change_value(1),
        ProgramToken::Offset(0, MemoryOp::Print),
        ProgramToken::ChangeAddr(-1),
        ProgramToken::Offset(0, MemoryOp::Print),
    ];
    let mut io = Watch {
        seen: Vec::new(),
        reads: 0,
    };
    let mut state = State::new();
    assert_eq!(
        run_program(&program, &mut state, &mut io, 3),
        Err(RunError::PointerOutOfBounds)
    );
    assert_eq!(io.seen, vec![(65, 0), (66, 0)]);
    assert_eq!(state.memory[0], 66);
}

#[test]
fn a_change_behind_the_pointer_prints_nothing() {
    let program = vec![
        ProgramToken::ChangeAddr(1),
        ProgramToken::offs_change_value(-1, 1),
    ];
    let (output, state) = run_in_interpreter(&program);
    assert_eq!(output, "");
    assert_eq!(state.pointer, 1);
    assert_eq!(state.memory[0], 1);
    assert!(state.memory[1..].iter().all(|cell| *cell == 0));
    assert_eq!(state.memory.len(), 65536);
}

#[test]
fn a_change_below_zero_wraps_and_prints_nothing() {
    let program = vec![ProgramToken::change_value(-1)];
    let mut state = State::new();
    let mut io = Watch {
        seen: Vec::new(),
        reads: 0,
    };
    assert_eq!(run_program(&program, &mut state, &mut io, 0), Ok(0));
    assert_eq!(io.seen, vec![]);
    assert_eq!(io.reads, 0);
    assert_eq!(state.pointer, 0);
    assert_eq!(state.memory[0], 255);
    assert!(state.memory[1..].iter().all(|cell| *cell == 0));
}

#[test]
fn a_vector_is_a_transcript() {
    let program = vec![
        ProgramToken::set_value(72),
        ProgramToken::Offset(0, MemoryOp::Print),
        ProgramToken::change_value(33),
        ProgramToken::Offset(0, MemoryOp::Print),
    ];
    let mut state = State::new();
    let mut transcript = vec![b'>'];
    assert_eq!(run_program(&program, &mut state, &mut transcript, 1), Ok(1));
    assert_eq!(transcript, vec![b'>', 72, 105]);
    assert_eq!(BfIo::read(&mut transcript), 0);
    assert_eq!(transcript, vec![b'>', 72, 105]);

    let mut state = State::new();
    let mut by_tokens = vec![b'>'];
    assert_eq!(run_tokens(&program, &mut state, &mut by_tokens, 1), Ok(1));
    assert_eq!(by_tokens, transcript);
}
