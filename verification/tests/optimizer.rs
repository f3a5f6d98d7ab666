use bfcrs::optimizer::{
    convert_tokens, merge_instructions, optimize, optimize_parsed, optimize_within,
    postpone_moves, OptimizerError,
};
use bfcrs::parser::parse_program;
use bfcrs::types::{MemoryOp, ParseToken, ProgramToken};

#[test]
fn single_ops_are_maintained() {
    let before = vec![
        ProgramToken::ChangeAddr(1),
        ProgramToken::Offset(0, MemoryOp::ChangeValue(1)),
        ProgramToken::ChangeAddr(1),
        ProgramToken::Offset(0, MemoryOp::ChangeValue(1)),
    ];
    let expected = before.clone();
    let after = merge_instructions(&before);

    assert_eq!(&expected, &after);
}

#[test]
fn same_ops_are_merged() {
    let before = vec![
        ProgramToken::ChangeAddr(1),
        ProgramToken::ChangeAddr(1),
        ProgramToken::ChangeAddr(1),
        ProgramToken::Offset(0, MemoryOp::ChangeValue(1)),
        ProgramToken::Offset(0, MemoryOp::ChangeValue(1)),
    ];
    let expected = vec![
        ProgramToken::ChangeAddr(3),
        ProgramToken::Offset(0, MemoryOp::ChangeValue(2)),
    ];
    let after = merge_instructions(&before);

    assert_eq!(&expected, &after);
}

#[test]
fn convert_builds_nested_loops() {
    let tokens = parse_program("+[>[-]<.]");
    assert_eq!(
        convert_tokens(&tokens),
        Ok(vec![
            ProgramToken::change_value(1),
            ProgramToken::Loop(vec![
                ProgramToken::ChangeAddr(1),
                ProgramToken::Loop(vec![ProgramToken::change_value(-1)]),
                ProgramToken::ChangeAddr(-1),
                ProgramToken::Offset(0, MemoryOp::Print),
            ]),
        ])
    );
}

#[test]
fn convert_rejects_unbalanced_brackets() {
    assert_eq!(
        convert_tokens(&[ParseToken::LoopEnd]),
        Err(OptimizerError::UnmatchedLoopEnd)
    );
    assert_eq!(
        convert_tokens(&parse_program("[]][")),
        Err(OptimizerError::UnmatchedLoopEnd)
    );
    assert_eq!(
        convert_tokens(&[ParseToken::LoopStart]),
        Err(OptimizerError::UnclosedLoop)
    );
    assert_eq!(
        convert_tokens(&parse_program("[[+]")),
        Err(OptimizerError::UnclosedLoop)
    );
    assert_eq!(
        optimize_parsed(&parse_program("+]")),
        Err(OptimizerError::UnmatchedLoopEnd)
    );
}

#[test]
fn postpone_folds_moves_into_offsets() {
    let before = vec![
        ProgramToken::ChangeAddr(2),
        ProgramToken::change_value(1),
        ProgramToken::ChangeAddr(-1),
        ProgramToken::Offset(0, MemoryOp::Print),
        ProgramToken::Loop(vec![ProgramToken::ChangeAddr(1), ProgramToken::set_value(4)]),
        ProgramToken::ChangeAddr(3),
    ];
    let expected = vec![
        ProgramToken::offs_change_value(2, 1),
        ProgramToken::Offset(1, MemoryOp::Print),
        ProgramToken::ChangeAddr(1),
        ProgramToken::Loop(vec![
            ProgramToken::offs_set_value(1, 4),
            ProgramToken::ChangeAddr(1),
        ]),
        ProgramToken::ChangeAddr(3),
    ];
    assert_eq!(postpone_moves(&before), expected);
}

#[test]
fn optimize_reaches_a_fixed_point() {
    let program = optimize_parsed(&parse_program("++-- >+ >++")).unwrap();
    assert_eq!(
        program,
        vec![
            ProgramToken::offs_change_value(0, 0),
            ProgramToken::offs_change_value(1, 1),
            ProgramToken::offs_change_value(2, 2),
            ProgramToken::ChangeAddr(2),
        ]
    );
    assert_eq!(optimize(&program), Ok(program.clone()));
}

#[test]
fn moves_that_overflow_are_not_fused() {
    let before = vec![
        ProgramToken::ChangeAddr(isize::MAX),
        ProgramToken::ChangeAddr(1),
        ProgramToken::ChangeAddr(-3),
    ];
    assert_eq!(
        merge_instructions(&before),
        vec![
            ProgramToken::ChangeAddr(isize::MAX),
            ProgramToken::ChangeAddr(-2),
        ]
    );
    assert_eq!(
        postpone_moves(&before),
        vec![
            ProgramToken::ChangeAddr(isize::MAX),
            ProgramToken::ChangeAddr(-2),
        ]
    );
    let around = vec![
        ProgramToken::ChangeAddr(isize::MIN),
        ProgramToken::offs_change_value(-1, 1),
        ProgramToken::offs_change_value(1, 1),
    ];
    assert_eq!(
        postpone_moves(&around),
        vec![
            ProgramToken::ChangeAddr(isize::MIN),
            ProgramToken::offs_change_value(-1, 1),
            ProgramToken::offs_change_value(1, 1),
        ]
    );
    assert_eq!(
        optimize(&before),
        Ok(vec![ProgramToken::ChangeAddr(isize::MAX - 2)])
    );
}

#[test]
fn changes_of_one_cell_add_up_modulo_256() {
    let before = vec![
        ProgramToken::offs_change_value(4, 100),
        ProgramToken::offs_change_value(4, 100),
        ProgramToken::offs_change_value(5, -100),
        ProgramToken::offs_change_value(5, -29),
        ProgramToken::offs_change_value(6, 1),
        ProgramToken::offs_change_value(6, -1),
    ];
    assert_eq!(
        merge_instructions(&before),
        vec![
            ProgramToken::offs_change_value(4, -56),
            ProgramToken::offs_change_value(5, 127),
            ProgramToken::offs_change_value(6, 0),
        ]
    );
}

#[test]
fn move_change_and_move_back_collapse() {
    let before = vec![
        ProgramToken::ChangeAddr(2),
        ProgramToken::change_value(5),
        ProgramToken::ChangeAddr(-2),
        ProgramToken::ChangeAddr(7),
        ProgramToken::offs_change_value(1, 5),
        ProgramToken::ChangeAddr(-7),
        ProgramToken::ChangeAddr(3),
        ProgramToken::change_value(5),
        ProgramToken::ChangeAddr(-4),
    ];
    assert_eq!(
        merge_instructions(&before),
        vec![
            ProgramToken::offs_change_value(2, 5),
            ProgramToken::ChangeAddr(7),
            ProgramToken::offs_change_value(1, 5),
            ProgramToken::ChangeAddr(-4),
            ProgramToken::change_value(5),
            ProgramToken::ChangeAddr(-4),
        ]
    );
}

#[test]
fn collapsed_change_joins_the_change_behind_it() {
    let before = vec![
        ProgramToken::ChangeAddr(2),
        ProgramToken::change_value(5),
        ProgramToken::ChangeAddr(-2),
        ProgramToken::offs_change_value(2, 6),
    ];
    assert_eq!(
        merge_instructions(&before),
        vec![ProgramToken::offs_change_value(2, 11)]
    );
}

#[test]
fn sets_absorb_what_follows_on_their_cell() {
    let before = vec![
        ProgramToken::offs_set_value(1, 0),
        ProgramToken::offs_change_value(1, 9),
        ProgramToken::offs_change_value(1, 9),
        ProgramToken::offs_set_value(2, 4),
        ProgramToken::offs_set_value(2, 5),
        ProgramToken::offs_set_value(3, 5),
        ProgramToken::offs_set_value(4, 0),
        ProgramToken::offs_change_value(5, 1),
    ];
    assert_eq!(
        merge_instructions(&before),
        vec![
            ProgramToken::offs_set_value(1, 9),
            ProgramToken::offs_change_value(1, 9),
            ProgramToken::offs_set_value(2, 5),
            ProgramToken::offs_set_value(3, 5),
            ProgramToken::offs_set_value(4, 0),
            ProgramToken::offs_change_value(5, 1),
        ]
    );
}

#[test]
fn clear_loops_become_sets() {
    for step in [1i8, -1, 2, 127, -128] {
        let before = vec![ProgramToken::Loop(vec![ProgramToken::change_value(step)])];
        assert_eq!(optimize(&before), Ok(vec![ProgramToken::set_value(0)]));
        assert_eq!(
            merge_instructions(&before),
            vec![ProgramToken::set_value(0)]
        );
    }
    let merged_first = vec![ProgramToken::Loop(vec![
        ProgramToken::change_value(1),
        ProgramToken::change_value(1),
    ])];
    assert_eq!(
        merge_instructions(&merged_first),
        vec![ProgramToken::set_value(0)]
    );
    let followed = vec![
        ProgramToken::Loop(vec![ProgramToken::change_value(-1)]),
        ProgramToken::change_value(7),
    ];
    assert_eq!(
        merge_instructions(&followed),
        vec![ProgramToken::set_value(7)]
    );
}

#[test]
fn other_loops_are_kept() {
    let kept = vec![
        ProgramToken::Loop(vec![]),
        ProgramToken::Loop(vec![ProgramToken::change_value(0)]),
        ProgramToken::Loop(vec![ProgramToken::offs_change_value(1, 1)]),
        ProgramToken::Loop(vec![ProgramToken::set_value(1)]),
        ProgramToken::Loop(vec![ProgramToken::Loop(vec![
            ProgramToken::ChangeAddr(1),
            ProgramToken::ChangeAddr(1),
        ])]),
    ];
    assert_eq!(
        merge_instructions(&kept),
        vec![
            ProgramToken::Loop(vec![]),
            ProgramToken::Loop(vec![ProgramToken::change_value(0)]),
            ProgramToken::Loop(vec![ProgramToken::offs_change_value(1, 1)]),
            ProgramToken::Loop(vec![ProgramToken::set_value(1)]),
            ProgramToken::Loop(vec![ProgramToken::Loop(vec![ProgramToken::ChangeAddr(2)])]),
        ]
    );
    assert_eq!(
        optimize(&[ProgramToken::Loop(vec![])]),
        Ok(vec![ProgramToken::Loop(vec![])])
    );
}

#[test]
fn a_set_before_a_loop_is_not_fused_with_the_loop() {
    let before = vec![
        ProgramToken::set_value(1),
        ProgramToken::Loop(vec![ProgramToken::change_value(-1)]),
    ];
    assert_eq!(
        merge_instructions(&before),
        vec![ProgramToken::set_value(1), ProgramToken::set_value(0)]
    );
}

#[test]
fn optimizing_twice_changes_nothing_more() {
    let sources = [
        "++++++++[>++++[>++>+++>+++>+<<<<-]>+>+>->>+[<]<-]>>.>---.+++++++..+++.>>.<-.<.+++.------.--------.>>+.>++.",
        "+[-]>[+]<<>>[[-]>]",
        ">>><<<+-+-",
        "",
    ];
    for source in sources {
        let once = optimize_parsed(&parse_program(source)).unwrap();
        let twice = optimize(&once).unwrap();
        assert_eq!(once, twice);
        assert_eq!(
            postpone_moves(&merge_instructions(&once)),
            once
        );
    }
}

#[test]
fn postponed_moves_are_settled_before_loops_and_at_the_end() {
    assert_eq!(postpone_moves(&[]), vec![]);
    assert_eq!(
        postpone_moves(&[ProgramToken::ChangeAddr(1), ProgramToken::ChangeAddr(-1)]),
        vec![]
    );
    assert_eq!(
        postpone_moves(&[
            ProgramToken::ChangeAddr(1),
            ProgramToken::ChangeAddr(-1),
            ProgramToken::Loop(vec![]),
        ]),
        vec![ProgramToken::Loop(vec![])]
    );
    assert_eq!(
        postpone_moves(&[
            ProgramToken::ChangeAddr(5),
            ProgramToken::Loop(vec![ProgramToken::ChangeAddr(0)]),
            ProgramToken::change_value(1),
        ]),
        vec![
            ProgramToken::ChangeAddr(5),
            ProgramToken::Loop(vec![]),
            ProgramToken::change_value(1),
        ]
    );
}

#[test]
fn rounds_that_do_not_settle_in_time_are_reported() {
    let program = vec![
        ProgramToken::set_value(1),
        ProgramToken::Loop(vec![ProgramToken::change_value(-1)]),
    ];
    assert_eq!(
        optimize_within(&program, 0),
        Err(OptimizerError::NoFixedPoint)
    );
    assert_eq!(
        optimize_within(&program, 1),
        Err(OptimizerError::NoFixedPoint)
    );
    assert_eq!(
        optimize_within(&program, 2),
        Err(OptimizerError::NoFixedPoint)
    );
    assert_eq!(
        optimize_within(&program, 3),
        Ok(vec![ProgramToken::set_value(0)])
    );
    assert_eq!(optimize(&program), Ok(vec![ProgramToken::set_value(0)]));
    assert_eq!(optimize_within(&[], 0), Err(OptimizerError::NoFixedPoint));
    assert_eq!(optimize_within(&[], 1), Ok(vec![]));
}
