use bfcrs::types::{
    clone_token, clone_tokens, same_token, same_tokens, tokens_of, MemoryOp, ProgramToken,
};

#[test]
fn constructors_build_offset_tokens() {
    assert_eq!(
        ProgramToken::change_value(3),
        ProgramToken::Offset(0, MemoryOp::ChangeValue(3))
    );
    assert_eq!(
        ProgramToken::offs_change_value(-2, 3),
        ProgramToken::Offset(-2, MemoryOp::ChangeValue(3))
    );
    assert_eq!(
        ProgramToken::set_value(7),
        ProgramToken::Offset(0, MemoryOp::SetValue(7))
    );
    assert_eq!(
        ProgramToken::offs_set_value(5, -1),
        ProgramToken::Offset(5, MemoryOp::SetValue(-1))
    );
}

#[test]
fn clone_copies_nested_loops() {
    let tree = vec![
        ProgramToken::ChangeAddr(2),
        ProgramToken::Loop(vec![
            ProgramToken::change_value(-1),
            ProgramToken::Loop(vec![ProgramToken::Offset(1, MemoryOp::Print)]),
        ]),
    ];
    assert_eq!(tree.clone(), tree);
}

#[test]
fn same_tokens_compares_whole_trees() {
    let tree = vec![
        ProgramToken::ChangeAddr(2),
        ProgramToken::Loop(vec![
            ProgramToken::change_value(-1),
            ProgramToken::Loop(vec![ProgramToken::Offset(1, MemoryOp::Print)]),
        ]),
    ];
    let copy = clone_tokens(&tree);
    assert_eq!(copy, tree);
    assert!(same_tokens(&copy, &tree));
    assert!(same_tokens(tokens_of(&copy), &tree));
    assert!(same_tokens(&[], &[]));
    assert!(!same_tokens(&tree, &tree[..1]));
    assert!(!same_tokens(&tree[..1], &tree));

    let other = vec![
        ProgramToken::ChangeAddr(2),
        ProgramToken::Loop(vec![
            ProgramToken::change_value(-1),
            ProgramToken::Loop(vec![ProgramToken::Offset(2, MemoryOp::Print)]),
        ]),
    ];
    assert!(!same_tokens(&tree, &other));
    assert!(same_token(&tree[1], &clone_token(&tree[1])));
    assert!(!same_token(&tree[1], &other[1]));
    assert!(!same_token(&tree[0], &tree[1]));
    assert!(!same_token(
        &ProgramToken::change_value(1),
        &ProgramToken::set_value(1)
    ));
    assert!(!same_token(
        &ProgramToken::ChangeAddr(1),
        &ProgramToken::ChangeAddr(-1)
    ));
    assert!(same_token(
        &ProgramToken::Loop(vec![]),
        &ProgramToken::Loop(vec![])
    ));
}
