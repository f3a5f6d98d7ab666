//! The lexer: source text to the sequence of symbols it holds.

use crate::types::ParseToken;
use vstd::prelude::*;

verus! {

/// The symbol that a character stands for, if it stands for one.
pub open spec fn symbol_of(c: char) -> Option<ParseToken> {
    if c == '>' {
        Some(ParseToken::IncrAddr)
    } else if c == '<' {
        Some(ParseToken::DecrAddr)
    } else if c == '+' {
        Some(ParseToken::IncrValue)
    } else if c == '-' {
        Some(ParseToken::DecrValue)
    } else if c == '[' {
        Some(ParseToken::LoopStart)
    } else if c == ']' {
        Some(ParseToken::LoopEnd)
    } else if c == '.' {
        Some(ParseToken::Print)
    } else {
        None
    }
}

/// The symbols of a text, in order; every other character is left out.
pub open spec fn symbols_of(source: Seq<char>) -> Seq<ParseToken>
    decreases source.len(),
{
    if source.len() == 0 {
        Seq::empty()
    } else {
        match symbol_of(source.last()) {
            Some(token) => symbols_of(source.drop_last()).push(token),
            None => symbols_of(source.drop_last()),
        }
    }
}

/// The symbol that a character stands for, if it stands for one.
fn symbol(c: char) -> (token: Option<ParseToken>)
    ensures
        token == symbol_of(c),
{
    if c == '>' {
        Some(ParseToken::IncrAddr)
    } else if c == '<' {
        Some(ParseToken::DecrAddr)
    } else if c == '+' {
        Some(ParseToken::IncrValue)
    } else if c == '-' {
        Some(ParseToken::DecrValue)
    } else if c == '[' {
        Some(ParseToken::LoopStart)
    } else if c == ']' {
        Some(ParseToken::LoopEnd)
    } else if c == '.' {
        Some(ParseToken::Print)
    } else {
        None
    }
}

/// Reads the symbols of a source text; any other character is a comment.
pub fn parse_program(program: &str) -> (tokens: Vec<ParseToken>)
    ensures
        tokens@ == symbols_of(program@),
{
    let mut tokens: Vec<ParseToken> = Vec::new();
    let chars = program.chars();
    for c in it: chars
        invariant
            it.seq() == program@,
            tokens@ == symbols_of(program@.take(it.index() as int)),
    {
        proof {
            let k = it.index() as int;
            assert(program@.take(k + 1).drop_last() =~= program@.take(k));
        }
        match symbol(c) {
            Some(token) => {
                tokens.push(token);
            },
            None => {},
        }
    }
    assert(program@.take(program@.len() as int) =~= program@);
    tokens
}

} // verus!
