//! The eight operator symbols and the lexer that picks them out of raw text.

use vstd::prelude::*;
use crate::nesting::Bracket;

verus! {

/// One of the eight operators of the language.
#[derive(Clone, Copy, Debug, PartialEq, Eq, Structural)]
pub enum BrainFuckToken {
    MoveRight,
    MoveLeft,
    Incr,
    Decr,
    Output,
    Input,
    JumpForward,
    JumpBackward,
}

impl Bracket for BrainFuckToken {
    open spec fn nesting(&self) -> int {
        match *self {
            BrainFuckToken::JumpForward => 1,
            BrainFuckToken::JumpBackward => -1,
            _ => 0,
        }
    }
}

/// The operator that a character stands for, if it stands for one.
pub open spec fn token_of(c: char) -> Option<BrainFuckToken> {
    if c == '>' {
        Some(BrainFuckToken::MoveRight)
    } else if c == '<' {
        Some(BrainFuckToken::MoveLeft)
    } else if c == '+' {
        Some(BrainFuckToken::Incr)
    } else if c == '-' {
        Some(BrainFuckToken::Decr)
    } else if c == '.' {
        Some(BrainFuckToken::Output)
    } else if c == ',' {
        Some(BrainFuckToken::Input)
    } else if c == '[' {
        Some(BrainFuckToken::JumpForward)
    } else if c == ']' {
        Some(BrainFuckToken::JumpBackward)
    } else {
        None
    }
}

/// The operators of a text, in order; every other character is a comment.
pub open spec fn lexed(text: Seq<char>) -> Seq<BrainFuckToken>
    decreases text.len(),
{
    if text.len() == 0 {
        Seq::empty()
    } else {
        match token_of(text.last()) {
            Some(token) => lexed(text.drop_last()).push(token),
            None => lexed(text.drop_last()),
        }
    }
}

impl BrainFuckToken {
    /// Recognizes one character: an operator for each of `> < + - . , [ ]`,
    /// nothing for any other character.
    pub fn from_char(c: char) -> (token: Option<BrainFuckToken>)
        ensures
            token == token_of(c),
    {
        match c {
            '>' => Some(BrainFuckToken::MoveRight),
            '<' => Some(BrainFuckToken::MoveLeft),
            '+' => Some(BrainFuckToken::Incr),
            '-' => Some(BrainFuckToken::Decr),
            '.' => Some(BrainFuckToken::Output),
            ',' => Some(BrainFuckToken::Input),
            '[' => Some(BrainFuckToken::JumpForward),
            ']' => Some(BrainFuckToken::JumpBackward),
            _ => None,
        }
    }
}

/// Filters a source text down to its operators. Nothing is rejected.
pub fn lex(source: &str) -> (tokens: Vec<BrainFuckToken>)
    ensures
        tokens@ == lexed(source@),
{
    let mut tokens: Vec<BrainFuckToken> = Vec::new();
    for c in chars: source.chars()
        invariant
            chars.seq() == source@,
            tokens@ == lexed(source@.take(chars.index() as int)),
    {
        proof {
            assert(source@.take(chars.index() + 1).drop_last() =~= source@.take(
                chars.index() as int,
            ));
        }
        match BrainFuckToken::from_char(c) {
            Some(token) => tokens.push(token),
            None => {},
        }
    }
    proof {
        assert(source@.take(source@.len() as int) =~= source@);
    }
    tokens
}

} // verus!
