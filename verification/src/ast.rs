//! The syntax tree and the recursive-descent builder that produces it.

use vstd::prelude::*;
use crate::nesting::{balanced, depth, excess_close_at, pending_open_at};
use crate::token::BrainFuckToken;

verus! {

/// A node of the syntax tree. A loop owns its body.
#[derive(Debug, PartialEq, Eq)]
pub enum AstNode {
    MoveRight,
    MoveLeft,
    Increment,
    Decrement,
    Input,
    Output,
    Loop(Vec<AstNode>),
}

/// Why a token stream is not a program.
#[derive(Clone, Copy, Debug, PartialEq, Eq, Structural)]
pub enum ParseError {
    /// The loop opened at token index `position` is never closed.
    UnmatchedOpen { position: usize },
    /// The loop end at token index `position` closes no loop.
    UnmatchedClose { position: usize },
}

/// The tokens that one node was built from.
pub open spec fn node_tokens(node: AstNode) -> Seq<BrainFuckToken>
    decreases node,
{
    match node {
        AstNode::MoveRight => seq![BrainFuckToken::MoveRight],
        AstNode::MoveLeft => seq![BrainFuckToken::MoveLeft],
        AstNode::Increment => seq![BrainFuckToken::Incr],
        AstNode::Decrement => seq![BrainFuckToken::Decr],
        AstNode::Input => seq![BrainFuckToken::Input],
        AstNode::Output => seq![BrainFuckToken::Output],
        AstNode::Loop(body) => seq![BrainFuckToken::JumpForward] + tokens_of(body@)
            + seq![BrainFuckToken::JumpBackward],
    }
}

/// The tokens that a sequence of nodes was built from.
pub open spec fn tokens_of(nodes: Seq<AstNode>) -> Seq<BrainFuckToken>
    decreases nodes,
{
    if nodes.len() == 0 {
        Seq::empty()
    } else {
        tokens_of(nodes.drop_last()) + node_tokens(nodes.last())
    }
}

/// Builds the nodes of one nesting level, from `start` up to the loop end
/// that closes the level or to the end of the input, and says where it
/// stopped.
fn parse_block(tokens: &Vec<BrainFuckToken>, start: usize) -> (result: Result<
    (Vec<AstNode>, usize),
    ParseError,
>)
    requires
        start <= tokens.len(),
    ensures
        match result {
            Ok((nodes, next)) => {
                &&& start <= next <= tokens.len()
                &&& tokens@.subrange(start as int, next as int) == tokens_of(nodes@)
                &&& next < tokens.len() ==> tokens[next as int] == BrainFuckToken::JumpBackward
                &&& depth(tokens@, next as int) == depth(tokens@, start as int)
                &&& forall|k: int|
                    start <= k <= next ==> depth(tokens@, k) >= depth(tokens@, start as int)
            },
            Err(ParseError::UnmatchedOpen { position }) => {
                &&& start <= position < tokens.len()
                &&& tokens[position as int] == BrainFuckToken::JumpForward
                &&& forall|k: int|
                    start <= k <= tokens.len() ==> depth(tokens@, k) >= depth(
                        tokens@,
                        start as int,
                    )
                &&& forall|k: int|
                    position < k <= tokens.len() ==> depth(tokens@, k) > depth(
                        tokens@,
                        position as int,
                    )
                &&& depth(tokens@, tokens.len() as int) == depth(tokens@, position as int) + 1
            },
            Err(ParseError::UnmatchedClose { .. }) => false,
        },
    decreases tokens.len() - start,
{
    let mut nodes: Vec<AstNode> = Vec::new();
    let mut pos: usize = start;
    proof {
        assert(tokens@.subrange(start as int, start as int) =~= Seq::empty());
    }
    while pos < tokens.len()
        invariant
            start <= pos <= tokens.len(),
            tokens@.subrange(start as int, pos as int) == tokens_of(nodes@),
            depth(tokens@, pos as int) == depth(tokens@, start as int),
            forall|k: int| start <= k <= pos ==> depth(tokens@, k) >= depth(tokens@, start as int),
        decreases tokens.len() - pos,
    {
        let ghost before = nodes@;
        let token = tokens[pos];
        let node = match token {
            BrainFuckToken::JumpBackward => {
                return Ok((nodes, pos));
            },
            BrainFuckToken::JumpForward => {
                match parse_block(tokens, pos + 1) {
                    Ok((body, close)) => {
                        if close >= tokens.len() {
                            return Err(ParseError::UnmatchedOpen { position: pos });
                        }
                        proof {
                            assert(tokens@.subrange(pos as int, close + 1) =~= seq![
                                BrainFuckToken::JumpForward,
                            ] + tokens@.subrange(pos + 1, close as int) + seq![
                                BrainFuckToken::JumpBackward,
                            ]);
                        }
                        let node = AstNode::Loop(body);
                        pos = close;
                        node
                    },
                    Err(e) => {
                        return Err(e);
                    },
                }
            },
            BrainFuckToken::MoveRight => AstNode::MoveRight,
            BrainFuckToken::MoveLeft => AstNode::MoveLeft,
            BrainFuckToken::Incr => AstNode::Increment,
            BrainFuckToken::Decr => AstNode::Decrement,
            BrainFuckToken::Input => AstNode::Input,
            BrainFuckToken::Output => AstNode::Output,
        };
        proof {
            assert(before.push(node).drop_last() =~= before);
            assert(tokens@.subrange(start as int, pos + 1) =~= tokens_of(before) + node_tokens(
                node,
            ));
        }
        nodes.push(node);
        pos = pos + 1;
    }
    Ok((nodes, pos))
}

/// Builds the syntax tree of a token stream.
///
/// The stream is a program exactly when its loop brackets are balanced; the
/// tree then spells the stream again, token for token. Otherwise the first
/// loop end without a loop start is reported, or, where there is none, the
/// innermost loop start that is still open at the end of the input.
pub fn parse(tokens: &Vec<BrainFuckToken>) -> (result: Result<Vec<AstNode>, ParseError>)
    ensures
        result is Ok <==> balanced(tokens@),
        match result {
            Ok(nodes) => tokens_of(nodes@) == tokens@,
            Err(ParseError::UnmatchedOpen { position }) => pending_open_at(
                tokens@,
                position as int,
            ),
            Err(ParseError::UnmatchedClose { position }) => excess_close_at(
                tokens@,
                position as int,
            ),
        },
{
    match parse_block(tokens, 0) {
        Ok((nodes, next)) => {
            if next < tokens.len() {
                proof {
                    assert(depth(tokens@, next + 1) < 0);
                }
                Err(ParseError::UnmatchedClose { position: next })
            } else {
                proof {
                    assert(tokens@.subrange(0, next as int) =~= tokens@);
                }
                Ok(nodes)
            }
        },
        Err(e) => {
            proof {
                let p = e->UnmatchedOpen_position as int;
                assert(depth(tokens@, p + 1) > depth(tokens@, p));
            }
            Err(e)
        },
    }
}

} // verus!
