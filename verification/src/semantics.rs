//! What a syntax tree means: its effect on the machine, read in two ways.
//!
//! Read as it is written, every operator is a step and every loop tests the
//! current cell on entry and after every turn; the steps counted are those
//! of the plain instructions of the tree. Read as the optimizer sees it, a
//! run of operators is one step or none and a loop with a closed form is
//! one step; the steps counted are those of the optimized instructions.
//! Either way the fuel bounds the steps, so that a tree whose loops go on
//! for ever has a meaning too: for no fuel does it come to an end.

use vstd::prelude::*;
use crate::ast::AstNode;
use crate::machine::MachineState;
use crate::opcode::OpCode;
use crate::optimize::{idiom, lemma_run_bounds, run_end, run_net, RunKind};
use crate::tape::TapeModel;

verus! {

/// How far the execution of some nodes came within its fuel.
pub struct Outcome {
    /// The state behind the nodes, if they were all executed.
    pub state: MachineState,
    /// The steps that the nodes took.
    pub steps: nat,
    /// Whether the fuel sufficed to execute the nodes to their end.
    pub done: bool,
}

/// The nodes could not be executed to their end.
pub open spec fn out_of_fuel(state: MachineState) -> Outcome {
    Outcome { state, steps: 0, done: false }
}

/// The fuel left of `fuel` when `used` steps are taken.
pub open spec fn left(fuel: nat, used: nat) -> nat {
    if used <= fuel {
        (fuel - used) as nat
    } else {
        0
    }
}

/// One outcome after `steps` steps: that many steps more.
pub open spec fn later(steps: nat, outcome: Outcome) -> Outcome {
    Outcome { steps: steps + outcome.steps, ..outcome }
}

/// The effect of one operator. A loop is not an operator and has none.
pub open spec fn applied(node: AstNode, input: Seq<u8>, state: MachineState) -> MachineState {
    match node {
        AstNode::MoveRight => state.with_tape(state.tape.shifted(1)),
        AstNode::MoveLeft => state.with_tape(state.tape.shifted(-1)),
        AstNode::Increment => state.with_tape(state.tape.added(1)),
        AstNode::Decrement => state.with_tape(state.tape.added(-1)),
        AstNode::Input => state.read(input),
        AstNode::Output => state.written(),
        AstNode::Loop(_) => state,
    }
}

/// Executes one node within `fuel` steps: an operator takes one step.
pub open spec fn exec_node(node: AstNode, input: Seq<u8>, state: MachineState, fuel: nat) -> Outcome
    decreases fuel, node, 0int,
{
    match node {
        AstNode::Loop(body) => exec_loop(body@, input, state, fuel),
        _ => if fuel == 0 {
            out_of_fuel(state)
        } else {
            Outcome { state: applied(node, input, state), steps: 1, done: true }
        },
    }
}

/// Executes the nodes from index `i` on within `fuel` steps, one after the
/// other.
pub open spec fn exec_from(
    nodes: Seq<AstNode>,
    i: int,
    input: Seq<u8>,
    state: MachineState,
    fuel: nat,
) -> Outcome
    decreases fuel, nodes, nodes.len() - i,
{
    if 0 <= i < nodes.len() {
        let first = exec_node(nodes[i], input, state, fuel);
        if first.done {
            later(first.steps, exec_from(nodes, i + 1, input, first.state, left(fuel, first.steps)))
        } else {
            out_of_fuel(state)
        }
    } else {
        Outcome { state, steps: 0, done: true }
    }
}

/// Executes a loop with this body within `fuel` steps: the body is
/// repeated while the current cell is not zero. The test at the loop start
/// takes one step and the test at the loop end another.
pub open spec fn exec_loop(
    body: Seq<AstNode>,
    input: Seq<u8>,
    state: MachineState,
    fuel: nat,
) -> Outcome
    decreases fuel, body, body.len() + 1,
{
    if fuel < 2 {
        out_of_fuel(state)
    } else if state.tape.current() == 0 {
        Outcome { state, steps: 2, done: true }
    } else {
        let once = exec_from(body, 0, input, state, (fuel - 1) as nat);
        if !once.done || once.steps + 2 > fuel {
            out_of_fuel(state)
        } else if once.state.tape.current() != 0 {
            later(once.steps + 2, exec_loop(body, input, once.state, left(fuel, once.steps + 2)))
        } else {
            Outcome { state: once.state, steps: once.steps + 2, done: true }
        }
    }
}

/// The state after a run of the kind with net effect `net`.
pub open spec fn swept(kind: RunKind, state: MachineState, net: int) -> MachineState {
    match kind {
        RunKind::Cell => state.with_tape(state.tape.added(net)),
        RunKind::Cursor => state.with_tape(state.tape.shifted(net)),
    }
}

/// The state in which a loop ends that has the closed form `op`; nothing
/// for a seek that finds no zero cell, which never ends.
pub open spec fn closed_form(op: OpCode, input: Seq<u8>, state: MachineState) -> Option<
    MachineState,
> {
    match op {
        OpCode::SetZero => Some(state.with_tape(state.tape.stored(0))),
        OpCode::SetMax => Some(state.with_tape(state.tape.stored(0))),
        OpCode::DrainInput => Some(state.drained(input)),
        OpCode::SeekZero(stride) => match state.tape.seek_zero(stride as int) {
            Some(cursor) => Some(state.with_tape(TapeModel { cursor, cells: state.tape.cells })),
            None => None,
        },
        _ => None,
    }
}

/// Executes the nodes from index `i` on as the optimizer sees them, within
/// `fuel` steps: a run is one step, or none where it cancels out, and a
/// loop with a closed form is one step.
pub open spec fn quick_from(
    nodes: Seq<AstNode>,
    i: int,
    input: Seq<u8>,
    state: MachineState,
    fuel: nat,
) -> Outcome
    decreases fuel, nodes, 2 * (nodes.len() - i),
{
    if 0 <= i < nodes.len() {
        match nodes[i] {
            AstNode::Increment | AstNode::Decrement => {
                proof {
                    lemma_run_bounds(nodes, i, RunKind::Cell);
                }
                quick_run(nodes, i, RunKind::Cell, input, state, fuel)
            },
            AstNode::MoveRight | AstNode::MoveLeft => {
                proof {
                    lemma_run_bounds(nodes, i, RunKind::Cursor);
                }
                quick_run(nodes, i, RunKind::Cursor, input, state, fuel)
            },
            AstNode::Loop(_) => {
                let first = quick_loop(nodes[i], input, state, fuel);
                if first.done {
                    later(
                        first.steps,
                        quick_from(nodes, i + 1, input, first.state, left(fuel, first.steps)),
                    )
                } else {
                    out_of_fuel(state)
                }
            },
            _ => if fuel == 0 {
                out_of_fuel(state)
            } else {
                later(
                    1,
                    quick_from(
                        nodes,
                        i + 1,
                        input,
                        applied(nodes[i], input, state),
                        (fuel - 1) as nat,
                    ),
                )
            },
        }
    } else {
        Outcome { state, steps: 0, done: true }
    }
}

/// Executes the longest run of the kind that starts at index `i`, and the
/// nodes behind it, as the optimizer sees them.
pub open spec fn quick_run(
    nodes: Seq<AstNode>,
    i: int,
    kind: RunKind,
    input: Seq<u8>,
    state: MachineState,
    fuel: nat,
) -> Outcome
    decreases fuel, nodes, 2 * (nodes.len() - i) - 1,
    when 0 <= i < run_end(nodes, i, kind) <= nodes.len()
{
    let net = run_net(nodes, i, kind);
    let end = run_end(nodes, i, kind);
    if net == 0 {
        quick_from(nodes, end, input, state, fuel)
    } else if fuel == 0 {
        out_of_fuel(state)
    } else {
        later(1, quick_from(nodes, end, input, swept(kind, state, net), (fuel - 1) as nat))
    }
}

/// Executes one loop as the optimizer sees it.
pub open spec fn quick_loop(
    node: AstNode,
    input: Seq<u8>,
    state: MachineState,
    fuel: nat,
) -> Outcome
    decreases fuel, node, 0int,
{
    match node {
        AstNode::Loop(body) => match idiom(body@) {
            Some(op) => match closed_form(op, input, state) {
                Some(after) => if fuel == 0 {
                    out_of_fuel(state)
                } else {
                    Outcome { state: after, steps: 1, done: true }
                },
                None => out_of_fuel(state),
            },
            None => quick_while(body@, input, state, fuel),
        },
        _ => Outcome { state, steps: 0, done: true },
    }
}

/// Executes a loop without closed form as the optimizer sees it: its body
/// is repeated while the current cell is not zero.
pub open spec fn quick_while(
    body: Seq<AstNode>,
    input: Seq<u8>,
    state: MachineState,
    fuel: nat,
) -> Outcome
    decreases fuel, body, body.len() + 1,
{
    if fuel < 2 {
        out_of_fuel(state)
    } else if state.tape.current() == 0 {
        Outcome { state, steps: 2, done: true }
    } else {
        let once = quick_from(body, 0, input, state, (fuel - 1) as nat);
        if !once.done || once.steps + 2 > fuel {
            out_of_fuel(state)
        } else if once.state.tape.current() != 0 {
            later(once.steps + 2, quick_while(body, input, once.state, left(fuel, once.steps + 2)))
        } else {
            Outcome { state: once.state, steps: once.steps + 2, done: true }
        }
    }
}

} // verus!
