//! From the syntax tree to flat instructions: the plain lowering, and the
//! peephole optimizer that collapses runs and specializes loop idioms.

use vstd::prelude::*;
use crate::ast::AstNode;
use crate::nesting::{
    balanced,
    lemma_balanced_concat,
    lemma_balanced_empty,
    lemma_balanced_flat,
    lemma_balanced_nest,
};
use crate::opcode::OpCode;

verus! {

/// The two kinds of run that collapse into one instruction.
#[derive(Clone, Copy, Debug, PartialEq, Eq, Structural)]
pub enum RunKind {
    /// Increments and decrements of the current cell.
    Cell,
    /// Moves of the cursor to the right and to the left.
    Cursor,
}

/// What one node adds to a run of the kind: `1` or `-1` for a node of the
/// kind, `0` for any other node.
pub open spec fn unit(node: AstNode, kind: RunKind) -> int {
    match (kind, node) {
        (RunKind::Cell, AstNode::Increment) => 1,
        (RunKind::Cell, AstNode::Decrement) => -1,
        (RunKind::Cursor, AstNode::MoveRight) => 1,
        (RunKind::Cursor, AstNode::MoveLeft) => -1,
        _ => 0,
    }
}

/// The node belongs to runs of the kind.
pub open spec fn in_run(node: AstNode, kind: RunKind) -> bool {
    unit(node, kind) != 0
}

/// Index behind the longest run of the kind that starts at index `i`.
pub open spec fn run_end(nodes: Seq<AstNode>, i: int, kind: RunKind) -> int
    decreases nodes.len() - i,
{
    if 0 <= i < nodes.len() && in_run(nodes[i], kind) {
        run_end(nodes, i + 1, kind)
    } else {
        i
    }
}

/// Net effect of the longest run of the kind that starts at index `i`.
pub open spec fn run_net(nodes: Seq<AstNode>, i: int, kind: RunKind) -> int
    decreases nodes.len() - i,
{
    if 0 <= i < nodes.len() && in_run(nodes[i], kind) {
        unit(nodes[i], kind) + run_net(nodes, i + 1, kind)
    } else {
        0
    }
}

/// The instruction that a run of the kind with net effect `net` collapses
/// into: none where the run cancels out.
pub open spec fn collapsed(kind: RunKind, net: int) -> Seq<OpCode> {
    if net == 0 {
        Seq::empty()
    } else {
        match kind {
            RunKind::Cell => seq![OpCode::Add(net as i128)],
            RunKind::Cursor => seq![OpCode::Shift(net as i128)],
        }
    }
}

/// The instruction that stands for a loop with this body, where the body is
/// one node whose repetition has a closed form.
pub open spec fn idiom(body: Seq<AstNode>) -> Option<OpCode> {
    if body.len() == 1 {
        match body[0] {
            AstNode::Decrement => Some(OpCode::SetZero),
            AstNode::Increment => Some(OpCode::SetMax),
            AstNode::MoveRight => Some(OpCode::SeekZero(1)),
            AstNode::MoveLeft => Some(OpCode::SeekZero(-1i128)),
            AstNode::Input => Some(OpCode::DrainInput),
            _ => None,
        }
    } else {
        None
    }
}

/// A run ends at or behind its start, within the nodes, and its net effect
/// is no larger than its length.
pub proof fn lemma_run_bounds(nodes: Seq<AstNode>, i: int, kind: RunKind)
    requires
        0 <= i <= nodes.len(),
    ensures
        i <= run_end(nodes, i, kind) <= nodes.len(),
        i < nodes.len() && in_run(nodes[i], kind) ==> i < run_end(nodes, i, kind),
        -(run_end(nodes, i, kind) - i) <= run_net(nodes, i, kind) <= run_end(nodes, i, kind) - i,
    decreases nodes.len() - i,
{
    if i < nodes.len() && in_run(nodes[i], kind) {
        lemma_run_bounds(nodes, i + 1, kind);
    }
}

/// The optimized instructions of the nodes from index `i` on, jump targets
/// not yet resolved.
///
/// A longest run of increments and decrements becomes one `Add` of its net
/// effect, a longest run of moves one `Shift`, and nothing where the run
/// cancels out. A loop becomes its idiom where it has one, and else a
/// `JumpIfZero`, its optimized body and a `JumpIfNonZero`.
pub open spec fn optimized_from(nodes: Seq<AstNode>, i: int) -> Seq<OpCode>
    decreases nodes, nodes.len() - i,
{
    if 0 <= i < nodes.len() {
        match nodes[i] {
            AstNode::Increment | AstNode::Decrement => {
                proof {
                    lemma_run_bounds(nodes, i, RunKind::Cell);
                }
                collapsed(RunKind::Cell, run_net(nodes, i, RunKind::Cell)) + optimized_from(
                    nodes,
                    run_end(nodes, i, RunKind::Cell),
                )
            },
            AstNode::MoveRight | AstNode::MoveLeft => {
                proof {
                    lemma_run_bounds(nodes, i, RunKind::Cursor);
                }
                collapsed(RunKind::Cursor, run_net(nodes, i, RunKind::Cursor)) + optimized_from(
                    nodes,
                    run_end(nodes, i, RunKind::Cursor),
                )
            },
            AstNode::Output => seq![OpCode::Output] + optimized_from(nodes, i + 1),
            AstNode::Input => seq![OpCode::Input] + optimized_from(nodes, i + 1),
            AstNode::Loop(body) => optimized_loop(nodes[i]) + optimized_from(nodes, i + 1),
        }
    } else {
        Seq::empty()
    }
}

/// The optimized instructions of one loop.
pub open spec fn optimized_loop(node: AstNode) -> Seq<OpCode>
    decreases node, 0int,
{
    match node {
        AstNode::Loop(body) => match idiom(body@) {
            Some(op) => seq![op],
            None => seq![OpCode::JumpIfZero(0)] + optimized_from(body@, 0) + seq![
                OpCode::JumpIfNonZero(0),
            ],
        },
        _ => Seq::empty(),
    }
}

/// The optimized instructions of a tree.
pub open spec fn optimized(nodes: Seq<AstNode>) -> Seq<OpCode> {
    optimized_from(nodes, 0)
}

/// The plain instructions of one node: one instruction for an operator, a
/// jump pair around the plain body for a loop.
pub open spec fn lowered_node(node: AstNode) -> Seq<OpCode>
    decreases node, 0int,
{
    match node {
        AstNode::MoveRight => seq![OpCode::Shift(1)],
        AstNode::MoveLeft => seq![OpCode::Shift(-1i128)],
        AstNode::Increment => seq![OpCode::Add(1)],
        AstNode::Decrement => seq![OpCode::Add(-1i128)],
        AstNode::Input => seq![OpCode::Input],
        AstNode::Output => seq![OpCode::Output],
        AstNode::Loop(body) => seq![OpCode::JumpIfZero(0)] + lowered_from(body@, 0) + seq![
            OpCode::JumpIfNonZero(0),
        ],
    }
}

/// The plain instructions of the nodes from index `i` on, jump targets not
/// yet resolved.
pub open spec fn lowered_from(nodes: Seq<AstNode>, i: int) -> Seq<OpCode>
    decreases nodes, nodes.len() - i,
{
    if 0 <= i < nodes.len() {
        lowered_node(nodes[i]) + lowered_from(nodes, i + 1)
    } else {
        Seq::empty()
    }
}

/// The plain instructions of a tree: nothing collapsed, every loop a jump
/// pair.
pub open spec fn lowered(nodes: Seq<AstNode>) -> Seq<OpCode> {
    lowered_from(nodes, 0)
}

/// Measures the longest run of the kind that starts at `start`: its net
/// effect and the index behind it. Every node of the run is of the kind,
/// and the node behind it, if there is one, is not. Where no node of the
/// kind stands at `start`, be it that `start` lies at or behind the end of
/// the nodes, the run is empty: no effect, and it ends where it starts.
pub fn find_token_run(nodes: &Vec<AstNode>, start: usize, kind: RunKind) -> (run: (i128, usize))
    ensures
        run.0 == run_net(nodes@, start as int, kind),
        run.1 == run_end(nodes@, start as int, kind),
        start >= nodes.len() || !in_run(nodes[start as int], kind) ==> run == (0i128, start),
        start <= run.1,
        run.1 <= nodes.len() || run.1 == start,
        forall|j: int| start <= j < run.1 ==> in_run(#[trigger] nodes[j], kind),
        run.1 >= nodes.len() || !in_run(nodes[run.1 as int], kind),
        -(run.1 - start) <= run.0 <= run.1 - start,
{
    let mut net: i128 = 0;
    let mut pos: usize = start;
    loop
        invariant
            start <= pos,
            pos <= nodes.len() || pos == start,
            forall|j: int| start <= j < pos ==> in_run(#[trigger] nodes[j], kind),
            -(pos - start) <= net <= pos - start,
            net + run_net(nodes@, pos as int, kind) == run_net(nodes@, start as int, kind),
            run_end(nodes@, pos as int, kind) == run_end(nodes@, start as int, kind),
        decreases nodes.len() - pos,
    {
        if pos >= nodes.len() {
            return (net, pos);
        }
        let amount: i128 = match (kind, &nodes[pos]) {
            (RunKind::Cell, AstNode::Increment) => 1,
            (RunKind::Cell, AstNode::Decrement) => -1,
            (RunKind::Cursor, AstNode::MoveRight) => 1,
            (RunKind::Cursor, AstNode::MoveLeft) => -1,
            _ => 0,
        };
        if amount == 0 {
            return (net, pos);
        }
        net = net + amount;
        pos = pos + 1;
    }
}

/// Collapses the longest run of the kind that starts at `start` into at
/// most one instruction, appended to `out`, and returns the index behind
/// the run. Where the run is empty nothing is appended and `start` comes
/// back.
pub fn collapse_tokens(
    nodes: &Vec<AstNode>,
    start: usize,
    kind: RunKind,
    out: &mut Vec<OpCode>,
) -> (end: usize)
    ensures
        end == run_end(nodes@, start as int, kind),
        final(out)@ == old(out)@ + collapsed(kind, run_net(nodes@, start as int, kind)),
        start >= nodes.len() || !in_run(nodes[start as int], kind) ==> {
            &&& end == start
            &&& final(out)@ == old(out)@
        },
        start <= end,
        end <= nodes.len() || end == start,
{
    let (net, end) = find_token_run(nodes, start, kind);
    if net != 0 {
        match kind {
            RunKind::Cell => out.push(OpCode::Add(net)),
            RunKind::Cursor => out.push(OpCode::Shift(net)),
        }
    }
    proof {
        assert(out@ =~= old(out)@ + collapsed(kind, net as int));
    }
    end
}

/// Recognizes a loop body whose repetition has a closed form and gives the
/// instruction that stands for the whole loop.
pub fn handle_zero_out(body: &Vec<AstNode>) -> (op: Option<OpCode>)
    ensures
        op == idiom(body@),
{
    if body.len() != 1 {
        return None;
    }
    match &body[0] {
        AstNode::Decrement => Some(OpCode::SetZero),
        AstNode::Increment => Some(OpCode::SetMax),
        AstNode::MoveRight => Some(OpCode::SeekZero(1)),
        AstNode::MoveLeft => Some(OpCode::SeekZero(-1)),
        AstNode::Input => Some(OpCode::DrainInput),
        _ => None,
    }
}

/// Appends the optimized instructions of a tree.
fn optimize_into(nodes: &Vec<AstNode>, out: &mut Vec<OpCode>)
    ensures
        final(out)@ == old(out)@ + optimized(nodes@),
    decreases nodes,
{
    let mut pos: usize = 0;
    proof {
        assert(out@ + optimized_from(nodes@, 0) =~= old(out)@ + optimized(nodes@));
    }
    while pos < nodes.len()
        invariant
            pos <= nodes.len(),
            out@ + optimized_from(nodes@, pos as int) == old(out)@ + optimized(nodes@),
        decreases nodes.len() - pos,
    {
        let ghost before = out@;
        let ghost rest = optimized_from(nodes@, pos as int);
        match &nodes[pos] {
            AstNode::Increment | AstNode::Decrement => {
                let end = collapse_tokens(nodes, pos, RunKind::Cell, out);
                proof {
                    lemma_run_bounds(nodes@, pos as int, RunKind::Cell);
                    assert(out@ + optimized_from(nodes@, end as int) =~= before + rest);
                }
                pos = end;
            },
            AstNode::MoveRight | AstNode::MoveLeft => {
                let end = collapse_tokens(nodes, pos, RunKind::Cursor, out);
                proof {
                    lemma_run_bounds(nodes@, pos as int, RunKind::Cursor);
                    assert(out@ + optimized_from(nodes@, end as int) =~= before + rest);
                }
                pos = end;
            },
            AstNode::Output => {
                out.push(OpCode::Output);
                proof {
                    assert(out@ + optimized_from(nodes@, pos + 1) =~= before + rest);
                }
                pos = pos + 1;
            },
            AstNode::Input => {
                out.push(OpCode::Input);
                proof {
                    assert(out@ + optimized_from(nodes@, pos + 1) =~= before + rest);
                }
                pos = pos + 1;
            },
            AstNode::Loop(body) => {
                match handle_zero_out(body) {
                    Some(op) => {
                        out.push(op);
                    },
                    None => {
                        out.push(OpCode::JumpIfZero(0));
                        optimize_into(body, out);
                        out.push(OpCode::JumpIfNonZero(0));
                    },
                }
                proof {
                    assert(out@ =~= before + optimized_loop(nodes@[pos as int]));
                    assert(out@ + optimized_from(nodes@, pos + 1) =~= before + rest);
                }
                pos = pos + 1;
            },
        }
    }
    proof {
        assert(out@ + optimized_from(nodes@, pos as int) =~= out@);
    }
}

/// Rewrites a tree into its optimized flat instructions. Jump targets are
/// left at the placeholder for the resolver.
pub fn optimize(nodes: &Vec<AstNode>) -> (ops: Vec<OpCode>)
    ensures
        ops@ == optimized(nodes@),
{
    let mut ops: Vec<OpCode> = Vec::new();
    optimize_into(nodes, &mut ops);
    proof {
        assert(Seq::<OpCode>::empty() + optimized(nodes@) =~= optimized(nodes@));
    }
    ops
}

/// Appends the plain instructions of a tree.
fn lower_into(nodes: &Vec<AstNode>, out: &mut Vec<OpCode>)
    ensures
        final(out)@ == old(out)@ + lowered(nodes@),
    decreases nodes,
{
    let mut pos: usize = 0;
    proof {
        assert(out@ + lowered_from(nodes@, 0) =~= old(out)@ + lowered(nodes@));
    }
    while pos < nodes.len()
        invariant
            pos <= nodes.len(),
            out@ + lowered_from(nodes@, pos as int) == old(out)@ + lowered(nodes@),
        decreases nodes.len() - pos,
    {
        let ghost before = out@;
        let ghost rest = lowered_from(nodes@, pos as int);
        match &nodes[pos] {
            AstNode::MoveRight => out.push(OpCode::Shift(1)),
            AstNode::MoveLeft => out.push(OpCode::Shift(-1)),
            AstNode::Increment => out.push(OpCode::Add(1)),
            AstNode::Decrement => out.push(OpCode::Add(-1)),
            AstNode::Input => out.push(OpCode::Input),
            AstNode::Output => out.push(OpCode::Output),
            AstNode::Loop(body) => {
                out.push(OpCode::JumpIfZero(0));
                lower_into(body, out);
                out.push(OpCode::JumpIfNonZero(0));
            },
        }
        proof {
            assert(out@ =~= before + lowered_node(nodes@[pos as int]));
            assert(out@ + lowered_from(nodes@, pos + 1) =~= before + rest);
        }
        pos = pos + 1;
    }
    proof {
        assert(out@ + lowered_from(nodes@, pos as int) =~= out@);
    }
}

/// Rewrites a tree into its plain flat instructions: one instruction for
/// every operator and a jump pair for every loop, nothing collapsed and no
/// idiom specialized. Jump targets are left at the placeholder for the
/// resolver.
pub fn lower(nodes: &Vec<AstNode>) -> (ops: Vec<OpCode>)
    ensures
        ops@ == lowered(nodes@),
{
    let mut ops: Vec<OpCode> = Vec::new();
    lower_into(nodes, &mut ops);
    proof {
        assert(Seq::<OpCode>::empty() + lowered(nodes@) =~= lowered(nodes@));
    }
    ops
}

/// Optimized instructions are balanced: whatever the tree, its loops pair up.
pub proof fn lemma_optimized_balanced(nodes: Seq<AstNode>, i: int)
    ensures
        balanced(optimized_from(nodes, i)),
    decreases nodes, nodes.len() - i,
{
    if 0 <= i < nodes.len() {
        match nodes[i] {
            AstNode::Increment | AstNode::Decrement => {
                lemma_run_bounds(nodes, i, RunKind::Cell);
                lemma_collapsed_balanced(RunKind::Cell, run_net(nodes, i, RunKind::Cell));
                lemma_optimized_balanced(nodes, run_end(nodes, i, RunKind::Cell));
                lemma_balanced_concat(
                    collapsed(RunKind::Cell, run_net(nodes, i, RunKind::Cell)),
                    optimized_from(nodes, run_end(nodes, i, RunKind::Cell)),
                );
            },
            AstNode::MoveRight | AstNode::MoveLeft => {
                lemma_run_bounds(nodes, i, RunKind::Cursor);
                lemma_collapsed_balanced(RunKind::Cursor, run_net(nodes, i, RunKind::Cursor));
                lemma_optimized_balanced(nodes, run_end(nodes, i, RunKind::Cursor));
                lemma_balanced_concat(
                    collapsed(RunKind::Cursor, run_net(nodes, i, RunKind::Cursor)),
                    optimized_from(nodes, run_end(nodes, i, RunKind::Cursor)),
                );
            },
            AstNode::Output => {
                lemma_balanced_flat(OpCode::Output);
                lemma_optimized_balanced(nodes, i + 1);
                lemma_balanced_concat(seq![OpCode::Output], optimized_from(nodes, i + 1));
            },
            AstNode::Input => {
                lemma_balanced_flat(OpCode::Input);
                lemma_optimized_balanced(nodes, i + 1);
                lemma_balanced_concat(seq![OpCode::Input], optimized_from(nodes, i + 1));
            },
            AstNode::Loop(body) => {
                lemma_optimized_loop_balanced(nodes[i]);
                lemma_optimized_balanced(nodes, i + 1);
                lemma_balanced_concat(optimized_loop(nodes[i]), optimized_from(nodes, i + 1));
            },
        }
    } else {
        lemma_balanced_empty::<OpCode>();
    }
}

/// The optimized instructions of one loop are balanced.
pub proof fn lemma_optimized_loop_balanced(node: AstNode)
    ensures
        balanced(optimized_loop(node)),
    decreases node, 0int,
{
    match node {
        AstNode::Loop(body) => match idiom(body@) {
            Some(op) => {
                lemma_balanced_flat(op);
            },
            None => {
                lemma_optimized_balanced(body@, 0);
                lemma_balanced_nest(
                    OpCode::JumpIfZero(0),
                    optimized_from(body@, 0),
                    OpCode::JumpIfNonZero(0),
                );
            },
        },
        _ => {
            lemma_balanced_empty::<OpCode>();
        },
    }
}

/// What a run collapses into is balanced.
proof fn lemma_collapsed_balanced(kind: RunKind, net: int)
    ensures
        balanced(collapsed(kind, net)),
{
    if net == 0 {
        lemma_balanced_empty::<OpCode>();
    } else {
        match kind {
            RunKind::Cell => lemma_balanced_flat(OpCode::Add(net as i128)),
            RunKind::Cursor => lemma_balanced_flat(OpCode::Shift(net as i128)),
        }
    }
}

/// Plain instructions are balanced.
pub proof fn lemma_lowered_balanced(nodes: Seq<AstNode>, i: int)
    ensures
        balanced(lowered_from(nodes, i)),
    decreases nodes, nodes.len() - i,
{
    if 0 <= i < nodes.len() {
        lemma_lowered_node_balanced(nodes[i]);
        lemma_lowered_balanced(nodes, i + 1);
        lemma_balanced_concat(lowered_node(nodes[i]), lowered_from(nodes, i + 1));
    } else {
        lemma_balanced_empty::<OpCode>();
    }
}

/// The plain instructions of one node are balanced.
pub proof fn lemma_lowered_node_balanced(node: AstNode)
    ensures
        balanced(lowered_node(node)),
    decreases node, 0int,
{
    match node {
        AstNode::Loop(body) => {
            lemma_lowered_balanced(body@, 0);
            lemma_balanced_nest(
                OpCode::JumpIfZero(0),
                lowered_from(body@, 0),
                OpCode::JumpIfNonZero(0),
            );
        },
        AstNode::MoveRight => lemma_balanced_flat(OpCode::Shift(1)),
        AstNode::MoveLeft => lemma_balanced_flat(OpCode::Shift(-1i128)),
        AstNode::Increment => lemma_balanced_flat(OpCode::Add(1)),
        AstNode::Decrement => lemma_balanced_flat(OpCode::Add(-1i128)),
        AstNode::Input => lemma_balanced_flat(OpCode::Input),
        AstNode::Output => lemma_balanced_flat(OpCode::Output),
    }
}

} // verus!
