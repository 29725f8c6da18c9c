//! Programs do what trees mean: the instructions that a tree compiles to,
//! wherever they stand in a resolved program, take the machine through the
//! states that the meaning of the tree ascribes to it.

use vstd::prelude::*;
use crate::ast::AstNode;
use crate::jumps::{lemma_depth_of_shape, resolved, same_shape, unresolved};
use crate::machine::{halted, lemma_run_split, lemma_stuck, run_for, step, MachineState};
use crate::nesting::{
    balanced,
    depth,
    lemma_closer_unique,
    lemma_depth_subrange,
    lemma_opener_unique,
    matched,
    Bracket,
};
use crate::opcode::OpCode;
use crate::optimize::{
    collapsed,
    idiom,
    in_run,
    lemma_lowered_balanced,
    lemma_optimized_balanced,
    lemma_run_bounds,
    lowered_from,
    lowered_node,
    optimized_from,
    optimized_loop,
    run_end,
    run_net,
    RunKind,
};
use crate::semantics::{
    applied,
    closed_form,
    exec_from,
    exec_loop,
    exec_node,
    left,
    quick_from,
    quick_loop,
    quick_run,
    quick_while,
    swept,
};
use crate::trace::LoopTally;

verus! {

/// The instructions of `code` from index `base` on are those of `piece`,
/// but for jump targets.
#[verifier::opaque]
pub open spec fn holds(code: Seq<OpCode>, base: int, piece: Seq<OpCode>) -> bool {
    &&& 0 <= base
    &&& base + piece.len() <= code.len()
    &&& forall|j: int|
        0 <= j < piece.len() ==> unresolved(code[base + j]) == unresolved(#[trigger] piece[j])
}

/// Code that holds two pieces, one after the other, holds each of them.
proof fn lemma_holds_parts(code: Seq<OpCode>, base: int, a: Seq<OpCode>, b: Seq<OpCode>)
    requires
        holds(code, base, a + b),
    ensures
        holds(code, base, a),
        holds(code, base + a.len(), b),
{
    reveal(holds);
    assert forall|j: int| 0 <= j < a.len() implies unresolved(code[base + j]) == unresolved(
        #[trigger] a[j],
    ) by {
        assert((a + b)[j] == a[j]);
    }
    assert forall|j: int| 0 <= j < b.len() implies unresolved(code[base + a.len() + j])
        == unresolved(#[trigger] b[j]) by {
        assert((a + b)[a.len() + j] == b[j]);
    }
}

/// Code that holds a piece holds the first instruction of the piece, jump
/// target apart.
proof fn lemma_holds_first(code: Seq<OpCode>, base: int, piece: Seq<OpCode>)
    requires
        holds(code, base, piece),
        piece.len() >= 1,
    ensures
        0 <= base < code.len(),
        unresolved(code[base]) == unresolved(piece[0]),
{
    reveal(holds);
    assert(unresolved(code[base + 0]) == unresolved(piece[0]));
}

/// Code of the shape of a piece holds the piece from its first index on.
pub(crate) proof fn lemma_holds_whole(code: Seq<OpCode>, piece: Seq<OpCode>)
    requires
        same_shape(piece, code),
    ensures
        holds(code, 0, piece),
{
    reveal(holds);
    assert forall|j: int| 0 <= j < piece.len() implies unresolved(code[0 + j]) == unresolved(
        #[trigger] piece[j],
    ) by {}
}

/// Every loop boundary of the code holds the index of its partner.
#[verifier::opaque]
pub open spec fn sound(code: Seq<OpCode>) -> bool {
    resolved(code)
}

/// A loop start and a loop end around a balanced body are partners.
proof fn lemma_loop_is_matched(code: Seq<OpCode>, open: int, body: Seq<OpCode>)
    requires
        balanced(body),
        holds(code, open + 1, body),
        0 <= open,
        open + body.len() + 2 <= code.len(),
        code[open].nesting() == 1,
        code[open + 1 + body.len()].nesting() == -1,
    ensures
        matched(code, open, open + 1 + body.len()),
{
    let close = open + 1 + body.len();
    let inner = code.subrange(open + 1, close);
    assert(same_shape(inner, body)) by {
        reveal(holds);
        assert forall|j: int| 0 <= j < inner.len() implies unresolved(#[trigger] inner[j])
            == unresolved(body[j]) by {
            assert(unresolved(code[open + 1 + j]) == unresolved(body[j]));
        }
    }
    assert(depth(code, open + 1) == depth(code, open) + code[open].nesting());
    assert forall|k: int| open < k <= close implies depth(code, k) > depth(code, open) by {
        lemma_depth_subrange(code, open + 1, close, k - open - 1);
        lemma_depth_of_shape(inner, body, k - open - 1);
        assert(depth(body, k - open - 1) >= 0);
    }
    assert(depth(code, close + 1) == depth(code, open)) by {
        lemma_depth_subrange(code, open + 1, close, close - open - 1);
        lemma_depth_of_shape(inner, body, close - open - 1);
        assert(depth(code, close + 1) == depth(code, close) + code[close].nesting());
    }
}

/// In resolved code, a loop start and a loop end around a balanced body
/// hold each other's index.
proof fn lemma_loop_targets(code: Seq<OpCode>, open: int, body: Seq<OpCode>)
    requires
        sound(code),
        balanced(body),
        holds(code, open, seq![OpCode::JumpIfZero(0)] + body + seq![OpCode::JumpIfNonZero(0)]),
    ensures
        code[open] matches OpCode::JumpIfZero(target) && target == open + 1 + body.len(),
        code[open + 1 + body.len()] matches OpCode::JumpIfNonZero(target) && target == open,
        holds(code, open + 1, body),
        0 <= open,
        open + body.len() + 2 <= code.len(),
{
    let head = seq![OpCode::JumpIfZero(0)];
    let tail = seq![OpCode::JumpIfNonZero(0)];
    let close = open + 1 + body.len();
    lemma_holds_parts(code, open, head + body, tail);
    lemma_holds_parts(code, open, head, body);
    lemma_holds_first(code, open, head);
    lemma_holds_first(code, close, tail);
    lemma_loop_is_matched(code, open, body);
    assert(code[open] matches OpCode::JumpIfZero(target) && target == close) by {
        reveal(sound);
        match code[open] {
            OpCode::JumpIfZero(target) => {
                lemma_closer_unique(code, open, close, target as int);
            },
            _ => {},
        }
    }
    assert(code[close] matches OpCode::JumpIfNonZero(target) && target == open) by {
        reveal(sound);
        match code[close] {
            OpCode::JumpIfNonZero(target) => {
                lemma_opener_unique(code, open, target as int, close);
            },
            _ => {},
        }
    }
}

/// One step of a machine that has not halted.
proof fn lemma_run_one(code: Seq<OpCode>, input: Seq<u8>, state: MachineState)
    requires
        !halted(code, state),
    ensures
        run_for(code, input, state, 1) == step(code, input, state),
{
    assert(run_for(code, input, step(code, input, state), 0) == step(code, input, state));
}

/// Steps after steps.
pub(crate) proof fn lemma_run_then(
    code: Seq<OpCode>,
    input: Seq<u8>,
    from: MachineState,
    first: nat,
    mid: MachineState,
    second: nat,
)
    requires
        run_for(code, input, from, first) == mid,
    ensures
        run_for(code, input, from, first + second) == run_for(code, input, mid, second),
{
    lemma_run_split(code, input, from, first, second);
}

/// The plain instructions of the nodes from index `i` on, found at index
/// `base` of a resolved program, do what the nodes mean: they come to
/// their end when the nodes do, after as many steps and in the same state,
/// and are still at work after `fuel` steps when the nodes are.
pub(crate) proof fn lemma_plain_from(
    plain: Seq<OpCode>,
    nodes: Seq<AstNode>,
    i: int,
    base: int,
    input: Seq<u8>,
    state: MachineState,
    fuel: nat,
)
    requires
        sound(plain),
        0 <= i <= nodes.len(),
        holds(plain, base, lowered_from(nodes, i)),
    ensures
        ({
            let outcome = exec_from(nodes, i, input, state, fuel);
            let end = base + lowered_from(nodes, i).len();
            &&& outcome.done ==> outcome.steps <= fuel && run_for(
                plain,
                input,
                state.at(base),
                outcome.steps,
            ) == outcome.state.at(end)
            &&& !outcome.done ==> base <= run_for(plain, input, state.at(base), fuel).pc < end
        }),
    decreases fuel, nodes, nodes.len() - i,
{
    if i < nodes.len() {
        let piece = lowered_node(nodes[i]);
        let rest = lowered_from(nodes, i + 1);
        let mid = base + piece.len();
        lemma_holds_parts(plain, base, piece, rest);
        lemma_plain_node(plain, nodes[i], base, input, state, fuel);
        let first = exec_node(nodes[i], input, state, fuel);
        if first.done {
            let remaining = left(fuel, first.steps);
            lemma_plain_from(plain, nodes, i + 1, mid, input, first.state, remaining);
            let second = exec_from(nodes, i + 1, input, first.state, remaining);
            if second.done {
                lemma_run_then(
                    plain,
                    input,
                    state.at(base),
                    first.steps,
                    first.state.at(mid),
                    second.steps,
                );
            } else {
                lemma_run_then(
                    plain,
                    input,
                    state.at(base),
                    first.steps,
                    first.state.at(mid),
                    remaining,
                );
            }
        }
    }
}

/// The plain instructions of one node do what the node means.
proof fn lemma_plain_node(
    plain: Seq<OpCode>,
    node: AstNode,
    base: int,
    input: Seq<u8>,
    state: MachineState,
    fuel: nat,
)
    requires
        sound(plain),
        holds(plain, base, lowered_node(node)),
    ensures
        ({
            let outcome = exec_node(node, input, state, fuel);
            let end = base + lowered_node(node).len();
            &&& outcome.done ==> outcome.steps <= fuel && run_for(
                plain,
                input,
                state.at(base),
                outcome.steps,
            ) == outcome.state.at(end)
            &&& !outcome.done ==> base <= run_for(plain, input, state.at(base), fuel).pc < end
        }),
    decreases fuel, node, 0int,
{
    match node {
        AstNode::Loop(body) => {
            lemma_plain_loop(plain, body@, base, input, state, fuel);
        },
        _ => {
            lemma_holds_first(plain, base, lowered_node(node));
            if fuel > 0 {
                lemma_run_one(plain, input, state.at(base));
            }
        },
    }
}

/// The jump pair around the plain instructions of a body does what a loop
/// with that body means.
proof fn lemma_plain_loop(
    plain: Seq<OpCode>,
    body: Seq<AstNode>,
    open: int,
    input: Seq<u8>,
    state: MachineState,
    fuel: nat,
)
    requires
        sound(plain),
        holds(
            plain,
            open,
            seq![OpCode::JumpIfZero(0)] + lowered_from(body, 0) + seq![OpCode::JumpIfNonZero(0)],
        ),
    ensures
        ({
            let outcome = exec_loop(body, input, state, fuel);
            let end = open + lowered_from(body, 0).len() + 2;
            &&& outcome.done ==> outcome.steps <= fuel && run_for(
                plain,
                input,
                state.at(open),
                outcome.steps,
            ) == outcome.state.at(end)
            &&& !outcome.done ==> open <= run_for(plain, input, state.at(open), fuel).pc < end
        }),
    decreases fuel, body, body.len() + 1,
{
    let inner = lowered_from(body, 0);
    let close = open + 1 + inner.len();
    let end = close + 1;
    lemma_lowered_balanced(body, 0);
    lemma_loop_targets(plain, open, inner);
    let at_open = state.at(open);
    if fuel == 0 {
    } else if state.tape.current() == 0 {
        lemma_run_one(plain, input, at_open);
        assert(step(plain, input, at_open) == state.at(close));
        if fuel >= 2 {
            lemma_run_one(plain, input, state.at(close));
            lemma_run_then(plain, input, at_open, 1, state.at(close), 1);
        }
    } else {
        lemma_run_one(plain, input, at_open);
        assert(step(plain, input, at_open) == state.at(open + 1));
        let budget = (fuel - 1) as nat;
        lemma_plain_from(plain, body, 0, open + 1, input, state, budget);
        let once = exec_from(body, 0, input, state, budget);
        lemma_run_then(plain, input, at_open, 1, state.at(open + 1), budget);
        if once.done {
            lemma_run_then(plain, input, at_open, 1, state.at(open + 1), once.steps);
            let at_close = once.state.at(close);
            assert(run_for(plain, input, at_open, 1 + once.steps) == at_close);
            if once.steps + 2 > fuel {
                assert(once.steps + 1 == fuel);
            } else {
                lemma_run_one(plain, input, at_close);
                lemma_run_then(plain, input, at_open, 1 + once.steps, at_close, 1);
                if once.state.tape.current() != 0 {
                    assert(step(plain, input, at_close) == once.state.at(open));
                    let remaining = left(fuel, once.steps + 2);
                    lemma_plain_loop(plain, body, open, input, once.state, remaining);
                    let again = exec_loop(body, input, once.state, remaining);
                    if again.done {
                        lemma_run_then(
                            plain,
                            input,
                            at_open,
                            once.steps + 2,
                            once.state.at(open),
                            again.steps,
                        );
                    } else {
                        lemma_run_then(
                            plain,
                            input,
                            at_open,
                            once.steps + 2,
                            once.state.at(open),
                            remaining,
                        );
                    }
                } else {
                    assert(step(plain, input, at_close) == once.state.at(end));
                }
            }
        }
    }
}

/// The optimized instructions of the nodes from index `i` on, found at
/// index `base` of a resolved program, do what the nodes do as the
/// optimizer sees them: they come to their end when the nodes do, after as
/// many steps and in the same state, and are still at work after `fuel`
/// steps when the nodes are.
pub(crate) proof fn lemma_quick_from(
    fast: Seq<OpCode>,
    nodes: Seq<AstNode>,
    i: int,
    base: int,
    input: Seq<u8>,
    state: MachineState,
    fuel: nat,
)
    requires
        sound(fast),
        0 <= i <= nodes.len() <= usize::MAX,
        holds(fast, base, optimized_from(nodes, i)),
    ensures
        ({
            let outcome = quick_from(nodes, i, input, state, fuel);
            let end = base + optimized_from(nodes, i).len();
            &&& outcome.done ==> outcome.steps <= fuel && run_for(
                fast,
                input,
                state.at(base),
                outcome.steps,
            ) == outcome.state.at(end)
            &&& !outcome.done ==> base <= run_for(fast, input, state.at(base), fuel).pc < end
        }),
    decreases fuel, nodes, 2 * (nodes.len() - i),
{
    if i >= nodes.len() {
        return ;
    }
    let at_base = state.at(base);
    match nodes[i] {
        AstNode::Increment | AstNode::Decrement => {
            lemma_run_bounds(nodes, i, RunKind::Cell);
            lemma_quick_run(fast, nodes, i, RunKind::Cell, base, input, state, fuel);
        },
        AstNode::MoveRight | AstNode::MoveLeft => {
            lemma_run_bounds(nodes, i, RunKind::Cursor);
            lemma_quick_run(fast, nodes, i, RunKind::Cursor, base, input, state, fuel);
        },
        AstNode::Loop(_) => {
            let piece = optimized_loop(nodes[i]);
            let mid = base + piece.len();
            lemma_holds_parts(fast, base, piece, optimized_from(nodes, i + 1));
            lemma_quick_loop(fast, nodes[i], base, input, state, fuel);
            let first = quick_loop(nodes[i], input, state, fuel);
            if first.done {
                let remaining = left(fuel, first.steps);
                lemma_quick_from(fast, nodes, i + 1, mid, input, first.state, remaining);
                let second = quick_from(nodes, i + 1, input, first.state, remaining);
                if second.done {
                    lemma_run_then(
                        fast,
                        input,
                        at_base,
                        first.steps,
                        first.state.at(mid),
                        second.steps,
                    );
                } else {
                    lemma_run_then(
                        fast,
                        input,
                        at_base,
                        first.steps,
                        first.state.at(mid),
                        remaining,
                    );
                }
            }
        },
        _ => {
            let piece = if nodes[i] == AstNode::Output {
                seq![OpCode::Output]
            } else {
                seq![OpCode::Input]
            };
            let next = applied(nodes[i], input, state);
            lemma_holds_parts(fast, base, piece, optimized_from(nodes, i + 1));
            lemma_holds_first(fast, base, piece);
            if fuel > 0 {
                let remaining = (fuel - 1) as nat;
                lemma_run_one(fast, input, at_base);
                assert(step(fast, input, at_base) == next.at(base + 1));
                lemma_quick_from(fast, nodes, i + 1, base + 1, input, next, remaining);
                let second = quick_from(nodes, i + 1, input, next, remaining);
                if second.done {
                    lemma_run_then(fast, input, at_base, 1, next.at(base + 1), second.steps);
                } else {
                    lemma_run_then(fast, input, at_base, 1, next.at(base + 1), remaining);
                }
            }
        },
    }
}

/// The instruction that a run collapsed into, and the optimized
/// instructions behind it, do what the run and the nodes behind it do.
proof fn lemma_quick_run(
    fast: Seq<OpCode>,
    nodes: Seq<AstNode>,
    i: int,
    kind: RunKind,
    base: int,
    input: Seq<u8>,
    state: MachineState,
    fuel: nat,
)
    requires
        sound(fast),
        0 <= i < nodes.len() <= usize::MAX,
        in_run(nodes[i], kind),
        holds(
            fast,
            base,
            collapsed(kind, run_net(nodes, i, kind)) + optimized_from(
                nodes,
                run_end(nodes, i, kind),
            ),
        ),
    ensures
        ({
            let outcome = quick_run(nodes, i, kind, input, state, fuel);
            let end = base + collapsed(kind, run_net(nodes, i, kind)).len() + optimized_from(
                nodes,
                run_end(nodes, i, kind),
            ).len();
            &&& outcome.done ==> outcome.steps <= fuel && run_for(
                fast,
                input,
                state.at(base),
                outcome.steps,
            ) == outcome.state.at(end)
            &&& !outcome.done ==> base <= run_for(fast, input, state.at(base), fuel).pc < end
        }),
    decreases fuel, nodes, 2 * (nodes.len() - i) - 1,
{
    let end = run_end(nodes, i, kind);
    let net = run_net(nodes, i, kind);
    let piece = collapsed(kind, net);
    let at_base = state.at(base);
    lemma_run_bounds(nodes, i, kind);
    lemma_holds_parts(fast, base, piece, optimized_from(nodes, end));
    if net == 0 {
        lemma_quick_from(fast, nodes, end, base, input, state, fuel);
    } else {
        lemma_holds_first(fast, base, piece);
        if fuel > 0 {
            let next = swept(kind, state, net);
            let remaining = (fuel - 1) as nat;
            lemma_run_one(fast, input, at_base);
            assert(step(fast, input, at_base) == next.at(base + 1));
            lemma_quick_from(fast, nodes, end, base + 1, input, next, remaining);
            let second = quick_from(nodes, end, input, next, remaining);
            if second.done {
                lemma_run_then(fast, input, at_base, 1, next.at(base + 1), second.steps);
            } else {
                lemma_run_then(fast, input, at_base, 1, next.at(base + 1), remaining);
            }
        }
    }
}

/// The optimized instructions of a loop do what the loop does as the
/// optimizer sees it.
proof fn lemma_quick_loop(
    fast: Seq<OpCode>,
    node: AstNode,
    base: int,
    input: Seq<u8>,
    state: MachineState,
    fuel: nat,
)
    requires
        sound(fast),
        node is Loop,
        holds(fast, base, optimized_loop(node)),
    ensures
        ({
            let outcome = quick_loop(node, input, state, fuel);
            let end = base + optimized_loop(node).len();
            &&& outcome.done ==> outcome.steps <= fuel && run_for(
                fast,
                input,
                state.at(base),
                outcome.steps,
            ) == outcome.state.at(end)
            &&& !outcome.done ==> base <= run_for(fast, input, state.at(base), fuel).pc < end
        }),
    decreases fuel, node, 0int,
{
    let body = node->Loop_0@;
    let at_base = state.at(base);
    vstd::std_specs::vec::axiom_spec_len(&node->Loop_0);
    match idiom(body) {
        Some(op) => {
            lemma_holds_first(fast, base, optimized_loop(node));
            match closed_form(op, input, state) {
                Some(after) => {
                    if fuel > 0 {
                        lemma_run_one(fast, input, at_base);
                    }
                },
                None => {
                    lemma_stuck(fast, input, at_base, fuel, Seq::<LoopTally>::empty());
                },
            }
        },
        None => {
            lemma_quick_while(fast, body, base, input, state, fuel);
        },
    }
}

/// The jump pair around the optimized instructions of a body does what a
/// loop with that body does as the optimizer sees it.
proof fn lemma_quick_while(
    fast: Seq<OpCode>,
    body: Seq<AstNode>,
    open: int,
    input: Seq<u8>,
    state: MachineState,
    fuel: nat,
)
    requires
        sound(fast),
        body.len() <= usize::MAX,
        holds(
            fast,
            open,
            seq![OpCode::JumpIfZero(0)] + optimized_from(body, 0) + seq![OpCode::JumpIfNonZero(0)],
        ),
    ensures
        ({
            let outcome = quick_while(body, input, state, fuel);
            let end = open + optimized_from(body, 0).len() + 2;
            &&& outcome.done ==> outcome.steps <= fuel && run_for(
                fast,
                input,
                state.at(open),
                outcome.steps,
            ) == outcome.state.at(end)
            &&& !outcome.done ==> open <= run_for(fast, input, state.at(open), fuel).pc < end
        }),
    decreases fuel, body, body.len() + 1,
{
    let inner = optimized_from(body, 0);
    let close = open + 1 + inner.len();
    let end = close + 1;
    lemma_optimized_balanced(body, 0);
    lemma_loop_targets(fast, open, inner);
    let at_open = state.at(open);
    if fuel == 0 {
    } else if state.tape.current() == 0 {
        lemma_run_one(fast, input, at_open);
        assert(step(fast, input, at_open) == state.at(close));
        if fuel >= 2 {
            lemma_run_one(fast, input, state.at(close));
            lemma_run_then(fast, input, at_open, 1, state.at(close), 1);
        }
    } else {
        lemma_run_one(fast, input, at_open);
        assert(step(fast, input, at_open) == state.at(open + 1));
        let budget = (fuel - 1) as nat;
        lemma_quick_from(fast, body, 0, open + 1, input, state, budget);
        let once = quick_from(body, 0, input, state, budget);
        lemma_run_then(fast, input, at_open, 1, state.at(open + 1), budget);
        if once.done {
            lemma_run_then(fast, input, at_open, 1, state.at(open + 1), once.steps);
            let at_close = once.state.at(close);
            assert(run_for(fast, input, at_open, 1 + once.steps) == at_close);
            if once.steps + 2 > fuel {
                assert(once.steps + 1 == fuel);
            } else {
                lemma_run_one(fast, input, at_close);
                lemma_run_then(fast, input, at_open, 1 + once.steps, at_close, 1);
                if once.state.tape.current() != 0 {
                    assert(step(fast, input, at_close) == once.state.at(open));
                    let remaining = left(fuel, once.steps + 2);
                    lemma_quick_while(fast, body, open, input, once.state, remaining);
                    let again = quick_while(body, input, once.state, remaining);
                    if again.done {
                        lemma_run_then(
                            fast,
                            input,
                            at_open,
                            once.steps + 2,
                            once.state.at(open),
                            again.steps,
                        );
                    } else {
                        lemma_run_then(
                            fast,
                            input,
                            at_open,
                            once.steps + 2,
                            once.state.at(open),
                            remaining,
                        );
                    }
                } else {
                    assert(step(fast, input, at_close) == once.state.at(end));
                }
            }
        }
    }
}

} // verus!
