//! Two readings of a tree agree: node by node as it is written, and run by
//! run and idiom by idiom as the optimizer sees it. Where one comes to an
//! end the other does, in the same state.

use vstd::prelude::*;
use crate::ast::AstNode;
use crate::machine::MachineState;
use crate::optimize::{idiom, in_run, lemma_run_bounds, run_end, run_net, unit, RunKind};
use crate::semantics::{
    applied,
    exec_from,
    exec_loop,
    exec_node,
    left,
    quick_from,
    quick_loop,
    quick_run,
    quick_while,
    swept,
    Outcome,
};
use crate::tape::{
    hop,
    lemma_first_zero_is_near,
    lemma_hop_shifted,
    lemma_nothing_changes,
    lemma_seek_finds,
    lemma_stays_well_formed,
    lemma_twice,
    TapeModel,
    TAPE_SIZE,
};

verus! {

/// Nodes that come to their end within some fuel take no more steps than
/// that, and do the same with any more fuel.
proof fn lemma_more_fuel_from(
    nodes: Seq<AstNode>,
    i: int,
    input: Seq<u8>,
    state: MachineState,
    fuel: nat,
    more: nat,
)
    requires
        exec_from(nodes, i, input, state, fuel).done,
        fuel <= more,
    ensures
        exec_from(nodes, i, input, state, more) == exec_from(nodes, i, input, state, fuel),
        exec_from(nodes, i, input, state, fuel).steps <= fuel,
    decreases fuel, nodes, nodes.len() - i,
{
    if 0 <= i < nodes.len() {
        let first = exec_node(nodes[i], input, state, fuel);
        lemma_more_fuel_node(nodes[i], input, state, fuel, more);
        lemma_more_fuel_from(
            nodes,
            i + 1,
            input,
            first.state,
            left(fuel, first.steps),
            left(more, first.steps),
        );
    }
}

/// A node that comes to its end within some fuel does the same with more.
proof fn lemma_more_fuel_node(
    node: AstNode,
    input: Seq<u8>,
    state: MachineState,
    fuel: nat,
    more: nat,
)
    requires
        exec_node(node, input, state, fuel).done,
        fuel <= more,
    ensures
        exec_node(node, input, state, more) == exec_node(node, input, state, fuel),
        exec_node(node, input, state, fuel).steps <= fuel,
    decreases fuel, node, 0int,
{
    match node {
        AstNode::Loop(body) => {
            lemma_more_fuel_loop(body@, input, state, fuel, more);
        },
        _ => {},
    }
}

/// A loop that comes to its end within some fuel does the same with more.
proof fn lemma_more_fuel_loop(
    body: Seq<AstNode>,
    input: Seq<u8>,
    state: MachineState,
    fuel: nat,
    more: nat,
)
    requires
        exec_loop(body, input, state, fuel).done,
        fuel <= more,
    ensures
        exec_loop(body, input, state, more) == exec_loop(body, input, state, fuel),
        exec_loop(body, input, state, fuel).steps <= fuel,
    decreases fuel, body, body.len() + 1,
{
    if state.tape.current() != 0 {
        let once = exec_from(body, 0, input, state, (fuel - 1) as nat);
        lemma_more_fuel_from(body, 0, input, state, (fuel - 1) as nat, (more - 1) as nat);
        if once.state.tape.current() != 0 {
            lemma_more_fuel_loop(
                body,
                input,
                once.state,
                left(fuel, once.steps + 2),
                left(more, once.steps + 2),
            );
        }
    }
}

/// Where a node and the nodes behind it come to their ends, each within
/// its own fuel, they do so one after the other within the sum.
proof fn lemma_one_after_the_other(
    nodes: Seq<AstNode>,
    i: int,
    input: Seq<u8>,
    state: MachineState,
    first_fuel: nat,
    rest_fuel: nat,
)
    requires
        0 <= i < nodes.len(),
        exec_node(nodes[i], input, state, first_fuel).done,
        exec_from(
            nodes,
            i + 1,
            input,
            exec_node(nodes[i], input, state, first_fuel).state,
            rest_fuel,
        ).done,
    ensures
        exec_from(nodes, i, input, state, first_fuel + rest_fuel).done,
        exec_from(nodes, i, input, state, first_fuel + rest_fuel).state == exec_from(
            nodes,
            i + 1,
            input,
            exec_node(nodes[i], input, state, first_fuel).state,
            rest_fuel,
        ).state,
{
    let first = exec_node(nodes[i], input, state, first_fuel);
    lemma_more_fuel_node(nodes[i], input, state, first_fuel, first_fuel + rest_fuel);
    lemma_more_fuel_from(
        nodes,
        i + 1,
        input,
        first.state,
        rest_fuel,
        left(first_fuel + rest_fuel, first.steps),
    );
}

/// The nodes of a run, one after the other, do what one instruction with
/// the net effect of the run does, and take a step each.
proof fn lemma_run_collapses(
    nodes: Seq<AstNode>,
    i: int,
    kind: RunKind,
    input: Seq<u8>,
    state: MachineState,
    fuel: nat,
)
    requires
        0 <= i <= nodes.len(),
        state.tape.well_formed(),
        exec_from(nodes, i, input, state, fuel).done,
    ensures
        ({
            let end = run_end(nodes, i, kind);
            let whole = exec_from(nodes, i, input, state, fuel);
            let rest = exec_from(
                nodes,
                end,
                input,
                swept(kind, state, run_net(nodes, i, kind)),
                left(fuel, (end - i) as nat),
            );
            &&& i <= end <= nodes.len()
            &&& end - i <= fuel
            &&& rest.done
            &&& rest.state == whole.state
            &&& whole.steps == (end - i) + rest.steps
        }),
    decreases nodes.len() - i,
{
    lemma_run_bounds(nodes, i, kind);
    lemma_nothing_changes(state.tape);
    if i < nodes.len() && in_run(nodes[i], kind) {
        let delta = unit(nodes[i], kind);
        let next = applied(nodes[i], input, state);
        assert(next == swept(kind, state, delta));
        lemma_stays_well_formed(state.tape, delta, 0);
        lemma_twice(state.tape, delta, run_net(nodes, i + 1, kind), 0, 0);
        let first = exec_node(nodes[i], input, state, fuel);
        assert(first == Outcome { state: next, steps: 1, done: true });
        lemma_run_collapses(nodes, i + 1, kind, input, next, left(fuel, 1));
        lemma_run_bounds(nodes, i + 1, kind);
    }
}

/// Where the nodes behind a run come to their end, the run and the nodes
/// behind it do, with a step more of fuel for every node of the run.
proof fn lemma_run_expands(
    nodes: Seq<AstNode>,
    i: int,
    kind: RunKind,
    input: Seq<u8>,
    state: MachineState,
    fuel: nat,
)
    requires
        0 <= i <= nodes.len(),
        state.tape.well_formed(),
        exec_from(
            nodes,
            run_end(nodes, i, kind),
            input,
            swept(kind, state, run_net(nodes, i, kind)),
            fuel,
        ).done,
    ensures
        ({
            let end = run_end(nodes, i, kind);
            let next = swept(kind, state, run_net(nodes, i, kind));
            let rest = exec_from(nodes, end, input, next, fuel);
            let whole = exec_from(nodes, i, input, state, (end - i + fuel) as nat);
            &&& i <= end
            &&& whole.done
            &&& whole.state == rest.state
        }),
    decreases nodes.len() - i,
{
    lemma_run_bounds(nodes, i, kind);
    lemma_nothing_changes(state.tape);
    if i < nodes.len() && in_run(nodes[i], kind) {
        let end = run_end(nodes, i, kind);
        let delta = unit(nodes[i], kind);
        let next = applied(nodes[i], input, state);
        assert(next == swept(kind, state, delta));
        lemma_stays_well_formed(state.tape, delta, 0);
        lemma_twice(state.tape, delta, run_net(nodes, i + 1, kind), 0, 0);
        lemma_run_bounds(nodes, i + 1, kind);
        lemma_run_expands(nodes, i + 1, kind, input, next, fuel);
        let whole_fuel = (end - i + fuel) as nat;
        let first = exec_node(nodes[i], input, state, whole_fuel);
        assert(first == Outcome { state: next, steps: 1, done: true });
        assert(left(whole_fuel, 1) == (end - (i + 1) + fuel) as nat);
    }
}

/// A loop of one increment or of one decrement leaves zero in the cell.
proof fn lemma_counts_to_zero(body: Seq<AstNode>, input: Seq<u8>, state: MachineState, fuel: nat)
    requires
        body.len() == 1,
        body[0] == AstNode::Increment || body[0] == AstNode::Decrement,
        state.tape.well_formed(),
        exec_loop(body, input, state, fuel).done,
    ensures
        exec_loop(body, input, state, fuel).state == state.with_tape(state.tape.stored(0)),
        exec_loop(body, input, state, fuel).steps >= 2,
    decreases fuel,
{
    lemma_nothing_changes(state.tape);
    if state.tape.current() != 0 {
        let budget = (fuel - 1) as nat;
        let next = applied(body[0], input, state);
        let delta: int = if body[0] == AstNode::Increment {
            1
        } else {
            -1
        };
        assert(next == state.with_tape(state.tape.added(delta)));
        let first = exec_node(body[0], input, state, budget);
        assert(first == Outcome { state: next, steps: 1, done: true });
        assert(exec_from(body, 1, input, next, left(budget, 1)) == Outcome {
            state: next,
            steps: 0,
            done: true,
        });
        let once = exec_from(body, 0, input, state, budget);
        assert(once == Outcome { state: next, steps: 1, done: true });
        lemma_stays_well_formed(state.tape, delta, 0);
        lemma_twice(state.tape, delta, 0, 0, 0);
        lemma_nothing_changes(next.tape);
        if next.tape.current() != 0 {
            lemma_counts_to_zero(body, input, next, left(fuel, 3));
        } else {
            assert(next.tape.stored(0) == next.tape);
        }
    }
}

/// A loop of one read leaves the input drained.
proof fn lemma_reads_to_zero(body: Seq<AstNode>, input: Seq<u8>, state: MachineState, fuel: nat)
    requires
        body.len() == 1,
        body[0] == AstNode::Input,
        state.tape.well_formed(),
        exec_loop(body, input, state, fuel).done,
    ensures
        exec_loop(body, input, state, fuel).state == state.drained(input),
        exec_loop(body, input, state, fuel).steps >= 2,
    decreases fuel,
{
    if state.tape.current() != 0 {
        let budget = (fuel - 1) as nat;
        let next = state.read(input);
        let first = exec_node(body[0], input, state, budget);
        assert(first == Outcome { state: next, steps: 1, done: true });
        assert(exec_from(body, 1, input, next, left(budget, 1)) == Outcome {
            state: next,
            steps: 0,
            done: true,
        });
        let once = exec_from(body, 0, input, state, budget);
        assert(once == Outcome { state: next, steps: 1, done: true });
        lemma_stays_well_formed(state.tape, 0, next.tape.current());
        lemma_twice(state.tape, 0, 0, next.tape.current(), 0);
        lemma_nothing_changes(next.tape);
        if next.tape.current() != 0 {
            lemma_reads_to_zero(body, input, next, left(fuel, 3));
        } else {
            assert(next.tape.stored(0) == next.tape);
        }
    }
}

/// A loop of one move stops on the first zero cell in its way: after some
/// number of moves, which comes back.
proof fn lemma_moves_to_zero(
    body: Seq<AstNode>,
    input: Seq<u8>,
    state: MachineState,
    fuel: nat,
) -> (hops: nat)
    requires
        body.len() == 1,
        body[0] == AstNode::MoveRight || body[0] == AstNode::MoveLeft,
        state.tape.well_formed(),
        exec_loop(body, input, state, fuel).done,
    ensures
        exec_loop(body, input, state, fuel).state == state.with_tape(
            TapeModel {
                cursor: hop(state.tape, unit(body[0], RunKind::Cursor), hops as int),
                cells: state.tape.cells,
            },
        ),
        state.tape.cells[hop(state.tape, unit(body[0], RunKind::Cursor), hops as int)] == 0,
        forall|j: int|
            0 <= j < hops ==> state.tape.cells[#[trigger] hop(
                state.tape,
                unit(body[0], RunKind::Cursor),
                j,
            )] != 0,
        exec_loop(body, input, state, fuel).steps >= 2,
    decreases fuel,
{
    let stride = unit(body[0], RunKind::Cursor);
    lemma_hop_shifted(state.tape, stride, 0);
    if state.tape.current() != 0 {
        let budget = (fuel - 1) as nat;
        let next = applied(body[0], input, state);
        assert(next == state.with_tape(state.tape.shifted(stride)));
        let first = exec_node(body[0], input, state, budget);
        assert(first == Outcome { state: next, steps: 1, done: true });
        assert(exec_from(body, 1, input, next, left(budget, 1)) == Outcome {
            state: next,
            steps: 0,
            done: true,
        });
        let once = exec_from(body, 0, input, state, budget);
        assert(once == Outcome { state: next, steps: 1, done: true });
        lemma_stays_well_formed(state.tape, stride, 0);
        let further: nat = if next.tape.current() != 0 {
            lemma_moves_to_zero(body, input, next, left(fuel, 3))
        } else {
            lemma_hop_shifted(next.tape, stride, 0);
            0
        };
        lemma_hop_shifted(state.tape, stride, further as int);
        assert forall|j: int| 0 <= j < further + 1 implies state.tape.cells[#[trigger] hop(
            state.tape,
            stride,
            j,
        )] != 0 by {
            if j > 0 {
                lemma_hop_shifted(state.tape, stride, j - 1);
                assert(next.tape.cells[hop(next.tape, stride, j - 1)] != 0);
            }
        }
        further + 1
    } else {
        0
    }
}

/// How often a loop of one increment or one decrement repeats its body
/// when it starts with `value` in the cell.
pub open spec fn turns(value: u8, node: AstNode) -> nat {
    if value == 0 {
        0
    } else if node == AstNode::Decrement {
        value as nat
    } else {
        (256 - value) as nat
    }
}

/// A loop of one increment or of one decrement comes to an end.
proof fn lemma_count_ends(body: Seq<AstNode>, input: Seq<u8>, state: MachineState) -> (enough: nat)
    requires
        body.len() == 1,
        body[0] == AstNode::Increment || body[0] == AstNode::Decrement,
        state.tape.well_formed(),
    ensures
        exec_loop(body, input, state, enough).done,
    decreases turns(state.tape.current(), body[0]),
{
    if state.tape.current() == 0 {
        2
    } else {
        let next = applied(body[0], input, state);
        let delta: int = if body[0] == AstNode::Increment {
            1
        } else {
            -1
        };
        assert(next == state.with_tape(state.tape.added(delta)));
        lemma_stays_well_formed(state.tape, delta, 0);
        let further: nat = if next.tape.current() != 0 {
            lemma_count_ends(body, input, next)
        } else {
            0
        };
        let enough = further + 3;
        let budget = (enough - 1) as nat;
        let first = exec_node(body[0], input, state, budget);
        assert(first == Outcome { state: next, steps: 1, done: true });
        assert(exec_from(body, 1, input, next, left(budget, 1)) == Outcome {
            state: next,
            steps: 0,
            done: true,
        });
        assert(exec_from(body, 0, input, state, budget) == Outcome {
            state: next,
            steps: 1,
            done: true,
        });
        assert(left(enough, 3) == further);
        enough
    }
}

/// The input that a loop of one read may still read.
pub open spec fn unread(input: Seq<u8>, state: MachineState) -> nat {
    if 0 <= state.consumed < input.len() {
        (input.len() - state.consumed) as nat
    } else {
        0
    }
}

/// A loop of one read comes to an end.
proof fn lemma_drain_ends(body: Seq<AstNode>, input: Seq<u8>, state: MachineState) -> (enough: nat)
    requires
        body.len() == 1,
        body[0] == AstNode::Input,
        state.tape.well_formed(),
    ensures
        exec_loop(body, input, state, enough).done,
    decreases unread(input, state),
{
    if state.tape.current() == 0 {
        2
    } else {
        let next = state.read(input);
        lemma_stays_well_formed(state.tape, 0, next.tape.current());
        let further: nat = if next.tape.current() != 0 {
            lemma_drain_ends(body, input, next)
        } else {
            0
        };
        let enough = further + 3;
        let budget = (enough - 1) as nat;
        let first = exec_node(body[0], input, state, budget);
        assert(first == Outcome { state: next, steps: 1, done: true });
        assert(exec_from(body, 1, input, next, left(budget, 1)) == Outcome {
            state: next,
            steps: 0,
            done: true,
        });
        assert(exec_from(body, 0, input, state, budget) == Outcome {
            state: next,
            steps: 1,
            done: true,
        });
        assert(left(enough, 3) == further);
        enough
    }
}

/// A loop of one move comes to an end where a seek finds a zero cell, on
/// that cell.
proof fn lemma_seek_ends(
    body: Seq<AstNode>,
    input: Seq<u8>,
    state: MachineState,
    budget: nat,
) -> (enough: nat)
    requires
        body.len() == 1,
        body[0] == AstNode::MoveRight || body[0] == AstNode::MoveLeft,
        state.tape.well_formed(),
        state.tape.seek(unit(body[0], RunKind::Cursor), budget) is Some,
    ensures
        exec_loop(body, input, state, enough).done,
        exec_loop(body, input, state, enough).state == state.with_tape(
            TapeModel {
                cursor: state.tape.seek(unit(body[0], RunKind::Cursor), budget)->0,
                cells: state.tape.cells,
            },
        ),
        0 <= state.tape.seek(unit(body[0], RunKind::Cursor), budget)->0 < TAPE_SIZE,
    decreases budget,
{
    let stride = unit(body[0], RunKind::Cursor);
    if state.tape.current() == 0 {
        2
    } else {
        let next = applied(body[0], input, state);
        assert(next == state.with_tape(state.tape.shifted(stride)));
        lemma_stays_well_formed(state.tape, stride, 0);
        let further = lemma_seek_ends(body, input, next, (budget - 1) as nat);
        let enough = further + 3;
        let fuel = (enough - 1) as nat;
        let first = exec_node(body[0], input, state, fuel);
        assert(first == Outcome { state: next, steps: 1, done: true });
        assert(exec_from(body, 1, input, next, left(fuel, 1)) == Outcome {
            state: next,
            steps: 0,
            done: true,
        });
        assert(exec_from(body, 0, input, state, fuel) == Outcome {
            state: next,
            steps: 1,
            done: true,
        });
        assert(left(enough, 3) == further);
        if next.tape.current() == 0 {
            lemma_more_fuel_loop(body, input, next, 2, further);
        }
        enough
    }
}

/// Where the nodes from index `i` on come to their end as they are
/// written, they come to their end as the optimizer sees them, in the same
/// state and after no more steps.
pub(crate) proof fn lemma_sooner_from(
    nodes: Seq<AstNode>,
    i: int,
    input: Seq<u8>,
    state: MachineState,
    fuel: nat,
    budget: nat,
)
    requires
        0 <= i <= nodes.len(),
        state.tape.well_formed(),
        exec_from(nodes, i, input, state, fuel).done,
        exec_from(nodes, i, input, state, fuel).steps <= budget,
    ensures
        quick_from(nodes, i, input, state, budget).done,
        quick_from(nodes, i, input, state, budget).state == exec_from(
            nodes,
            i,
            input,
            state,
            fuel,
        ).state,
        quick_from(nodes, i, input, state, budget).steps <= exec_from(
            nodes,
            i,
            input,
            state,
            fuel,
        ).steps,
        exec_from(nodes, i, input, state, fuel).state.tape.well_formed(),
    decreases fuel, nodes, nodes.len() - i,
{
    if i >= nodes.len() {
        return ;
    }
    match nodes[i] {
        AstNode::Increment | AstNode::Decrement | AstNode::MoveRight | AstNode::MoveLeft => {
            let kind = if nodes[i] == AstNode::Increment || nodes[i] == AstNode::Decrement {
                RunKind::Cell
            } else {
                RunKind::Cursor
            };
            let end = run_end(nodes, i, kind);
            let net = run_net(nodes, i, kind);
            lemma_run_bounds(nodes, i, kind);
            lemma_run_collapses(nodes, i, kind, input, state, fuel);
            lemma_stays_well_formed(state.tape, net, 0);
            lemma_nothing_changes(state.tape);
            let remaining = left(fuel, (end - i) as nat);
            assert(quick_from(nodes, i, input, state, budget) == quick_run(
                nodes,
                i,
                kind,
                input,
                state,
                budget,
            ));
            if net == 0 {
                lemma_sooner_from(nodes, end, input, state, remaining, budget);
            } else {
                lemma_sooner_from(
                    nodes,
                    end,
                    input,
                    swept(kind, state, net),
                    remaining,
                    (budget - 1) as nat,
                );
            }
        },
        AstNode::Loop(body) => {
            let first = exec_node(nodes[i], input, state, fuel);
            lemma_sooner_loop(nodes[i], input, state, fuel, budget);
            let sooner = quick_loop(nodes[i], input, state, budget);
            lemma_sooner_from(
                nodes,
                i + 1,
                input,
                first.state,
                left(fuel, first.steps),
                left(budget, sooner.steps),
            );
        },
        _ => {
            let next = applied(nodes[i], input, state);
            lemma_stays_well_formed(state.tape, 0, next.tape.current());
            let first = exec_node(nodes[i], input, state, fuel);
            assert(first == Outcome { state: next, steps: 1, done: true });
            lemma_sooner_from(nodes, i + 1, input, next, left(fuel, 1), (budget - 1) as nat);
        },
    }
}

/// Where a loop comes to its end as it is written, it comes to its end as
/// the optimizer sees it, in the same state and after no more steps.
proof fn lemma_sooner_loop(
    node: AstNode,
    input: Seq<u8>,
    state: MachineState,
    fuel: nat,
    budget: nat,
)
    requires
        node is Loop,
        state.tape.well_formed(),
        exec_node(node, input, state, fuel).done,
        exec_node(node, input, state, fuel).steps <= budget,
    ensures
        quick_loop(node, input, state, budget).done,
        quick_loop(node, input, state, budget).state == exec_node(node, input, state, fuel).state,
        quick_loop(node, input, state, budget).steps <= exec_node(node, input, state, fuel).steps,
        exec_node(node, input, state, fuel).state.tape.well_formed(),
    decreases fuel, node, 0int,
{
    let body = node->Loop_0@;
    match idiom(body) {
        Some(op) => {
            lemma_stays_well_formed(state.tape, 0, 0);
            match body[0] {
                AstNode::Increment | AstNode::Decrement => {
                    lemma_counts_to_zero(body, input, state, fuel);
                },
                AstNode::Input => {
                    lemma_reads_to_zero(body, input, state, fuel);
                },
                _ => {
                    let stride = unit(body[0], RunKind::Cursor);
                    let hops = lemma_moves_to_zero(body, input, state, fuel);
                    lemma_first_zero_is_near(state.tape, stride, hops);
                    lemma_seek_finds(state.tape, stride, hops, TAPE_SIZE as nat);
                },
            }
        },
        None => {
            lemma_sooner_while(body, input, state, fuel, budget);
        },
    }
}

/// Where a loop without closed form comes to its end as it is written, it
/// comes to its end as the optimizer sees it, in the same state and after
/// no more steps.
proof fn lemma_sooner_while(
    body: Seq<AstNode>,
    input: Seq<u8>,
    state: MachineState,
    fuel: nat,
    budget: nat,
)
    requires
        state.tape.well_formed(),
        exec_loop(body, input, state, fuel).done,
        exec_loop(body, input, state, fuel).steps <= budget,
    ensures
        quick_while(body, input, state, budget).done,
        quick_while(body, input, state, budget).state == exec_loop(body, input, state, fuel).state,
        quick_while(body, input, state, budget).steps <= exec_loop(body, input, state, fuel).steps,
        exec_loop(body, input, state, fuel).state.tape.well_formed(),
    decreases fuel, body, body.len() + 1,
{
    if state.tape.current() != 0 {
        let once = exec_from(body, 0, input, state, (fuel - 1) as nat);
        if once.state.tape.current() != 0 {
            let again = exec_loop(body, input, once.state, left(fuel, once.steps + 2));
            assert(exec_loop(body, input, state, fuel).steps == once.steps + 2 + again.steps);
        }
        lemma_sooner_from(body, 0, input, state, (fuel - 1) as nat, (budget - 1) as nat);
        let sooner = quick_from(body, 0, input, state, (budget - 1) as nat);
        if once.state.tape.current() != 0 {
            lemma_sooner_while(
                body,
                input,
                once.state,
                left(fuel, once.steps + 2),
                left(budget, sooner.steps + 2),
            );
        }
    }
}

/// Where the nodes from index `i` on come to their end as the optimizer
/// sees them, they come to their end as they are written, in the same
/// state. The fuel that suffices for it comes back.
pub(crate) proof fn lemma_slow_from(
    nodes: Seq<AstNode>,
    i: int,
    input: Seq<u8>,
    state: MachineState,
    fuel: nat,
) -> (enough: nat)
    requires
        0 <= i <= nodes.len(),
        state.tape.well_formed(),
        quick_from(nodes, i, input, state, fuel).done,
    ensures
        exec_from(nodes, i, input, state, enough).done,
        exec_from(nodes, i, input, state, enough).state == quick_from(
            nodes,
            i,
            input,
            state,
            fuel,
        ).state,
        quick_from(nodes, i, input, state, fuel).state.tape.well_formed(),
    decreases fuel, nodes, 2 * (nodes.len() - i),
{
    if i >= nodes.len() {
        return 0;
    }
    match nodes[i] {
        AstNode::Increment | AstNode::Decrement => {
            lemma_run_bounds(nodes, i, RunKind::Cell);
            lemma_slow_run(nodes, i, RunKind::Cell, input, state, fuel)
        },
        AstNode::MoveRight | AstNode::MoveLeft => {
            lemma_run_bounds(nodes, i, RunKind::Cursor);
            lemma_slow_run(nodes, i, RunKind::Cursor, input, state, fuel)
        },
        AstNode::Loop(_) => {
            let first = quick_loop(nodes[i], input, state, fuel);
            let first_fuel = lemma_slow_loop(nodes[i], input, state, fuel);
            let rest_fuel = lemma_slow_from(
                nodes,
                i + 1,
                input,
                first.state,
                left(fuel, first.steps),
            );
            lemma_one_after_the_other(nodes, i, input, state, first_fuel, rest_fuel);
            first_fuel + rest_fuel
        },
        _ => {
            let next = applied(nodes[i], input, state);
            lemma_stays_well_formed(state.tape, 0, next.tape.current());
            let rest_fuel = lemma_slow_from(nodes, i + 1, input, next, (fuel - 1) as nat);
            assert(exec_node(nodes[i], input, state, 1) == Outcome {
                state: next,
                steps: 1,
                done: true,
            });
            lemma_one_after_the_other(nodes, i, input, state, 1, rest_fuel);
            1 + rest_fuel
        },
    }
}

/// Where a run and the nodes behind it come to their end as the optimizer
/// sees them, they do as they are written.
proof fn lemma_slow_run(
    nodes: Seq<AstNode>,
    i: int,
    kind: RunKind,
    input: Seq<u8>,
    state: MachineState,
    fuel: nat,
) -> (enough: nat)
    requires
        0 <= i < run_end(nodes, i, kind) <= nodes.len(),
        state.tape.well_formed(),
        quick_run(nodes, i, kind, input, state, fuel).done,
    ensures
        exec_from(nodes, i, input, state, enough).done,
        exec_from(nodes, i, input, state, enough).state == quick_run(
            nodes,
            i,
            kind,
            input,
            state,
            fuel,
        ).state,
        quick_run(nodes, i, kind, input, state, fuel).state.tape.well_formed(),
    decreases fuel, nodes, 2 * (nodes.len() - i) - 1,
{
    let end = run_end(nodes, i, kind);
    let net = run_net(nodes, i, kind);
    let next = swept(kind, state, net);
    lemma_nothing_changes(state.tape);
    lemma_stays_well_formed(state.tape, net, 0);
    let rest_fuel = if net == 0 {
        assert(next == state);
        lemma_slow_from(nodes, end, input, state, fuel)
    } else {
        lemma_slow_from(nodes, end, input, next, (fuel - 1) as nat)
    };
    lemma_run_expands(nodes, i, kind, input, state, rest_fuel);
    (end - i + rest_fuel) as nat
}

/// Where a loop comes to its end as the optimizer sees it, it does as it
/// is written.
proof fn lemma_slow_loop(
    node: AstNode,
    input: Seq<u8>,
    state: MachineState,
    fuel: nat,
) -> (enough: nat)
    requires
        node is Loop,
        state.tape.well_formed(),
        quick_loop(node, input, state, fuel).done,
    ensures
        exec_node(node, input, state, enough).done,
        exec_node(node, input, state, enough).state == quick_loop(node, input, state, fuel).state,
        quick_loop(node, input, state, fuel).state.tape.well_formed(),
    decreases fuel, node, 0int,
{
    let body = node->Loop_0@;
    match idiom(body) {
        Some(op) => {
            lemma_stays_well_formed(state.tape, 0, 0);
            match body[0] {
                AstNode::Increment | AstNode::Decrement => {
                    let enough = lemma_count_ends(body, input, state);
                    lemma_counts_to_zero(body, input, state, enough);
                    enough
                },
                AstNode::Input => {
                    let enough = lemma_drain_ends(body, input, state);
                    lemma_reads_to_zero(body, input, state, enough);
                    enough
                },
                _ => lemma_seek_ends(body, input, state, TAPE_SIZE as nat),
            }
        },
        None => lemma_slow_while(body, input, state, fuel),
    }
}

/// Where a loop without closed form comes to its end as the optimizer sees
/// it, it does as it is written.
proof fn lemma_slow_while(
    body: Seq<AstNode>,
    input: Seq<u8>,
    state: MachineState,
    fuel: nat,
) -> (enough: nat)
    requires
        state.tape.well_formed(),
        quick_while(body, input, state, fuel).done,
    ensures
        exec_loop(body, input, state, enough).done,
        exec_loop(body, input, state, enough).state == quick_while(body, input, state, fuel).state,
        quick_while(body, input, state, fuel).state.tape.well_formed(),
    decreases fuel, body, body.len() + 1,
{
    if state.tape.current() == 0 {
        2
    } else {
        let quick = quick_from(body, 0, input, state, (fuel - 1) as nat);
        let inside = lemma_slow_from(body, 0, input, state, (fuel - 1) as nat);
        let once = exec_from(body, 0, input, state, inside);
        lemma_more_fuel_from(body, 0, input, state, inside, inside);
        let again: nat = if quick.state.tape.current() != 0 {
            lemma_slow_while(body, input, quick.state, left(fuel, quick.steps + 2))
        } else {
            0
        };
        let enough = inside + 2 + again;
        lemma_more_fuel_from(body, 0, input, state, inside, (enough - 1) as nat);
        if quick.state.tape.current() != 0 {
            lemma_more_fuel_loop(body, input, once.state, again, left(enough, once.steps + 2));
        }
        enough
    }
}

} // verus!
