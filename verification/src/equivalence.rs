//! The optimizer is transparent: the optimized program of a tree comes to
//! an end exactly when the plain program of the tree does, and then both
//! leave the same tape, the same output and the same input unread.

use vstd::prelude::*;
use crate::ast::AstNode;
use crate::jumps::{resolved, same_shape};
use crate::machine::{halted, run_for, MachineState};
use crate::opcode::OpCode;
use crate::optimize::{lowered, optimized};
use crate::readings::{lemma_slow_from, lemma_sooner_from};
use crate::semantics::{exec_from, quick_from};
use crate::simulation::{
    lemma_holds_whole,
    lemma_plain_from,
    lemma_quick_from,
    lemma_run_then,
    sound,
};

verus! {

/// The optimizer is transparent.
///
/// Take any tree, the plain program of the tree and its optimized program,
/// both with their jumps resolved, any input and any tape. If the plain
/// program runs to its end within `steps` instructions, then so does the
/// optimized program, and it ends with the same tape, cursor included, the
/// same output, and the same amount of input read.
pub proof fn lemma_optimizer_transparent(
    tree: Seq<AstNode>,
    plain: Seq<OpCode>,
    fast: Seq<OpCode>,
    input: Seq<u8>,
    start: MachineState,
    steps: nat,
)
    requires
        tree.len() <= usize::MAX,
        same_shape(lowered(tree), plain),
        resolved(plain),
        same_shape(optimized(tree), fast),
        resolved(fast),
        start.pc == 0,
        start.tape.well_formed(),
        halted(plain, run_for(plain, input, start, steps)),
    ensures
        halted(fast, run_for(fast, input, start, steps)),
        run_for(fast, input, start, steps).tape == run_for(plain, input, start, steps).tape,
        run_for(fast, input, start, steps).output == run_for(plain, input, start, steps).output,
        run_for(fast, input, start, steps).consumed == run_for(
            plain,
            input,
            start,
            steps,
        ).consumed,
{
    assert(sound(plain) && sound(fast)) by {
        reveal(sound);
    }
    lemma_holds_whole(plain, lowered(tree));
    lemma_holds_whole(fast, optimized(tree));
    assert(start.at(0) == start);
    assert(lowered(tree).len() == plain.len());
    assert(optimized(tree).len() == fast.len());
    let slow = exec_from(tree, 0, input, start, steps);
    lemma_plain_from(plain, tree, 0, 0, input, start, steps);
    assert(slow.done);
    lemma_run_then(
        plain,
        input,
        start,
        slow.steps,
        slow.state.at(plain.len() as int),
        (steps - slow.steps) as nat,
    );
    lemma_sooner_from(tree, 0, input, start, steps, steps);
    let quick = quick_from(tree, 0, input, start, steps);
    lemma_quick_from(fast, tree, 0, 0, input, start, steps);
    lemma_run_then(
        fast,
        input,
        start,
        quick.steps,
        quick.state.at(fast.len() as int),
        (steps - quick.steps) as nat,
    );
}

/// The optimizer adds no ending.
///
/// Take any tree, the plain program of the tree and its optimized program,
/// both with their jumps resolved, any input and any tape. If the
/// optimized program runs to its end within `steps` instructions, then the
/// plain program runs to its end too, within the number of instructions
/// that comes back, and it ends with the same tape, cursor included, the
/// same output, and the same amount of input read.
pub proof fn lemma_optimizer_reflects(
    tree: Seq<AstNode>,
    plain: Seq<OpCode>,
    fast: Seq<OpCode>,
    input: Seq<u8>,
    start: MachineState,
    steps: nat,
) -> (enough: nat)
    requires
        tree.len() <= usize::MAX,
        same_shape(lowered(tree), plain),
        resolved(plain),
        same_shape(optimized(tree), fast),
        resolved(fast),
        start.pc == 0,
        start.tape.well_formed(),
        halted(fast, run_for(fast, input, start, steps)),
    ensures
        halted(plain, run_for(plain, input, start, enough)),
        run_for(plain, input, start, enough).tape == run_for(fast, input, start, steps).tape,
        run_for(plain, input, start, enough).output == run_for(fast, input, start, steps).output,
        run_for(plain, input, start, enough).consumed == run_for(
            fast,
            input,
            start,
            steps,
        ).consumed,
{
    assert(sound(plain) && sound(fast)) by {
        reveal(sound);
    }
    lemma_holds_whole(plain, lowered(tree));
    lemma_holds_whole(fast, optimized(tree));
    assert(start.at(0) == start);
    assert(lowered(tree).len() == plain.len());
    assert(optimized(tree).len() == fast.len());
    let quick = quick_from(tree, 0, input, start, steps);
    lemma_quick_from(fast, tree, 0, 0, input, start, steps);
    assert(quick.done);
    lemma_run_then(
        fast,
        input,
        start,
        quick.steps,
        quick.state.at(fast.len() as int),
        (steps - quick.steps) as nat,
    );
    let enough = lemma_slow_from(tree, 0, input, start, steps);
    let slow = exec_from(tree, 0, input, start, enough);
    lemma_plain_from(plain, tree, 0, 0, input, start, enough);
    lemma_run_then(
        plain,
        input,
        start,
        slow.steps,
        slow.state.at(plain.len() as int),
        (enough - slow.steps) as nat,
    );
    enough
}

} // verus!
