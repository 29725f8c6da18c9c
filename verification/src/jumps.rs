//! Jump resolution: pairing every loop start with its loop end.

use vstd::prelude::*;
use crate::nesting::{
    balanced,
    depth,
    excess_close_at,
    lemma_outcomes_exclusive,
    matched,
    never_negative,
    pending_open_at,
    Bracket,
};
use crate::opcode::OpCode;

verus! {

/// Why a flat instruction sequence is not a program.
#[derive(Clone, Copy, Debug, PartialEq, Eq, Structural)]
pub enum StructuralError {
    /// The loop boundaries do not pair up. `position` is the index of the
    /// first loop end without a start or, where there is none, of the
    /// innermost loop start without an end.
    Unbalanced { position: usize },
}

/// An instruction with its jump target, if it has one, put back to the
/// placeholder.
pub open spec fn unresolved(op: OpCode) -> OpCode {
    match op {
        OpCode::JumpIfZero(_) => OpCode::JumpIfZero(0),
        OpCode::JumpIfNonZero(_) => OpCode::JumpIfNonZero(0),
        _ => op,
    }
}

/// Two instruction sequences differ in their jump targets at most.
pub open spec fn same_shape(a: Seq<OpCode>, b: Seq<OpCode>) -> bool {
    &&& a.len() == b.len()
    &&& forall|i: int| 0 <= i < a.len() ==> unresolved(#[trigger] a[i]) == unresolved(b[i])
}

/// Every loop boundary holds the index of its partner.
pub open spec fn resolved(code: Seq<OpCode>) -> bool {
    forall|i: int|
        0 <= i < code.len() ==> match #[trigger] code[i] {
            OpCode::JumpIfZero(target) => matched(code, i, target as int),
            OpCode::JumpIfNonZero(target) => matched(code, target as int, i),
            _ => true,
        }
}

/// The jump table of a program: for the index of every loop boundary the
/// index that the boundary holds, and nothing for any other index.
pub open spec fn jump_table(code: Seq<OpCode>) -> Seq<Option<usize>> {
    Seq::new(
        code.len(),
        |i: int|
            match code[i] {
                OpCode::JumpIfZero(target) => Some(target),
                OpCode::JumpIfNonZero(target) => Some(target),
                _ => None,
            },
    )
}

/// Following the table twice from a loop boundary leads back to it.
pub open spec fn involution(table: Seq<Option<usize>>) -> bool {
    forall|i: int|
        0 <= i < table.len() ==> match #[trigger] table[i] {
            Some(j) => j < table.len() && table[j as int] == Some(i as usize),
            None => true,
        }
}

/// Nesting depth looks at the kind of an instruction only, not at its target.
pub proof fn lemma_depth_of_shape(a: Seq<OpCode>, b: Seq<OpCode>, k: int)
    requires
        same_shape(a, b),
        k <= a.len(),
    ensures
        depth(a, k) == depth(b, k),
    decreases k,
{
    if k > 0 {
        lemma_depth_of_shape(a, b, k - 1);
        assert(unresolved(a[k - 1]) == unresolved(b[k - 1]));
    }
}

/// Two sequences of one shape have the same loops.
pub proof fn lemma_matched_of_shape(a: Seq<OpCode>, b: Seq<OpCode>, open: int, close: int)
    requires
        same_shape(a, b),
        matched(a, open, close),
    ensures
        matched(b, open, close),
{
    assert(unresolved(a[open]) == unresolved(b[open]));
    assert(unresolved(a[close]) == unresolved(b[close]));
    lemma_depth_of_shape(a, b, close + 1);
    lemma_depth_of_shape(a, b, open);
    assert forall|k: int| open < k <= close implies depth(b, k) > depth(b, open) by {
        lemma_depth_of_shape(a, b, k);
    }
}

/// The jump table of a resolved program pairs the loop boundaries: the
/// partner of the partner of a boundary is the boundary itself.
pub proof fn lemma_jump_table_involution(code: Seq<OpCode>)
    requires
        resolved(code),
    ensures
        involution(jump_table(code)),
{
    let table = jump_table(code);
    assert forall|i: int| 0 <= i < table.len() implies match #[trigger] table[i] {
        Some(j) => j < table.len() && table[j as int] == Some(i as usize),
        None => true,
    } by {
        match code[i] {
            OpCode::JumpIfZero(target) => {
                let close = target as int;
                assert(matched(code, i, close));
                match code[close] {
                    OpCode::JumpIfNonZero(back) => {
                        assert(matched(code, back as int, close));
                        crate::nesting::lemma_opener_unique(code, i, back as int, close);
                    },
                    _ => {},
                }
            },
            OpCode::JumpIfNonZero(target) => {
                let open = target as int;
                assert(matched(code, open, i));
                match code[open] {
                    OpCode::JumpIfZero(forth) => {
                        assert(matched(code, open, forth as int));
                        crate::nesting::lemma_closer_unique(code, open, i, forth as int);
                    },
                    _ => {},
                }
            },
            _ => {},
        }
    }
}

/// The loop start at index `i` is still waiting for its end.
spec fn on_stack(stack: Seq<usize>, i: int) -> bool {
    exists|j: int| 0 <= j < stack.len() && #[trigger] stack[j] == i
}

/// What the scan knows after the first `done` instructions: the loop starts
/// still open, innermost last, and the partner of every other loop boundary.
spec fn scanned(
    code: Seq<OpCode>,
    table: Seq<Option<usize>>,
    stack: Seq<usize>,
    done: int,
) -> bool {
    &&& 0 <= done <= code.len()
    &&& table.len() == code.len()
    &&& never_negative(code, done)
    &&& depth(code, done) == stack.len()
    &&& forall|j: int|
        0 <= j < stack.len() ==> {
            &&& (#[trigger] stack[j]) < done
            &&& code[stack[j] as int].nesting() > 0
            &&& depth(code, stack[j] as int) == j
            &&& forall|k: int| stack[j] < k <= done ==> depth(code, k) > j
        }
    &&& forall|i: int|
        0 <= i < done ==> match #[trigger] code[i] {
            OpCode::JumpIfZero(_) => on_stack(stack, i) && table[i] is None || (table[i] matches Some(
                close,
            ) && matched(code, i, close as int) && close < done),
            OpCode::JumpIfNonZero(_) => table[i] matches Some(open) && matched(
                code,
                open as int,
                i,
            ),
            _ => table[i] is None,
        }
    &&& forall|i: int| done <= i < code.len() ==> (#[trigger] table[i]) is None
}

/// The table pairs the loop boundaries of the code.
spec fn paired(code: Seq<OpCode>, table: Seq<Option<usize>>) -> bool {
    &&& table.len() == code.len()
    &&& forall|i: int|
        0 <= i < code.len() ==> match #[trigger] code[i] {
            OpCode::JumpIfZero(_) => table[i] matches Some(close) && matched(
                code,
                i,
                close as int,
            ),
            OpCode::JumpIfNonZero(_) => table[i] matches Some(open) && matched(
                code,
                open as int,
                i,
            ),
            _ => table[i] is None,
        }
}

/// Pairs the loop boundaries in one scan with a stack of the loop starts
/// that are still open.
fn scan_jumps(ops: &Vec<OpCode>) -> (result: Result<Vec<Option<usize>>, StructuralError>)
    ensures
        result is Ok <==> balanced(ops@),
        match result {
            Ok(table) => paired(ops@, table@),
            Err(StructuralError::Unbalanced { position }) => {
                ||| excess_close_at(ops@, position as int)
                ||| pending_open_at(ops@, position as int)
            },
        },
{
    let count = ops.len();
    let mut table: Vec<Option<usize>> = vec![None; count];
    let mut brackets: Vec<usize> = Vec::new();
    let mut idx: usize = 0;
    while idx < count
        invariant
            ops.len() == count,
            scanned(ops@, table@, brackets@, idx as int),
        decreases count - idx,
    {
        let ghost code = ops@;
        let ghost stack = brackets@;
        let ghost entries = table@;
        match ops[idx] {
            OpCode::JumpIfZero(_) => {
                brackets.push(idx);
                proof {
                    let grown = brackets@;
                    assert(grown[stack.len() as int] == idx);
                    assert forall|i: int| 0 <= i < idx + 1 implies match #[trigger] code[i] {
                        OpCode::JumpIfZero(_) => on_stack(grown, i) && entries[i] is None || (
                        entries[i] matches Some(close) && matched(code, i, close as int) && close
                            < idx + 1),
                        OpCode::JumpIfNonZero(_) => entries[i] matches Some(open) && matched(
                            code,
                            open as int,
                            i,
                        ),
                        _ => entries[i] is None,
                    } by {
                        if i < idx {
                            if on_stack(stack, i) {
                                let j = choose|j: int| 0 <= j < stack.len() && stack[j] == i;
                                assert(grown[j] == i);
                            }
                        }
                    }
                    assert forall|j: int| 0 <= j < grown.len() implies {
                        &&& (#[trigger] grown[j]) < idx + 1
                        &&& code[grown[j] as int].nesting() > 0
                        &&& depth(code, grown[j] as int) == j
                        &&& forall|k: int| grown[j] < k <= idx + 1 ==> depth(code, k) > j
                    } by {
                        if j < stack.len() {
                            assert(grown[j] == stack[j]);
                        }
                    }
                }
            },
            OpCode::JumpIfNonZero(_) => {
                match brackets.pop() {
                    Some(partner) => {
                        table.set(idx, Some(partner));
                        table.set(partner, Some(idx));
                        proof {
                            let shrunk = brackets@;
                            let top = stack.len() - 1;
                            assert(stack[top] == partner);
                            assert(matched(code, partner as int, idx as int));
                            assert forall|i: int| 0 <= i < idx + 1 implies match #[trigger] code[i] {
                                OpCode::JumpIfZero(_) => on_stack(shrunk, i) && table@[i] is None
                                    || (table@[i] matches Some(close) && matched(
                                    code,
                                    i,
                                    close as int,
                                ) && close < idx + 1),
                                OpCode::JumpIfNonZero(_) => table@[i] matches Some(open)
                                    && matched(code, open as int, i),
                                _ => table@[i] is None,
                            } by {
                                if i != idx && i != partner {
                                    assert(table@[i] == entries[i]);
                                    if on_stack(stack, i) {
                                        let j = choose|j: int|
                                            0 <= j < stack.len() && stack[j] == i;
                                        assert(j != top);
                                        assert(shrunk[j] == i);
                                    }
                                }
                            }
                            assert forall|j: int| 0 <= j < shrunk.len() implies {
                                &&& (#[trigger] shrunk[j]) < idx + 1
                                &&& code[shrunk[j] as int].nesting() > 0
                                &&& depth(code, shrunk[j] as int) == j
                                &&& forall|k: int| shrunk[j] < k <= idx + 1 ==> depth(code, k) > j
                            } by {
                                assert(shrunk[j] == stack[j]);
                            }
                        }
                    },
                    None => {
                        proof {
                            assert(excess_close_at(code, idx as int));
                            lemma_outcomes_exclusive(code, idx as int, idx as int);
                        }
                        return Err(StructuralError::Unbalanced { position: idx });
                    },
                }
            },
            _ => {},
        }
        idx = idx + 1;
    }
    if brackets.len() != 0 {
        let position = brackets[brackets.len() - 1];
        proof {
            assert(pending_open_at(ops@, position as int));
            lemma_outcomes_exclusive(ops@, position as int, position as int);
        }
        return Err(StructuralError::Unbalanced { position });
    }
    proof {
        assert(balanced(ops@));
        assert forall|i: int| 0 <= i < ops@.len() implies match #[trigger] ops@[i] {
            OpCode::JumpIfZero(_) => table@[i] matches Some(close) && matched(
                ops@,
                i,
                close as int,
            ),
            OpCode::JumpIfNonZero(_) => table@[i] matches Some(open) && matched(
                ops@,
                open as int,
                i,
            ),
            _ => table@[i] is None,
        } by {
            assert(!on_stack(brackets@, i));
        }
    }
    Ok(table)
}

/// Pairs the loop boundaries of a flat instruction sequence.
///
/// The sequence resolves exactly when its loop boundaries are balanced.
/// Every boundary then holds the index of its partner, written in place of
/// whatever target it held before, and the table that comes back maps the
/// index of each boundary to that of its partner, both ways; nothing but
/// jump targets is changed. Where the boundaries do not balance, the
/// sequence is left as it was and the error names the first loop end
/// without a start or, where there is none, the innermost loop start
/// without an end.
pub fn build_jumps(ops: &mut Vec<OpCode>) -> (result: Result<Vec<Option<usize>>, StructuralError>)
    ensures
        result is Ok <==> balanced(old(ops)@),
        match result {
            Ok(table) => {
                &&& same_shape(old(ops)@, final(ops)@)
                &&& resolved(final(ops)@)
                &&& table@ == jump_table(final(ops)@)
                &&& involution(table@)
            },
            Err(StructuralError::Unbalanced { position }) => {
                &&& final(ops)@ == old(ops)@
                &&& {
                    ||| excess_close_at(old(ops)@, position as int)
                    ||| pending_open_at(old(ops)@, position as int)
                }
            },
        },
{
    let ghost orig = ops@;
    let table = match scan_jumps(ops) {
        Ok(table) => table,
        Err(e) => {
            return Err(e);
        },
    };
    let count = ops.len();
    let mut idx: usize = 0;
    while idx < count
        invariant
            orig == old(ops)@,
            ops.len() == count,
            idx <= count,
            same_shape(orig, ops@),
            paired(orig, table@),
            forall|i: int|
                0 <= i < idx ==> match #[trigger] ops@[i] {
                    OpCode::JumpIfZero(target) => table@[i] == Some(target),
                    OpCode::JumpIfNonZero(target) => table@[i] == Some(target),
                    _ => true,
                },
        decreases count - idx,
    {
        let ghost code = ops@;
        assert(unresolved(orig[idx as int]) == unresolved(code[idx as int]));
        match (ops[idx], table[idx]) {
            (OpCode::JumpIfZero(_), Some(partner)) => {
                ops.set(idx, OpCode::JumpIfZero(partner));
            },
            (OpCode::JumpIfNonZero(_), Some(partner)) => {
                ops.set(idx, OpCode::JumpIfNonZero(partner));
            },
            _ => {},
        }
        proof {
            assert forall|i: int| 0 <= i < orig.len() implies unresolved(#[trigger] orig[i])
                == unresolved(ops@[i]) by {
                assert(unresolved(orig[i]) == unresolved(code[i]));
            }
            assert forall|i: int| 0 <= i < idx + 1 implies match #[trigger] ops@[i] {
                OpCode::JumpIfZero(target) => table@[i] == Some(target),
                OpCode::JumpIfNonZero(target) => table@[i] == Some(target),
                _ => true,
            } by {
                if i < idx {
                    assert(ops@[i] == code[i]);
                }
            }
        }
        idx = idx + 1;
    }
    proof {
        assert forall|i: int| 0 <= i < ops@.len() implies match #[trigger] ops@[i] {
            OpCode::JumpIfZero(target) => matched(ops@, i, target as int),
            OpCode::JumpIfNonZero(target) => matched(ops@, target as int, i),
            _ => true,
        } by {
            assert(unresolved(orig[i]) == unresolved(ops@[i]));
            match ops@[i] {
                OpCode::JumpIfZero(target) => {
                    lemma_matched_of_shape(orig, ops@, i, target as int);
                },
                OpCode::JumpIfNonZero(target) => {
                    lemma_matched_of_shape(orig, ops@, target as int, i);
                },
                _ => {},
            }
        }
        assert(table@ =~= jump_table(ops@)) by {
            assert forall|i: int| 0 <= i < ops@.len() implies table@[i] == jump_table(ops@)[i] by {
                assert(unresolved(orig[i]) == unresolved(ops@[i]));
            }
        }
        lemma_jump_table_involution(ops@);
    }
    Ok(table)
}

} // verus!
