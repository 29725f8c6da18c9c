//! What running a program means: the state of the virtual machine and the
//! effect of each instruction on it.

use vstd::prelude::*;
use crate::opcode::OpCode;
use crate::tape::TapeModel;
use crate::trace::{recorded, LoopTally};

verus! {

/// The state of one run.
pub struct MachineState {
    /// Index of the instruction to execute next.
    pub pc: int,
    pub tape: TapeModel,
    /// Number of input bytes read so far.
    pub consumed: int,
    /// The bytes written so far.
    pub output: Seq<u8>,
}

impl MachineState {
    /// The state in which every run starts: first instruction, blank tape,
    /// no input read, nothing written.
    pub open spec fn initial() -> MachineState {
        MachineState { pc: 0, tape: TapeModel::blank(), consumed: 0, output: Seq::empty() }
    }

    /// The tape is in order and the input cursor lies within `input`.
    pub open spec fn well_formed(self, input: Seq<u8>) -> bool {
        &&& self.pc >= 0
        &&& self.tape.well_formed()
        &&& 0 <= self.consumed <= input.len()
    }

    /// The state with the program counter at `pc`.
    pub open spec fn at(self, pc: int) -> MachineState {
        MachineState { pc, ..self }
    }

    /// The state with `tape` for its tape.
    pub open spec fn with_tape(self, tape: TapeModel) -> MachineState {
        MachineState { tape, ..self }
    }

    /// The state after the current cell was written out.
    pub open spec fn written(self) -> MachineState {
        MachineState { output: self.output.push(self.tape.current()), ..self }
    }

    /// The state after one byte was read into the current cell: the next
    /// byte of `input`, or zero once the input is used up.
    pub open spec fn read(self, input: Seq<u8>) -> MachineState {
        if 0 <= self.consumed < input.len() {
            MachineState {
                tape: self.tape.stored(input[self.consumed]),
                consumed: self.consumed + 1,
                ..self
            }
        } else {
            MachineState { tape: self.tape.stored(0), ..self }
        }
    }

    /// The state after bytes were read into the current cell until it held
    /// zero. Nothing is read if it holds zero already.
    pub open spec fn drained(self, input: Seq<u8>) -> MachineState {
        if self.tape.current() == 0 {
            self
        } else {
            MachineState {
                tape: self.tape.stored(0),
                consumed: drain_end(input, self.consumed),
                ..self
            }
        }
    }
}

/// Number of bytes read once reading from `consumed` on has met a zero: one
/// past the first zero byte at or after `consumed`, or where the input ends.
pub open spec fn drain_end(input: Seq<u8>, consumed: int) -> int
    decreases input.len() - consumed,
{
    if consumed < 0 || consumed >= input.len() {
        consumed
    } else if input[consumed] == 0 {
        consumed + 1
    } else {
        drain_end(input, consumed + 1)
    }
}

/// The program counter has run past the end of the program.
pub open spec fn halted(code: Seq<OpCode>, state: MachineState) -> bool {
    !(0 <= state.pc < code.len())
}

/// The state after the instruction at the program counter. A halted machine
/// stays as it is, and so does one whose seek finds no zero cell: such a
/// seek never ends.
pub open spec fn step(code: Seq<OpCode>, input: Seq<u8>, state: MachineState) -> MachineState {
    if halted(code, state) {
        state
    } else {
        let next = state.pc + 1;
        match code[state.pc] {
            OpCode::Shift(delta) => state.with_tape(state.tape.shifted(delta as int)).at(next),
            OpCode::Add(delta) => state.with_tape(state.tape.added(delta as int)).at(next),
            OpCode::JumpIfZero(target) => if state.tape.current() == 0 {
                state.at(target as int)
            } else {
                state.at(next)
            },
            OpCode::JumpIfNonZero(target) => if state.tape.current() != 0 {
                state.at(target as int)
            } else {
                state.at(next)
            },
            OpCode::Output => state.written().at(next),
            OpCode::Input => state.read(input).at(next),
            OpCode::SetZero => state.with_tape(state.tape.stored(0)).at(next),
            OpCode::SetMax => state.with_tape(state.tape.stored(0)).at(next),
            OpCode::SeekZero(stride) => match state.tape.seek_zero(stride as int) {
                Some(cursor) => state.with_tape(
                    TapeModel { cursor, cells: state.tape.cells },
                ).at(next),
                None => state,
            },
            OpCode::DrainInput => state.drained(input).at(next),
        }
    }
}

/// The loop that the next instruction enters, as the indices of its start
/// and its end: a loop start met with a non-zero cell.
pub open spec fn loop_entered(code: Seq<OpCode>, state: MachineState) -> Option<(int, int)> {
    if halted(code, state) {
        None
    } else {
        match code[state.pc] {
            OpCode::JumpIfZero(target) => if state.tape.current() != 0 {
                Some((state.pc, target as int))
            } else {
                None
            },
            _ => None,
        }
    }
}

/// The state after at most `steps` instructions; fewer if the machine halts
/// before.
pub open spec fn run_for(
    code: Seq<OpCode>,
    input: Seq<u8>,
    state: MachineState,
    steps: nat,
) -> MachineState
    decreases steps,
{
    if steps == 0 || halted(code, state) {
        state
    } else {
        run_for(code, input, step(code, input, state), (steps - 1) as nat)
    }
}

/// The tallies after at most `steps` instructions, when they were `tallies`
/// before: every loop entry on the way is counted.
pub open spec fn profile_for(
    code: Seq<OpCode>,
    input: Seq<u8>,
    state: MachineState,
    steps: nat,
    tallies: Seq<LoopTally>,
) -> Seq<LoopTally>
    decreases steps,
{
    if steps == 0 || halted(code, state) {
        tallies
    } else {
        profile_for(
            code,
            input,
            step(code, input, state),
            (steps - 1) as nat,
            match loop_entered(code, state) {
                Some((entry, exit)) => recorded(tallies, entry, exit),
                None => tallies,
            },
        )
    }
}

/// A machine that an instruction leaves as it is stays so for good.
pub proof fn lemma_stuck(
    code: Seq<OpCode>,
    input: Seq<u8>,
    state: MachineState,
    steps: nat,
    tallies: Seq<LoopTally>,
)
    requires
        step(code, input, state) == state,
        loop_entered(code, state) is None,
    ensures
        run_for(code, input, state, steps) == state,
        profile_for(code, input, state, steps, tallies) == tallies,
    decreases steps,
{
    if steps > 0 && !halted(code, state) {
        lemma_stuck(code, input, state, (steps - 1) as nat, tallies);
    }
}

/// A halted machine is where it will be after any number of steps, and the
/// steps of a run may be taken in two parts.
pub proof fn lemma_run_split(
    code: Seq<OpCode>,
    input: Seq<u8>,
    state: MachineState,
    first: nat,
    second: nat,
)
    ensures
        run_for(code, input, state, first + second) == run_for(
            code,
            input,
            run_for(code, input, state, first),
            second,
        ),
    decreases first,
{
    if first == 0 {
    } else if halted(code, state) {
        lemma_halted_stays(code, input, state, second);
    } else {
        lemma_run_split(code, input, step(code, input, state), (first - 1) as nat, second);
    }
}

/// The loop entries of a run may be counted in two parts: those of the
/// first steps, and on top of them those of the steps that follow.
pub proof fn lemma_profile_split(
    code: Seq<OpCode>,
    input: Seq<u8>,
    state: MachineState,
    first: nat,
    second: nat,
    tallies: Seq<LoopTally>,
)
    ensures
        profile_for(code, input, state, first + second, tallies) == profile_for(
            code,
            input,
            run_for(code, input, state, first),
            second,
            profile_for(code, input, state, first, tallies),
        ),
    decreases first,
{
    if first > 0 && !halted(code, state) {
        let counted = match loop_entered(code, state) {
            Some((entry, exit)) => recorded(tallies, entry, exit),
            None => tallies,
        };
        lemma_profile_split(
            code,
            input,
            step(code, input, state),
            (first - 1) as nat,
            second,
            counted,
        );
    }
}

/// A halted machine does not move.
pub proof fn lemma_halted_stays(code: Seq<OpCode>, input: Seq<u8>, state: MachineState, steps: nat)
    requires
        halted(code, state),
    ensures
        run_for(code, input, state, steps) == state,
{
}

} // verus!
