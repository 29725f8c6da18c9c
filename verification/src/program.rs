//! Compiled programs and the interpreter that runs them.

use vstd::prelude::*;
use crate::ast::{parse, tokens_of, AstNode, ParseError};
use crate::jumps::{build_jumps, jump_table, involution, resolved, same_shape, StructuralError};
use crate::machine::{
    drain_end,
    halted,
    lemma_stuck,
    loop_entered,
    profile_for,
    run_for,
    step,
    MachineState,
};
use crate::nesting::{balanced, excess_close_at, matched, pending_open_at};
use crate::opcode::OpCode;
use crate::optimize::{lemma_optimized_balanced, optimize, optimized};
use crate::tape::Tape;
use crate::token::{lex, lexed};
use crate::trace::{lemma_recorded, recorded, spans_within, total, LoopTally, Trace};

verus! {

/// The state of one run: where the program stands, what the tape holds, how
/// much input was read and what was written.
pub struct ExecutionState {
    pub pc: usize,
    pub tape: Tape,
    pub input_pos: usize,
    pub output: Vec<u8>,
}

impl View for ExecutionState {
    type V = MachineState;

    open spec fn view(&self) -> MachineState {
        MachineState {
            pc: self.pc as int,
            tape: self.tape@,
            consumed: self.input_pos as int,
            output: self.output@,
        }
    }
}

impl ExecutionState {
    /// The state in which every run starts.
    pub fn new() -> (state: ExecutionState)
        ensures
            state@ == MachineState::initial(),
    {
        ExecutionState { pc: 0, tape: Tape::new(), input_pos: 0, output: Vec::new() }
    }
}

/// What a run leaves behind.
pub struct Execution {
    /// The state in which the run ended or ran out of steps.
    pub state: ExecutionState,
    /// The loop entries counted on the way.
    pub profile: Trace,
    /// Whether the program ran to its end.
    pub halted: bool,
}

/// Why a source text does not compile.
#[derive(Clone, Copy, Debug, PartialEq, Eq, Structural)]
pub enum CompileError {
    /// The loop brackets of the source do not pair up.
    Parse(ParseError),
    /// The loop boundaries of the instructions do not pair up.
    Resolve(StructuralError),
}

/// A compiled program: resolved instructions and their jump table.
#[derive(Debug)]
pub struct Program {
    ops: Vec<OpCode>,
    jumps: Vec<Option<usize>>,
}

impl View for Program {
    type V = Seq<OpCode>;

    closed spec fn view(&self) -> Seq<OpCode> {
        self.ops@
    }
}

impl Program {
    /// The jump table: for the index of every loop boundary the index of
    /// its partner.
    pub closed spec fn table(&self) -> Seq<Option<usize>> {
        self.jumps@
    }

    /// Every loop boundary holds the index of its partner, and the jump
    /// table says the same.
    pub open spec fn wf(&self) -> bool {
        &&& resolved(self@)
        &&& self.table() == jump_table(self@)
    }

    /// Makes a program of a flat instruction sequence by resolving its
    /// jumps. Fails exactly when the loop boundaries are not balanced.
    pub fn new(ops: Vec<OpCode>) -> (result: Result<Program, StructuralError>)
        ensures
            result is Ok <==> balanced(ops@),
            match result {
                Ok(program) => {
                    &&& program.wf()
                    &&& same_shape(ops@, program@)
                    &&& involution(program.table())
                },
                Err(StructuralError::Unbalanced { position }) => {
                    ||| excess_close_at(ops@, position as int)
                    ||| pending_open_at(ops@, position as int)
                },
            },
    {
        let mut ops = ops;
        match build_jumps(&mut ops) {
            Ok(jumps) => Ok(Program { ops, jumps }),
            Err(e) => Err(e),
        }
    }

    /// Compiles a tree: optimizes it and resolves the jumps. The
    /// instructions of a tree always resolve.
    pub fn compile(ast: &Vec<AstNode>) -> (result: Result<Program, StructuralError>)
        ensures
            match result {
                Ok(program) => {
                    &&& program.wf()
                    &&& same_shape(optimized(ast@), program@)
                    &&& involution(program.table())
                },
                Err(_) => false,
            },
    {
        let ops = optimize(ast);
        proof {
            lemma_optimized_balanced(ast@, 0);
        }
        Program::new(ops)
    }

    /// Compiles a source text: lexes it, builds the tree, optimizes it and
    /// resolves the jumps.
    ///
    /// A text compiles exactly when the loop brackets among its operators
    /// are balanced. The program is then the optimized form of the one tree
    /// that spells those operators. Otherwise the error names, by its index
    /// among the operators, the first loop end without a start or, where
    /// there is none, the innermost loop start without an end.
    pub fn parse(source: &str) -> (result: Result<Program, CompileError>)
        ensures
            result is Ok <==> balanced(lexed(source@)),
            match result {
                Ok(program) => {
                    &&& program.wf()
                    &&& involution(program.table())
                    &&& exists|ast: Seq<AstNode>|
                        #[trigger] tokens_of(ast) == lexed(source@) && same_shape(
                            optimized(ast),
                            program@,
                        )
                },
                Err(CompileError::Parse(ParseError::UnmatchedOpen { position })) => pending_open_at(
                    lexed(source@),
                    position as int,
                ),
                Err(
                    CompileError::Parse(ParseError::UnmatchedClose { position }),
                ) => excess_close_at(lexed(source@), position as int),
                Err(CompileError::Resolve(_)) => false,
            },
    {
        let tokens = lex(source);
        match parse(&tokens) {
            Ok(ast) => match Program::compile(&ast) {
                Ok(program) => {
                    proof {
                        assert(tokens_of(ast@) == lexed(source@));
                    }
                    Ok(program)
                },
                Err(e) => Err(CompileError::Resolve(e)),
            },
            Err(e) => Err(CompileError::Parse(e)),
        }
    }

    /// The instructions, jumps resolved.
    pub fn ops(&self) -> (ops: &Vec<OpCode>)
        ensures
            ops@ == self@,
    {
        &self.ops
    }

    /// The jump table.
    pub fn jumps(&self) -> (jumps: &Vec<Option<usize>>)
        ensures
            jumps@ == self.table(),
    {
        &self.jumps
    }

    /// Executes the instruction at the program counter and tells the
    /// profiler if a loop is entered. Says whether the machine moved: it
    /// does not when a seek finds no zero cell, for such a seek never ends.
    pub fn step(
        &self,
        state: &mut ExecutionState,
        input: &[u8],
        tracer: &mut Trace,
    ) -> (moved: bool)
        requires
            self.wf(),
            old(state)@.well_formed(input@),
            !halted(self@, old(state)@),
            old(tracer).wf(),
            total(old(tracer)@) < u64::MAX,
        ensures
            final(state)@ == step(self@, input@, old(state)@),
            final(state)@.well_formed(input@),
            final(state).pc <= self@.len(),
            moved == (final(state)@ != old(state)@),
            final(tracer).wf(),
            final(tracer)@ == match loop_entered(self@, old(state)@) {
                Some((entry, exit)) => recorded(old(tracer)@, entry, exit),
                None => old(tracer)@,
            },
            final(tracer).complete() == (old(tracer).complete() && loop_entered(
                self@,
                old(state)@,
            ) is None),
    {
        let pc = state.pc;
        assert(pc < self.ops.len());
        let op = self.ops[pc];
        match op {
            OpCode::Shift(delta) => {
                state.tape.move_(delta);
                state.pc = pc + 1;
                true
            },
            OpCode::Add(delta) => {
                state.tape.incr(delta);
                state.pc = pc + 1;
                true
            },
            OpCode::JumpIfZero(target) => {
                assert(matched(self@, pc as int, target as int));
                if state.tape.get() == 0 {
                    state.pc = target;
                } else {
                    tracer.trace((pc, target));
                    state.pc = pc + 1;
                }
                true
            },
            OpCode::JumpIfNonZero(target) => {
                assert(matched(self@, target as int, pc as int));
                if state.tape.get() != 0 {
                    state.pc = target;
                } else {
                    state.pc = pc + 1;
                }
                true
            },
            OpCode::Output => {
                let value = state.tape.get();
                state.output.push(value);
                state.pc = pc + 1;
                true
            },
            OpCode::Input => {
                if state.input_pos < input.len() {
                    state.tape.put(input[state.input_pos]);
                    state.input_pos = state.input_pos + 1;
                } else {
                    state.tape.put(0);
                }
                state.pc = pc + 1;
                true
            },
            OpCode::SetZero => {
                state.tape.put(0);
                state.pc = pc + 1;
                true
            },
            OpCode::SetMax => {
                state.tape.put(0);
                state.pc = pc + 1;
                true
            },
            OpCode::SeekZero(stride) => {
                let found = state.tape.seek(stride);
                if found {
                    state.pc = pc + 1;
                }
                found
            },
            OpCode::DrainInput => {
                if state.tape.get() != 0 {
                    let ghost start = state.input_pos as int;
                    let mut pos: usize = state.input_pos;
                    while pos < input.len() && input[pos] != 0
                        invariant
                            start <= pos <= input.len(),
                            drain_end(input@, start) == drain_end(input@, pos as int),
                        decreases input.len() - pos,
                    {
                        pos = pos + 1;
                    }
                    if pos < input.len() {
                        pos = pos + 1;
                    }
                    state.input_pos = pos;
                    state.tape.put(0);
                }
                state.pc = pc + 1;
                true
            },
        }
    }

    /// Takes up a run where it stopped, for at most `fuel` instructions
    /// more. The profile of the run goes on counting.
    ///
    /// The run ends when the program counter passes the last instruction.
    /// A program may loop for ever; `fuel` bounds the instructions executed,
    /// and `halted` tells whether the end was reached within the bound.
    pub fn resume(&self, run: Execution, input: &[u8], fuel: u64) -> (next: Execution)
        requires
            self.wf(),
            run.state@.well_formed(input@),
            run.profile.wf(),
            spans_within(run.profile@, self@.len() as int),
            total(run.profile@) + fuel <= u64::MAX,
        ensures
            next.state@ == run_for(self@, input@, run.state@, fuel as nat),
            next.state@.well_formed(input@),
            next.halted == halted(self@, next.state@),
            next.profile@ == profile_for(self@, input@, run.state@, fuel as nat, run.profile@),
            next.profile.wf(),
            next.profile.complete() == next.halted,
            spans_within(next.profile@, self@.len() as int),
            total(next.profile@) <= total(run.profile@) + fuel,
    {
        let ghost start = run.state@;
        let ghost counted = run.profile@;
        let mut state = run.state;
        let mut tracer = run.profile;
        let mut remaining: u64 = fuel;
        while remaining > 0 && state.pc < self.ops.len()
            invariant
                self.wf(),
                state@.well_formed(input@),
                tracer.wf(),
                total(tracer@) + remaining <= total(counted) + fuel <= u64::MAX,
                spans_within(tracer@, self@.len() as int),
                run_for(self@, input@, start, fuel as nat) == run_for(
                    self@,
                    input@,
                    state@,
                    remaining as nat,
                ),
                profile_for(self@, input@, start, fuel as nat, counted) == profile_for(
                    self@,
                    input@,
                    state@,
                    remaining as nat,
                    tracer@,
                ),
            decreases remaining,
        {
            let ghost before = state@;
            let ghost tallies = tracer@;
            proof {
                lemma_entry_is_span(self@, before);
                match loop_entered(self@, before) {
                    Some((entry, exit)) => {
                        lemma_recorded(tallies, entry, exit);
                    },
                    None => {},
                }
            }
            let moved = self.step(&mut state, input, &mut tracer);
            if moved {
                remaining = remaining - 1;
            } else {
                proof {
                    lemma_stuck(self@, input@, before, remaining as nat, tallies);
                }
                remaining = 0;
            }
        }
        let halted = state.pc >= self.ops.len();
        if halted {
            tracer.finish();
        } else {
            tracer.reopen();
        }
        Execution { state, profile: tracer, halted }
    }

    /// Runs the program from `state` on, for at most `fuel` instructions,
    /// with a fresh profiler.
    pub fn run_from(&self, state: ExecutionState, input: &[u8], fuel: u64) -> (run: Execution)
        requires
            self.wf(),
            state@.well_formed(input@),
        ensures
            run.state@ == run_for(self@, input@, state@, fuel as nat),
            run.state@.well_formed(input@),
            run.halted == halted(self@, run.state@),
            run.profile@ == profile_for(
                self@,
                input@,
                state@,
                fuel as nat,
                Seq::<LoopTally>::empty(),
            ),
            run.profile.wf(),
            run.profile.complete() == run.halted,
            spans_within(run.profile@, self@.len() as int),
            total(run.profile@) <= fuel,
    {
        self.resume(Execution { state, profile: Trace::new(), halted: false }, input, fuel)
    }

    /// Runs the program from the start, on a blank tape, for at most `fuel`
    /// instructions.
    pub fn run(&self, input: &[u8], fuel: u64) -> (run: Execution)
        requires
            self.wf(),
        ensures
            run.state@ == run_for(self@, input@, MachineState::initial(), fuel as nat),
            run.state@.well_formed(input@),
            run.halted == halted(self@, run.state@),
            run.profile@ == profile_for(
                self@,
                input@,
                MachineState::initial(),
                fuel as nat,
                Seq::<LoopTally>::empty(),
            ),
            run.profile.wf(),
            run.profile.complete() == run.halted,
            spans_within(run.profile@, self@.len() as int),
            total(run.profile@) <= fuel,
    {
        self.run_from(ExecutionState::new(), input, fuel)
    }
}

/// A loop that is entered is a span of the program.
proof fn lemma_entry_is_span(code: Seq<OpCode>, state: MachineState)
    requires
        resolved(code),
    ensures
        match loop_entered(code, state) {
            Some((entry, exit)) => 0 <= entry <= exit < code.len(),
            None => true,
        },
{
    if !halted(code, state) {
        match code[state.pc] {
            OpCode::JumpIfZero(target) => {
                assert(matched(code, state.pc, target as int));
            },
            _ => {},
        }
    }
}

} // verus!
