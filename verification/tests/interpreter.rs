use bfvm::ast::parse;
use bfvm::opcode::OpCode;
use bfvm::optimize::{lower, optimize};
use bfvm::program::{ExecutionState, Program};
use bfvm::tape::{Tape, TAPE_SIZE};
use bfvm::token::lex;
use bfvm::trace::Trace;

const FUEL: u64 = 50_000_000;

fn rows(run: &bfvm::program::Execution, program: &Program) -> Vec<(String, u64)> {
    assert!(run.halted);
    let mut rows = run.profile.report(program.ops());
    rows.sort();
    rows
}

#[test]
fn hello_world_prints_hello_world() {
    let source = "++++++++[>++++[>++>+++>+++>+<<<<-]>+>+>->>+[<]<-]>>.>---.+++++++..+++.>>.<-.<.+++.------.--------.>>+.>++.";
    let program = Program::parse(source).unwrap();
    let run = program.run(b"", FUEL);
    assert!(run.halted);
    assert_eq!(run.state.output, b"Hello World!\n".to_vec());
}

#[test]
fn input_is_consumed_left_to_right_and_ends_in_zero() {
    let program = Program::parse(",.,.,.,.").unwrap();
    let run = program.run(b"ab", FUEL);
    assert!(run.halted);
    assert_eq!(run.state.output, vec![b'a', b'b', 0, 0]);
    assert_eq!(run.state.input_pos, 2);
}

#[test]
fn a_run_stops_when_the_fuel_is_spent() {
    let program = Program::parse("+[]").unwrap();
    let run = program.run(b"", 1000);
    assert!(!run.halted);
    assert_eq!(run.state.tape.get(), 1);
    let run = program.run(b"", 0);
    assert!(!run.halted);
    assert_eq!(run.state.pc, 0);
    assert_eq!(run.state.tape.get(), 0);
    let empty = Program::parse("").unwrap();
    assert!(empty.run(b"", 0).halted);
}

#[test]
fn a_run_taken_up_again_goes_on_where_it_stopped() {
    let source = format!("{}[>+.<-]>.", "+".repeat(120));
    let program = Program::parse(&source).unwrap();
    let whole = program.run(b"", FUEL);
    assert!(whole.halted);
    for first in [0u64, 1, 2, 7, 100, 359, 10_000] {
        let part = program.run(b"", first);
        let counted = part.profile.entries();
        assert!(counted <= first);
        let mut run = program.resume(part, b"", 50);
        assert!(run.profile.entries() <= counted + 50);
        while !run.halted {
            run = program.resume(run, b"", 50);
        }
        assert_eq!(run.state.output, whole.state.output);
        assert_eq!(run.state.pc, whole.state.pc);
        assert_eq!(run.state.tape.cursor(), whole.state.tape.cursor());
        assert_eq!(run.state.tape.get(), whole.state.tape.get());
        assert_eq!(run.profile.count((1, 7)), 120);
        assert_eq!(run.profile.entries(), 120);
        assert_eq!(rows(&run, &program), rows(&whole, &program));
    }
    let done = program.resume(whole, b"", 5);
    assert!(done.halted);
    assert_eq!(done.profile.count((1, 7)), 120);
}

#[test]
fn entries_counts_every_loop_entry() {
    let mut trace = Trace::new();
    assert_eq!(trace.entries(), 0);
    trace.trace((0, 3));
    trace.trace((4, 9));
    trace.trace((0, 3));
    assert_eq!(trace.entries(), 3);
    trace.finish();
    trace.reopen();
    assert_eq!(trace.entries(), 3);
    assert_eq!(trace.count((0, 3)), 2);
    trace.reset();
    assert_eq!(trace.entries(), 0);
}

#[test]
fn each_instruction_takes_one_step() {
    let program = Program::parse("+>+<[-]").unwrap();
    assert_eq!(program.ops().len(), 5);
    for fuel in 0..5u64 {
        let run = program.run(b"", fuel);
        assert!(!run.halted);
        assert_eq!(run.state.pc, fuel as usize);
    }
    let run = program.run(b"", 5);
    assert!(run.halted);
    assert_eq!(run.state.pc, 5);
}

#[test]
fn jumps_go_to_the_partner() {
    let program = Program::parse("[.]+[.-]").unwrap();
    let mut state = ExecutionState::new();
    let mut tracer = Trace::new();
    assert!(program.step(&mut state, b"", &mut tracer));
    assert_eq!(state.pc, 2);
    assert!(program.step(&mut state, b"", &mut tracer));
    assert_eq!(state.pc, 3);
    assert!(program.step(&mut state, b"", &mut tracer));
    assert_eq!(state.pc, 4);
    assert_eq!(tracer.count((4, 7)), 0);
    assert!(program.step(&mut state, b"", &mut tracer));
    assert_eq!(state.pc, 5);
    assert_eq!(tracer.count((4, 7)), 1);
    assert!(program.step(&mut state, b"", &mut tracer));
    assert!(program.step(&mut state, b"", &mut tracer));
    assert_eq!(state.pc, 7);
    assert_eq!(state.tape.get(), 0);
    assert!(program.step(&mut state, b"", &mut tracer));
    assert_eq!(state.pc, 8);
    assert_eq!(state.output, vec![1]);
    assert_eq!(tracer.count((4, 7)), 1);
    assert_eq!(tracer.count((0, 2)), 0);
}

#[test]
fn a_taken_backward_jump_lands_on_the_loop_start() {
    let program = Program::parse("++[.-]").unwrap();
    let mut state = ExecutionState::new();
    let mut tracer = Trace::new();
    for _ in 0..4 {
        assert!(program.step(&mut state, b"", &mut tracer));
    }
    assert_eq!(state.pc, 4);
    assert!(program.step(&mut state, b"", &mut tracer));
    assert_eq!(state.pc, 1);
    assert_eq!(tracer.count((1, 4)), 1);
    assert!(program.step(&mut state, b"", &mut tracer));
    assert_eq!(state.pc, 2);
    assert_eq!(tracer.count((1, 4)), 2);
}

#[test]
fn set_max_does_what_the_loop_of_one_increment_does() {
    let ast = parse(&lex("[+]")).unwrap();
    let fast = Program::new(optimize(&ast)).unwrap();
    let plain = Program::new(lower(&ast)).unwrap();
    for value in 0..=255u8 {
        let mut a = ExecutionState::new();
        a.tape.put(value);
        let mut b = ExecutionState::new();
        b.tape.put(value);
        let quick = fast.run_from(a, b"", FUEL);
        let slow = plain.run_from(b, b"", FUEL);
        assert!(quick.halted && slow.halted);
        assert_eq!(quick.state.tape.get(), slow.state.tape.get());
        assert_eq!(quick.state.tape.get(), 0);
    }
}

#[test]
fn seek_zero_stops_on_the_first_zero_cell() {
    let program = Program::new(vec![OpCode::SeekZero(1)]).unwrap();
    let mut state = ExecutionState::new();
    for _ in 0..5 {
        state.tape.put(3);
        state.tape.move_(1);
    }
    state.tape.move_(-5);
    let run = program.run_from(state, b"", FUEL);
    assert!(run.halted);
    assert_eq!(run.state.tape.cursor(), 5);

    let back = Program::new(vec![OpCode::SeekZero(-1)]).unwrap();
    let mut state = ExecutionState::new();
    state.tape.put(1);
    let run = back.run_from(state, b"", FUEL);
    assert!(run.halted);
    assert_eq!(run.state.tape.cursor(), TAPE_SIZE - 1);

    let stay = Program::new(vec![OpCode::SeekZero(1)]).unwrap();
    let run = stay.run(b"", FUEL);
    assert!(run.halted);
    assert_eq!(run.state.tape.cursor(), 0);
}

#[test]
fn seek_in_wide_strides_visits_only_its_own_cells() {
    let mut tape = Tape::new();
    tape.put(1);
    tape.move_(2);
    tape.put(1);
    tape.move_(-2);
    assert!(tape.seek(2));
    assert_eq!(tape.cursor(), 4);
    let mut tape = Tape::new();
    for _ in 0..TAPE_SIZE / 2 {
        tape.put(9);
        tape.move_(2);
    }
    assert_eq!(tape.cursor(), 0);
    assert!(!tape.seek(2));
    assert_eq!(tape.cursor(), 0);
    assert!(!tape.seek(-2));
    tape.move_(1);
    assert!(tape.seek(2));
    assert_eq!(tape.cursor(), 1);
}

#[test]
fn a_seek_without_zero_cell_never_ends() {
    let mut state = ExecutionState::new();
    for _ in 0..TAPE_SIZE {
        state.tape.put(1);
        state.tape.move_(1);
    }
    let program = Program::parse("[>].").unwrap();
    let mut tracer = Trace::new();
    let mut probe = ExecutionState::new();
    for _ in 0..TAPE_SIZE {
        probe.tape.put(1);
        probe.tape.move_(1);
    }
    assert!(!program.step(&mut probe, b"", &mut tracer));
    assert_eq!(probe.pc, 0);
    let run = program.run_from(state, b"", FUEL);
    assert!(!run.halted);
    assert_eq!(run.state.pc, 0);
    assert_eq!(run.state.tape.cursor(), 0);
    assert!(run.state.output.is_empty());
}

#[test]
fn drain_input_reads_up_to_the_first_zero_byte() {
    let program = Program::parse("+[,].,.").unwrap();
    assert_eq!(
        program.ops(),
        &vec![OpCode::Add(1), OpCode::DrainInput, OpCode::Output, OpCode::Input, OpCode::Output]
    );
    let run = program.run(b"ab\0cd", FUEL);
    assert!(run.halted);
    assert_eq!(run.state.output, vec![0, b'c']);
    assert_eq!(run.state.input_pos, 4);
}

#[test]
fn drain_input_takes_the_end_of_input_for_a_zero_byte() {
    let program = Program::parse("+[,].,.").unwrap();
    let run = program.run(b"abc", FUEL);
    assert!(run.halted);
    assert_eq!(run.state.output, vec![0, 0]);
    assert_eq!(run.state.input_pos, 3);
}

#[test]
fn drain_input_reads_nothing_when_the_cell_is_zero() {
    let program = Program::parse("[,],.").unwrap();
    let run = program.run(b"xy", FUEL);
    assert!(run.halted);
    assert_eq!(run.state.output, vec![b'x']);
    assert_eq!(run.state.input_pos, 1);
}

#[test]
fn a_program_can_be_run_again_from_a_fresh_state() {
    let program = Program::parse(",[.-]").unwrap();
    let first = program.run(b"\x03", FUEL);
    let second = program.run(b"\x02", FUEL);
    assert_eq!(first.state.output, vec![3, 2, 1]);
    assert_eq!(second.state.output, vec![2, 1]);
    assert_eq!(first.profile.count((1, 4)), 3);
    assert_eq!(second.profile.count((1, 4)), 2);
}

fn same_result(source: &str, input: &[u8]) {
    let ast = parse(&lex(source)).unwrap();
    let fast = Program::new(optimize(&ast)).unwrap();
    let plain = Program::new(lower(&ast)).unwrap();
    let quick = fast.run(input, FUEL);
    let slow = plain.run(input, FUEL);
    assert!(slow.halted, "{}", source);
    assert!(quick.halted, "{}", source);
    assert_eq!(quick.state.output, slow.state.output, "{}", source);
    assert_eq!(quick.state.input_pos, slow.state.input_pos, "{}", source);
    assert_eq!(quick.state.tape.cursor(), slow.state.tape.cursor(), "{}", source);
    for index in 0..TAPE_SIZE {
        assert_eq!(quick.state.tape.cell(index), slow.state.tape.cell(index), "{}", source);
    }
}

#[test]
fn optimized_and_plain_programs_end_in_the_same_state() {
    let sources = [
        "",
        "+++",
        ",.",
        "+-+-><><",
        "+++[-]",
        "---[+]",
        "+++[+].",
        "+>+>+>+>>+<<<<<[>]+.",
        "+>+>+<<<[<]+.>[<]-.",
        ",[,].,.",
        "+[,].",
        ",[.,]",
        "++++++++[>++++[>++>+++>+++>+<<<<-]>+>+>->>+[<]<-]>>.>---.+++++++..+++.>>.<-.<.+++.------.--------.>>+.>++.",
        ">>>+++[<+>-]<[<++>-]<.",
        "-[-[-[-]]]+.",
        "<<<+[>+]>.",
        "+[>+]",
        ",>,<[->+<]>.",
        "++[>++[>++[>++<-]<-]<-]>>>.",
    ];
    for source in sources {
        for input in [&b""[..], &b"A"[..], &b"hello\0world"[..], &b"\x01\x02\x03"[..]] {
            same_result(source, input);
        }
    }
}

#[test]
fn a_loop_entered_150_times_is_reported_and_one_entered_50_times_is_not() {
    let source = format!("{}[->+<]>[-]{}[->+<]", "+".repeat(150), "+".repeat(50));
    let program = Program::parse(&source).unwrap();
    let run = program.run(b"", FUEL);
    assert_eq!(run.profile.count((1, 6)), 150);
    assert_eq!(run.profile.count((10, 15)), 50);
    assert_eq!(rows(&run, &program), vec![(" [ I-1 M1 I1 M-1 ]".to_string(), 150)]);
}

#[test]
fn a_loop_entered_from_outside_150_times_is_reported() {
    let source = format!("{}[>+[-.]<-]", "+".repeat(150));
    let program = Program::parse(&source).unwrap();
    let run = program.run(b"", FUEL);
    assert_eq!(run.state.output.len(), 150);
    assert_eq!(run.profile.count((4, 7)), 150);
    assert_eq!(run.profile.count((1, 10)), 150);
    assert_eq!(
        rows(&run, &program),
        vec![
            (" [ I-1O ]".to_string(), 150),
            (" [ M1 I1 [ I-1O ] M-1 I-1 ]".to_string(), 150),
        ]
    );
}

#[test]
fn a_loop_entered_exactly_100_times_is_not_hot() {
    let hundred = format!("{}[.-]", "+".repeat(100));
    let program = Program::parse(&hundred).unwrap();
    let run = program.run(b"", FUEL);
    assert_eq!(run.profile.count((1, 4)), 100);
    assert!(rows(&run, &program).is_empty());
    let more = format!("{}[.-]", "+".repeat(101));
    let program = Program::parse(&more).unwrap();
    let run = program.run(b"", FUEL);
    assert_eq!(rows(&run, &program), vec![(" [O I-1 ]".to_string(), 101)]);
}

#[test]
fn loops_of_the_same_text_are_reported_together() {
    let source = format!("{}[.-]{}[.-]+++[.-]", "+".repeat(120), "+".repeat(130));
    let program = Program::parse(&source).unwrap();
    let run = program.run(b"", FUEL);
    assert_eq!(run.profile.count((1, 4)), 120);
    assert_eq!(run.profile.count((6, 9)), 130);
    assert_eq!(run.profile.count((11, 14)), 3);
    assert_eq!(rows(&run, &program), vec![(" [O I-1 ]".to_string(), 250)]);
}

#[test]
fn a_loop_met_with_a_zero_cell_is_not_entered() {
    let program = Program::parse("[.][.]+[-.]").unwrap();
    let run = program.run(b"", FUEL);
    assert!(run.halted);
    assert_eq!(run.profile.count((0, 2)), 0);
    assert_eq!(run.profile.count((3, 5)), 0);
    assert_eq!(run.profile.count((7, 10)), 1);
}

#[test]
fn trace_counts_by_loop_and_reset_forgets() {
    let mut trace = Trace::new();
    assert_eq!(trace.count((0, 3)), 0);
    trace.trace((0, 3));
    trace.trace((4, 9));
    trace.trace((0, 3));
    trace.trace((0, 4));
    assert_eq!(trace.count((0, 3)), 2);
    assert_eq!(trace.count((4, 9)), 1);
    assert_eq!(trace.count((0, 4)), 1);
    assert_eq!(trace.count((3, 0)), 0);
    trace.reset();
    assert_eq!(trace.count((0, 3)), 0);
    assert_eq!(trace.count((4, 9)), 0);
}

#[test]
fn report_of_a_hand_made_profile() {
    let ops = vec![
        OpCode::JumpIfZero(2),
        OpCode::Output,
        OpCode::JumpIfNonZero(0),
        OpCode::JumpIfZero(5),
        OpCode::Output,
        OpCode::JumpIfNonZero(3),
        OpCode::JumpIfZero(8),
        OpCode::Input,
        OpCode::JumpIfNonZero(6),
    ];
    let mut trace = Trace::new();
    for _ in 0..101 {
        trace.trace((0, 2));
    }
    for _ in 0..100 {
        trace.trace((3, 5));
    }
    for _ in 0..300 {
        trace.trace((6, 8));
    }
    trace.finish();
    let mut rows = trace.report(&ops);
    rows.sort();
    assert_eq!(rows, vec![(" [ I ]".to_string(), 300), (" [O ]".to_string(), 101)]);
    trace.trace((3, 5));
    trace.finish();
    let mut rows = trace.report(&ops);
    rows.sort();
    assert_eq!(rows, vec![(" [ I ]".to_string(), 300), (" [O ]".to_string(), 202)]);
}

struct Dice(u64);

impl Dice {
    fn roll(&mut self, sides: u64) -> u64 {
        self.0 = self.0.wrapping_mul(6364136223846793005).wrapping_add(1442695040888963407);
        (self.0 >> 33) % sides
    }
}

fn random_source(dice: &mut Dice, length: usize) -> String {
    let mut source = String::new();
    let mut open = 0;
    for _ in 0..length {
        let symbol = match dice.roll(12) {
            0 | 1 => '+',
            2 | 3 => '-',
            4 => '>',
            5 => '<',
            6 => '.',
            7 => ',',
            8 | 9 => {
                open += 1;
                '['
            }
            _ => {
                if open > 0 {
                    open -= 1;
                    ']'
                } else {
                    '+'
                }
            }
        };
        source.push(symbol);
    }
    for _ in 0..open {
        source.push(']');
    }
    source
}

#[test]
fn random_programs_run_alike_optimized_and_plain() {
    let mut dice = Dice(2024);
    let mut both_halted = 0;
    for round in 0..3000 {
        let source = random_source(&mut dice, 4 + round % 24);
        let input: Vec<u8> = (0..dice.roll(6)).map(|_| dice.roll(4) as u8).collect();
        let ast = parse(&lex(&source)).unwrap();
        let fast = Program::new(optimize(&ast)).unwrap();
        let plain = Program::new(lower(&ast)).unwrap();
        let slow = plain.run(&input, 20_000);
        let quick = fast.run(&input, 20_000);
        if slow.halted {
            assert!(quick.halted, "{}", source);
        }
        if slow.halted && quick.halted {
            both_halted += 1;
            assert_eq!(quick.state.output, slow.state.output, "{}", source);
            assert_eq!(quick.state.input_pos, slow.state.input_pos, "{}", source);
            assert_eq!(quick.state.tape.cursor(), slow.state.tape.cursor(), "{}", source);
            for index in (0..40).chain(TAPE_SIZE - 40..TAPE_SIZE) {
                assert_eq!(
                    quick.state.tape.cell(index),
                    slow.state.tape.cell(index),
                    "{}",
                    source
                );
            }
        }
    }
    assert!(both_halted > 1000);
}
