use bfvm::ast::{parse, AstNode, ParseError};
use bfvm::opcode::OpCode;
use bfvm::optimize::{lower, optimize};
use bfvm::program::{CompileError, ExecutionState, Program};
use bfvm::tape::{Tape, TAPE_SIZE};
use bfvm::token::{lex, BrainFuckToken};

const FUEL: u64 = 10_000_000;

#[test]
fn from_char_recognizes_the_eight_operators() {
    assert_eq!(BrainFuckToken::from_char('>'), Some(BrainFuckToken::MoveRight));
    assert_eq!(BrainFuckToken::from_char('<'), Some(BrainFuckToken::MoveLeft));
    assert_eq!(BrainFuckToken::from_char('+'), Some(BrainFuckToken::Incr));
    assert_eq!(BrainFuckToken::from_char('-'), Some(BrainFuckToken::Decr));
    assert_eq!(BrainFuckToken::from_char('.'), Some(BrainFuckToken::Output));
    assert_eq!(BrainFuckToken::from_char(','), Some(BrainFuckToken::Input));
    assert_eq!(BrainFuckToken::from_char('['), Some(BrainFuckToken::JumpForward));
    assert_eq!(BrainFuckToken::from_char(']'), Some(BrainFuckToken::JumpBackward));
}

#[test]
fn from_char_drops_every_other_character() {
    for c in ['x', ' ', '\n', '0', '(', '}', '\u{e9}', '\u{1F600}'] {
        assert_eq!(BrainFuckToken::from_char(c), None);
    }
}

#[test]
fn lex_keeps_operators_in_order_and_drops_comments() {
    let tokens = lex("a+ b[-\n]>. stop,<");
    assert_eq!(
        tokens,
        vec![
            BrainFuckToken::Incr,
            BrainFuckToken::JumpForward,
            BrainFuckToken::Decr,
            BrainFuckToken::JumpBackward,
            BrainFuckToken::MoveRight,
            BrainFuckToken::Output,
            BrainFuckToken::Input,
            BrainFuckToken::MoveLeft,
        ]
    );
    assert!(lex("").is_empty());
    assert!(lex("no operators here").is_empty());
}

#[test]
fn parse_builds_nested_loops() {
    let ast = parse(&lex("+[>[-]<,]."))
        .unwrap();
    assert_eq!(
        ast,
        vec![
            AstNode::Increment,
            AstNode::Loop(vec![
                AstNode::MoveRight,
                AstNode::Loop(vec![AstNode::Decrement]),
                AstNode::MoveLeft,
                AstNode::Input,
            ]),
            AstNode::Output,
        ]
    );
    assert_eq!(parse(&lex("")), Ok(vec![]));
    assert_eq!(parse(&lex("[]")), Ok(vec![AstNode::Loop(vec![])]));
}

#[test]
fn parse_reports_a_loop_end_without_start() {
    assert_eq!(parse(&lex("]")), Err(ParseError::UnmatchedClose { position: 0 }));
    assert_eq!(parse(&lex("+]")), Err(ParseError::UnmatchedClose { position: 1 }));
    assert_eq!(parse(&lex("[]]+[")), Err(ParseError::UnmatchedClose { position: 2 }));
}

#[test]
fn parse_reports_the_innermost_loop_left_open() {
    assert_eq!(parse(&lex("[")), Err(ParseError::UnmatchedOpen { position: 0 }));
    assert_eq!(parse(&lex("[[]")), Err(ParseError::UnmatchedOpen { position: 0 }));
    assert_eq!(parse(&lex("+[-[>[]")), Err(ParseError::UnmatchedOpen { position: 3 }));
}

#[test]
fn program_parse_reports_by_operator_index() {
    assert_eq!(
        Program::parse("say ] here").err(),
        Some(CompileError::Parse(ParseError::UnmatchedClose { position: 0 }))
    );
    assert_eq!(
        Program::parse("ab+[c").err(),
        Some(CompileError::Parse(ParseError::UnmatchedOpen { position: 1 }))
    );
    assert!(Program::parse("+[->+<]").is_ok());
}

#[test]
fn plus_plus_plus_leaves_three_under_the_cursor() {
    let program = Program::parse("+++").unwrap();
    assert_eq!(program.ops(), &vec![OpCode::Add(3)]);
    let run = program.run(b"", FUEL);
    assert!(run.halted);
    assert_eq!(run.state.tape.get(), 3);
    assert_eq!(run.state.tape.cursor(), 0);
    assert!(run.state.output.is_empty());
}

#[test]
fn read_then_write_echoes_the_input() {
    let program = Program::parse(",.").unwrap();
    let run = program.run(b"A", FUEL);
    assert!(run.halted);
    assert_eq!(run.state.output, b"A".to_vec());
    assert_eq!(run.state.input_pos, 1);
}

#[test]
fn countdown_loop_from_five_ends_at_zero() {
    let ast = parse(&lex("[-]")).unwrap();
    let fast = Program::new(optimize(&ast)).unwrap();
    assert_eq!(fast.ops(), &vec![OpCode::SetZero]);
    let plain = Program::new(lower(&ast)).unwrap();
    assert_eq!(
        plain.ops(),
        &vec![OpCode::JumpIfZero(2), OpCode::Add(-1), OpCode::JumpIfNonZero(0)]
    );
    let mut state = ExecutionState::new();
    state.tape.put(5);
    let run = fast.run_from(state, b"", FUEL);
    assert!(run.halted);
    assert_eq!(run.state.tape.get(), 0);
    for value in 0..=255u8 {
        let mut a = ExecutionState::new();
        a.tape.put(value);
        let mut b = ExecutionState::new();
        b.tape.put(value);
        let quick = fast.run_from(a, b"", FUEL);
        let slow = plain.run_from(b, b"", FUEL);
        assert!(quick.halted && slow.halted);
        assert_eq!(quick.state.tape.get(), 0);
        assert_eq!(slow.state.tape.get(), 0);
    }
}

#[test]
fn clearing_the_right_neighbour_leaves_the_rest_alone() {
    let program = Program::parse(">[-]<").unwrap();
    assert_eq!(
        program.ops(),
        &vec![OpCode::Shift(1), OpCode::SetZero, OpCode::Shift(-1)]
    );
    let mut state = ExecutionState::new();
    state.tape.move_(41);
    state.tape.put(7);
    state.tape.move_(1);
    state.tape.put(9);
    state.tape.move_(-1);
    let run = program.run_from(state, b"", FUEL);
    assert!(run.halted);
    assert_eq!(run.state.tape.cursor(), 41);
    assert_eq!(run.state.tape.cell(41), 7);
    assert_eq!(run.state.tape.cell(42), 0);
}

#[test]
fn cursor_wraps_around_the_tape() {
    assert_eq!(TAPE_SIZE, 30000);
    let program = Program::new(vec![OpCode::Shift(TAPE_SIZE as i128 + 1)]).unwrap();
    let run = program.run(b"", FUEL);
    assert!(run.halted);
    assert_eq!(run.state.tape.cursor(), 1);

    let mut tape = Tape::new();
    tape.move_(-1);
    assert_eq!(tape.cursor(), TAPE_SIZE - 1);
    tape.move_(1);
    assert_eq!(tape.cursor(), 0);
    tape.move_(-(3 * TAPE_SIZE as i128) - 2);
    assert_eq!(tape.cursor(), TAPE_SIZE - 2);
    tape.move_(i128::MAX);
    tape.move_(i128::MIN);
    assert_eq!(tape.cursor(), TAPE_SIZE - 3);

    let left = Program::parse("<").unwrap().run(b"", FUEL);
    assert_eq!(left.state.tape.cursor(), TAPE_SIZE - 1);
}

#[test]
fn cells_wrap_at_eight_bits() {
    let mut tape = Tape::new();
    tape.incr(-1);
    assert_eq!(tape.get(), 255);
    tape.incr(2);
    assert_eq!(tape.get(), 1);
    tape.incr(256 * 5 + 9);
    assert_eq!(tape.get(), 10);
    tape.incr(-1000);
    assert_eq!(tape.get(), 34);
    tape.incr(i128::MIN);
    assert_eq!(tape.get(), 34);
    tape.incr(i128::MAX);
    assert_eq!(tape.get(), 33);
    tape.put(65);
    assert_eq!(tape.getc(), 'A');
    tape.put(233);
    assert_eq!(tape.getc(), '\u{e9}');
}

#[test]
fn putc_keeps_the_lowest_eight_bits() {
    let mut tape = Tape::new();
    tape.putc('A');
    assert_eq!(tape.get(), 65);
    tape.putc('\u{141}');
    assert_eq!(tape.get(), 0x41);
    tape.putc('\u{1F600}');
    assert_eq!(tape.get(), 0);
    tape.putc('\0');
    assert_eq!(tape.get(), 0);
}
