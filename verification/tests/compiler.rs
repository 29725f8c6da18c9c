use bfvm::ast::{parse, AstNode};
use bfvm::jumps::{build_jumps, StructuralError};
use bfvm::opcode::{token_run_to_string, OpCode};
use bfvm::optimize::{
    collapse_tokens, find_token_run, handle_zero_out, lower, optimize, RunKind,
};
use bfvm::program::Program;
use bfvm::token::lex;

fn tree(source: &str) -> Vec<AstNode> {
    parse(&lex(source)).unwrap()
}

#[test]
fn runs_collapse_to_their_net_effect() {
    assert_eq!(optimize(&tree("+++--")), vec![OpCode::Add(1)]);
    assert_eq!(optimize(&tree("--+---")), vec![OpCode::Add(-4)]);
    assert_eq!(optimize(&tree(">>><")), vec![OpCode::Shift(2)]);
    assert_eq!(optimize(&tree("<<<<>")), vec![OpCode::Shift(-3)]);
    assert_eq!(
        optimize(&tree("++>>--<.++,--")),
        vec![
            OpCode::Add(2),
            OpCode::Shift(2),
            OpCode::Add(-2),
            OpCode::Shift(-1),
            OpCode::Output,
            OpCode::Add(2),
            OpCode::Input,
            OpCode::Add(-2),
        ]
    );
}

#[test]
fn runs_that_cancel_emit_nothing() {
    assert_eq!(optimize(&tree("+-")), vec![]);
    assert_eq!(optimize(&tree("><<>")), vec![]);
    assert_eq!(optimize(&tree("+-><.-+")), vec![OpCode::Output]);
    assert_eq!(
        optimize(&tree("[+-]")),
        vec![OpCode::JumpIfZero(0), OpCode::JumpIfNonZero(0)]
    );
}

#[test]
fn a_run_of_256_increments_is_not_a_net_zero_run() {
    let source = "+".repeat(256);
    assert_eq!(optimize(&tree(&source)), vec![OpCode::Add(256)]);
}

#[test]
fn single_node_loops_become_idioms() {
    assert_eq!(optimize(&tree("[-]")), vec![OpCode::SetZero]);
    assert_eq!(optimize(&tree("[+]")), vec![OpCode::SetMax]);
    assert_eq!(optimize(&tree("[>]")), vec![OpCode::SeekZero(1)]);
    assert_eq!(optimize(&tree("[<]")), vec![OpCode::SeekZero(-1)]);
    assert_eq!(optimize(&tree("[,]")), vec![OpCode::DrainInput]);
    assert_eq!(handle_zero_out(&tree("-")), Some(OpCode::SetZero));
    assert_eq!(handle_zero_out(&tree("+")), Some(OpCode::SetMax));
    assert_eq!(handle_zero_out(&tree(">")), Some(OpCode::SeekZero(1)));
    assert_eq!(handle_zero_out(&tree("<")), Some(OpCode::SeekZero(-1)));
    assert_eq!(handle_zero_out(&tree(",")), Some(OpCode::DrainInput));
}

#[test]
fn other_loops_become_jump_pairs() {
    assert_eq!(handle_zero_out(&tree(".")), None);
    assert_eq!(handle_zero_out(&tree("")), None);
    assert_eq!(handle_zero_out(&tree("--")), None);
    assert_eq!(handle_zero_out(&tree("[-]")), None);
    assert_eq!(
        optimize(&tree("[.]")),
        vec![OpCode::JumpIfZero(0), OpCode::Output, OpCode::JumpIfNonZero(0)]
    );
    assert_eq!(
        optimize(&tree("[--]")),
        vec![OpCode::JumpIfZero(0), OpCode::Add(-2), OpCode::JumpIfNonZero(0)]
    );
    assert_eq!(
        optimize(&tree("[[-]]")),
        vec![OpCode::JumpIfZero(0), OpCode::SetZero, OpCode::JumpIfNonZero(0)]
    );
    assert_eq!(
        optimize(&tree("[]")),
        vec![OpCode::JumpIfZero(0), OpCode::JumpIfNonZero(0)]
    );
}

#[test]
fn runs_do_not_reach_across_a_loop() {
    assert_eq!(
        optimize(&tree("++[>>]++")),
        vec![
            OpCode::Add(2),
            OpCode::JumpIfZero(0),
            OpCode::Shift(2),
            OpCode::JumpIfNonZero(0),
            OpCode::Add(2),
        ]
    );
}

#[test]
fn find_token_run_measures_net_and_end() {
    let nodes = tree("++-+>>.");
    assert_eq!(find_token_run(&nodes, 0, RunKind::Cell), (2, 4));
    assert_eq!(find_token_run(&nodes, 2, RunKind::Cell), (0, 4));
    assert_eq!(find_token_run(&nodes, 4, RunKind::Cell), (0, 4));
    assert_eq!(find_token_run(&nodes, 4, RunKind::Cursor), (2, 6));
    assert_eq!(find_token_run(&nodes, 0, RunKind::Cursor), (0, 0));
    assert_eq!(find_token_run(&nodes, 7, RunKind::Cursor), (0, 7));
}

#[test]
fn a_run_at_or_behind_the_end_is_empty() {
    let nodes = tree("++-+>>.");
    for start in [7usize, 8, 9, 1000, usize::MAX] {
        assert_eq!(find_token_run(&nodes, start, RunKind::Cell), (0, start));
        assert_eq!(find_token_run(&nodes, start, RunKind::Cursor), (0, start));
    }
    let none = tree("");
    assert_eq!(find_token_run(&none, 0, RunKind::Cell), (0, 0));
    assert_eq!(find_token_run(&none, 5, RunKind::Cursor), (0, 5));
}

#[test]
fn a_run_nets_both_signs() {
    let nodes = tree("+++-+");
    assert_eq!(find_token_run(&nodes, 1, RunKind::Cell), (2, 5));
    assert_eq!(find_token_run(&nodes, 3, RunKind::Cell), (0, 5));
    assert_eq!(find_token_run(&nodes, 4, RunKind::Cell), (1, 5));
}

#[test]
fn collapse_tokens_of_an_empty_run_appends_nothing() {
    let nodes = tree("<<<+-.");
    let mut out = vec![OpCode::Input];
    for start in [5usize, 6, 7, usize::MAX] {
        assert_eq!(collapse_tokens(&nodes, start, RunKind::Cell, &mut out), start);
        assert_eq!(collapse_tokens(&nodes, start, RunKind::Cursor, &mut out), start);
    }
    assert_eq!(collapse_tokens(&nodes, 0, RunKind::Cell, &mut out), 0);
    assert_eq!(collapse_tokens(&nodes, 3, RunKind::Cursor, &mut out), 3);
    assert_eq!(out, vec![OpCode::Input]);
}

#[test]
fn collapse_tokens_appends_at_most_one_instruction() {
    let nodes = tree("<<<+-.");
    let mut out = vec![OpCode::Output];
    assert_eq!(collapse_tokens(&nodes, 0, RunKind::Cursor, &mut out), 3);
    assert_eq!(out, vec![OpCode::Output, OpCode::Shift(-3)]);
    assert_eq!(collapse_tokens(&nodes, 3, RunKind::Cell, &mut out), 5);
    assert_eq!(out, vec![OpCode::Output, OpCode::Shift(-3)]);
}

#[test]
fn lowering_collapses_nothing() {
    assert_eq!(
        lower(&tree("+-[-]>,.<")),
        vec![
            OpCode::Add(1),
            OpCode::Add(-1),
            OpCode::JumpIfZero(0),
            OpCode::Add(-1),
            OpCode::JumpIfNonZero(0),
            OpCode::Shift(1),
            OpCode::Input,
            OpCode::Output,
            OpCode::Shift(-1),
        ]
    );
}

#[test]
fn build_jumps_pairs_every_loop_boundary() {
    let mut ops = optimize(&tree("+[>[.]<[-.]]."));
    let table = build_jumps(&mut ops).unwrap();
    assert_eq!(
        ops,
        vec![
            OpCode::Add(1),
            OpCode::JumpIfZero(11),
            OpCode::Shift(1),
            OpCode::JumpIfZero(5),
            OpCode::Output,
            OpCode::JumpIfNonZero(3),
            OpCode::Shift(-1),
            OpCode::JumpIfZero(10),
            OpCode::Add(-1),
            OpCode::Output,
            OpCode::JumpIfNonZero(7),
            OpCode::JumpIfNonZero(1),
            OpCode::Output,
        ]
    );
    assert_eq!(
        table,
        vec![
            None,
            Some(11),
            None,
            Some(5),
            None,
            Some(3),
            None,
            Some(10),
            None,
            None,
            Some(7),
            Some(1),
            None,
        ]
    );
}

#[test]
fn jump_table_is_an_involution() {
    for source in ["", "[]", "+[>[.]<[-.]].", "[[[[.]]]][.][[.].]", ",[.[-].,]"] {
        let program = Program::parse(source).unwrap();
        let table = program.jumps();
        assert_eq!(table.len(), program.ops().len());
        for (i, entry) in table.iter().enumerate() {
            match (program.ops()[i], entry) {
                (OpCode::JumpIfZero(target), Some(j)) => {
                    assert_eq!(target, *j);
                    assert!(i < *j);
                    assert_eq!(table[*j], Some(i));
                    assert_eq!(program.ops()[*j], OpCode::JumpIfNonZero(i));
                }
                (OpCode::JumpIfNonZero(target), Some(j)) => {
                    assert_eq!(target, *j);
                    assert!(*j < i);
                    assert_eq!(table[*j], Some(i));
                }
                (_, None) => {}
                (op, entry) => panic!("{:?} has table entry {:?}", op, entry),
            }
        }
    }
}

#[test]
fn build_jumps_overwrites_stale_targets() {
    let mut ops = vec![OpCode::JumpIfZero(17), OpCode::Output, OpCode::JumpIfNonZero(99)];
    let table = build_jumps(&mut ops).unwrap();
    assert_eq!(ops, vec![OpCode::JumpIfZero(2), OpCode::Output, OpCode::JumpIfNonZero(0)]);
    assert_eq!(table, vec![Some(2), None, Some(0)]);
}

#[test]
fn unbalanced_instructions_do_not_resolve() {
    let mut ops = vec![OpCode::Output, OpCode::JumpIfNonZero(0), OpCode::JumpIfZero(0)];
    assert_eq!(build_jumps(&mut ops), Err(StructuralError::Unbalanced { position: 1 }));
    let mut ops = vec![OpCode::JumpIfZero(0), OpCode::JumpIfZero(0), OpCode::JumpIfNonZero(0)];
    assert_eq!(build_jumps(&mut ops), Err(StructuralError::Unbalanced { position: 0 }));
    assert_eq!(
        ops,
        vec![OpCode::JumpIfZero(0), OpCode::JumpIfZero(0), OpCode::JumpIfNonZero(0)]
    );
    let mut ops = vec![
        OpCode::JumpIfZero(0),
        OpCode::JumpIfZero(0),
        OpCode::JumpIfNonZero(0),
        OpCode::JumpIfZero(0),
    ];
    assert_eq!(build_jumps(&mut ops), Err(StructuralError::Unbalanced { position: 3 }));
    assert_eq!(
        Program::new(vec![OpCode::JumpIfNonZero(0)]).err(),
        Some(StructuralError::Unbalanced { position: 0 })
    );
    assert_eq!(
        Program::new(vec![OpCode::Add(1), OpCode::JumpIfZero(0)]).err(),
        Some(StructuralError::Unbalanced { position: 1 })
    );
}

#[test]
fn a_tree_always_compiles() {
    for source in ["", "+", "[]", "[[]]", "++[>+<-]>.", "[,][+][-][>][<][.]"] {
        assert!(Program::compile(&tree(source)).is_ok());
        assert!(Program::new(lower(&tree(source))).is_ok());
    }
}

#[test]
fn instructions_render_as_tokens() {
    assert_eq!(OpCode::Shift(3).render(), " M3");
    assert_eq!(OpCode::Shift(-12).render(), " M-12");
    assert_eq!(OpCode::Add(1).render(), " I1");
    assert_eq!(OpCode::Add(-255).render(), " I-255");
    assert_eq!(OpCode::Add(0).render(), " I0");
    assert_eq!(OpCode::Add(1000).render(), " I1000");
    assert_eq!(OpCode::JumpIfZero(7).render(), " [");
    assert_eq!(OpCode::JumpIfNonZero(2).render(), " ]");
    assert_eq!(OpCode::Output.render(), "O");
    assert_eq!(OpCode::Input.render(), " I");
    assert_eq!(OpCode::SetZero.render(), " @");
    assert_eq!(OpCode::SetMax.render(), " ^");
    assert_eq!(OpCode::SeekZero(1).render(), " S1");
    assert_eq!(OpCode::SeekZero(-1).render(), " S-1");
    assert_eq!(OpCode::DrainInput.render(), " D");
    assert_eq!(
        OpCode::Shift(i128::MAX).render(),
        " M170141183460469231731687303715884105727"
    );
    assert_eq!(
        OpCode::Shift(i128::MIN).render(),
        " M-170141183460469231731687303715884105728"
    );
    let mut text = String::from("x");
    OpCode::Add(90).write_to(&mut text);
    assert_eq!(text, "x I90");
}

#[test]
fn token_run_to_string_renders_a_span_in_program_order() {
    let program = Program::parse("+[->+<].").unwrap();
    let ops = program.ops();
    assert_eq!(token_run_to_string((1, 6), ops), " [ I-1 M1 I1 M-1 ]");
    assert_eq!(token_run_to_string((0, 0), ops), " I1");
    assert_eq!(token_run_to_string((6, 7), ops), " ]O");
    assert_eq!(token_run_to_string((0, 7), ops), " I1 [ I-1 M1 I1 M-1 ]O");
}
