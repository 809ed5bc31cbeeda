use bf_toolkit::{compute_jumps, lex, parse, parse_tokens, Insn, InsnKind, StructuralError};
use bf_toolkit::{add_cell, sub_cell, Machine, RunError};

fn run_to_end(program: &Vec<Insn>, input: Vec<u8>) -> (Machine, Result<bool, RunError>) {
    let mut m = Machine::new(input);
    let r = m.run_steps(program, 1_000_000);
    (m, r)
}

#[test]
fn test_lex() {
    let test = "a+z-b>y<_[1]#,5.&";
    let result = lex(test);
    assert_eq!(result, vec![InsnKind::ADD, InsnKind::SUB, InsnKind::RIGHT, InsnKind::LEFT,
                            InsnKind::OPEN, InsnKind::CLOSE, InsnKind::READ, InsnKind::WRITE]);
}

#[test]
fn test_parse_tokens() {
    let test = vec![InsnKind::ADD, InsnKind::ADD, InsnKind::ADD, InsnKind::OPEN, InsnKind::SUB, InsnKind::CLOSE,
                    InsnKind::RIGHT, InsnKind::RIGHT, InsnKind::RIGHT, InsnKind::LEFT, InsnKind::LEFT, InsnKind::LEFT,
                    InsnKind::READ, InsnKind::READ, InsnKind::WRITE, InsnKind::WRITE];
    let result = parse_tokens(&test);
    assert_eq!(result, vec![Insn::new(InsnKind::ADD, 3), Insn::new(InsnKind::OPEN, 1), Insn::new(InsnKind::SUB, 1), Insn::new(InsnKind::CLOSE, 1),
                            Insn::new(InsnKind::RIGHT, 3), Insn::new(InsnKind::LEFT, 3), Insn::new(InsnKind::READ, 2), Insn::new(InsnKind::WRITE, 2)]);
}

#[test]
fn test_compute_jumps() {
    let mut test = vec![Insn::new(InsnKind::ADD, 3), Insn::new(InsnKind::OPEN, 1), Insn::new(InsnKind::SUB, 1),
                        Insn::new(InsnKind::OPEN, 1), Insn::new(InsnKind::SUB, 1), Insn::new(InsnKind::CLOSE, 1), Insn::new(InsnKind::CLOSE, 1),
                        Insn::new(InsnKind::RIGHT, 3), Insn::new(InsnKind::LEFT, 3), Insn::new(InsnKind::READ, 2), Insn::new(InsnKind::WRITE, 2)];
    assert_eq!(compute_jumps(&mut test), Ok(()));
    assert_eq!(test[1].operand, 7);
    assert_eq!(test[6].operand, 2);
    assert_eq!(test[3].operand, 6);
    assert_eq!(test[5].operand, 4);
}

#[test]
fn test_parse() {
    let test = "+++[-[-]]>>><<<,,..";
    let result = parse(test);
    assert_eq!(result, Ok(vec![Insn::new(InsnKind::ADD, 3), Insn::new(InsnKind::OPEN, 7), Insn::new(InsnKind::SUB, 1),
                            Insn::new(InsnKind::OPEN, 6), Insn::new(InsnKind::SUB, 1), Insn::new(InsnKind::CLOSE, 4), Insn::new(InsnKind::CLOSE, 2),
                            Insn::new(InsnKind::RIGHT, 3), Insn::new(InsnKind::LEFT, 3), Insn::new(InsnKind::READ, 2), Insn::new(InsnKind::WRITE, 2)]));
}

#[test]
fn lex_keeps_only_commands_in_order() {
    assert_eq!(lex(""), vec![]);
    assert_eq!(lex("hello world"), vec![]);
    assert_eq!(lex("é]x[ü"), vec![InsnKind::CLOSE, InsnKind::OPEN]);
}

#[test]
fn parse_tokens_of_empty_is_empty() {
    assert_eq!(parse_tokens(&vec![]), vec![]);
}

#[test]
fn brackets_are_never_merged() {
    let result = parse_tokens(&vec![InsnKind::OPEN, InsnKind::OPEN, InsnKind::CLOSE, InsnKind::CLOSE]);
    assert_eq!(result, vec![Insn::new(InsnKind::OPEN, 1), Insn::new(InsnKind::OPEN, 1),
                            Insn::new(InsnKind::CLOSE, 1), Insn::new(InsnKind::CLOSE, 1)]);
}

#[test]
fn nested_loops_compile_to_eleven_instructions() {
    let program = parse("+++[-[-]]>>><<<,,..").unwrap();
    assert_eq!(program.len(), 11);
    assert_eq!(program[1], Insn::new(InsnKind::OPEN, 7));
    assert_eq!(program[6], Insn::new(InsnKind::CLOSE, 2));
    assert_eq!(program[3], Insn::new(InsnKind::OPEN, 6));
    assert_eq!(program[5], Insn::new(InsnKind::CLOSE, 4));
}

#[test]
fn jumps_of_sibling_loops() {
    let program = parse("[][]").unwrap();
    assert_eq!(program, vec![Insn::new(InsnKind::OPEN, 2), Insn::new(InsnKind::CLOSE, 1),
                             Insn::new(InsnKind::OPEN, 4), Insn::new(InsnKind::CLOSE, 3)]);
}

#[test]
fn two_increments_then_write_emit_two() {
    let program = parse("++.").unwrap();
    for input in [vec![], vec![7u8, 9u8]] {
        let (m, r) = run_to_end(&program, input);
        assert_eq!(r, Ok(true));
        assert_eq!(m.output(), &vec![2u8]);
    }
}

#[test]
fn self_zeroing_loop_halts_at_zero() {
    let program = parse("+[-]").unwrap();
    let (m, r) = run_to_end(&program, vec![]);
    assert_eq!(r, Ok(true));
    assert_eq!(m.cell(0), 0);
}

#[test]
fn lone_close_is_structural_error() {
    assert_eq!(parse("]"), Err(StructuralError::UnmatchedClose(0)));
}

#[test]
fn lone_open_is_structural_error() {
    assert_eq!(parse("+[[-]"), Err(StructuralError::UnmatchedOpen(1)));
}

#[test]
fn failed_resolution_leaves_instructions_alone() {
    let mut test = vec![Insn::new(InsnKind::OPEN, 1), Insn::new(InsnKind::ADD, 2)];
    let before = test.clone();
    assert_eq!(compute_jumps(&mut test), Err(StructuralError::UnmatchedOpen(0)));
    assert_eq!(test, before);
}

#[test]
fn moving_off_the_right_end_fails() {
    let source = ">".repeat(30000);
    let program = parse(&source).unwrap();
    assert_eq!(program, vec![Insn::new(InsnKind::RIGHT, 30000)]);
    let (m, r) = run_to_end(&program, vec![]);
    assert_eq!(r, Err(RunError::TapeBoundsExceeded(0)));
    assert_eq!(m.data_pointer(), 0);
}

#[test]
fn moving_to_the_last_cell_succeeds() {
    let source = ">".repeat(29999);
    let program = parse(&source).unwrap();
    let (m, r) = run_to_end(&program, vec![]);
    assert_eq!(r, Ok(true));
    assert_eq!(m.data_pointer(), 29999);
}

#[test]
fn moving_off_the_left_end_fails() {
    let program = parse("><<").unwrap();
    let (m, r) = run_to_end(&program, vec![]);
    assert_eq!(r, Err(RunError::TapeBoundsExceeded(1)));
    assert_eq!(m.data_pointer(), 1);
    assert_eq!(m.instruction_pointer(), 1);
}

#[test]
fn add_and_subtract_wrap_around() {
    let program = parse("-.+.").unwrap();
    let (m, _) = run_to_end(&program, vec![]);
    assert_eq!(m.output(), &vec![255u8, 0u8]);
    assert_eq!(add_cell(250, 10), 4);
    assert_eq!(sub_cell(3, 10), 249);
    assert_eq!(add_cell(17, 256), 17);
    assert_eq!(sub_cell(17, 512), 17);
    assert_eq!(add_cell(1, usize::MAX), 0);
}

#[test]
fn two_hundred_fifty_six_adds_in_any_grouping_restore_the_cell() {
    let mut c: u8 = 42;
    for n in [100usize, 56, 1, 99] {
        c = add_cell(c, n);
    }
    assert_eq!(c, 42);
    let program = parse(&"+".repeat(256)).unwrap();
    let (m, _) = run_to_end(&program, vec![]);
    assert_eq!(m.cell(0), 0);
    let mut d: u8 = 42;
    for n in [200usize, 56] {
        d = sub_cell(d, n);
    }
    assert_eq!(d, 42);
}

#[test]
fn reads_overwrite_and_give_zero_past_the_end() {
    let program = parse(",,.,.").unwrap();
    let (m, r) = run_to_end(&program, vec![5, 6, 7]);
    assert_eq!(r, Ok(true));
    assert_eq!(m.output(), &vec![6u8, 7u8]);
    let (m, _) = run_to_end(&program, vec![5]);
    assert_eq!(m.output(), &vec![0u8, 0u8]);
}

#[test]
fn compressed_program_behaves_as_unit_program() {
    let source = "++++[>+++<-]>.,,.";
    let compressed = parse(source).unwrap();
    let mut unit: Vec<Insn> = lex(source).into_iter().map(|k| Insn::new(k, 1)).collect();
    assert_eq!(compute_jumps(&mut unit), Ok(()));
    assert!(unit.len() > compressed.len());
    for input in [vec![], vec![1u8, 2u8]] {
        let (a, ra) = run_to_end(&compressed, input.clone());
        let (b, rb) = run_to_end(&unit, input);
        assert_eq!(ra, Ok(true));
        assert_eq!(rb, Ok(true));
        assert_eq!(a.output(), b.output());
        assert_eq!(a.data_pointer(), b.data_pointer());
        for i in 0..4 {
            assert_eq!(a.cell(i), b.cell(i));
        }
    }
}

#[test]
fn step_budget_stops_an_endless_loop() {
    let program = parse("+[]").unwrap();
    let mut m = Machine::new(vec![]);
    assert_eq!(m.run_steps(&program, 1000), Ok(false));
    assert!(!m.is_halted(&program));
}
