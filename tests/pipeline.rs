use habano::compiler::{compile, CompilerErrType, CompilerError};
use habano::input::{cell_from_line, parse_cell};
use habano::lexer::{lex, BfTokenType, TokenPosition};
use habano::vm::{run, RunStatus, StepEvent, VmErrorType, VmIr, VmIrOperands, VmState};

fn ir(operand: VmIrOperands, operand_value: i64) -> VmIr {
    VmIr { operand, operand_value }
}

fn compile_text(text: &str) -> Result<Vec<VmIr>, Vec<CompilerError>> {
    compile(&lex(text))
}

fn positions(text: &str) -> Vec<(usize, usize)> {
    lex(text).positions.iter().map(|p| (p.line, p.column)).collect()
}

#[test]
fn lex_recognises_the_eight_symbols_and_skips_the_rest() {
    let t = lex("+-><[],. x");
    assert_eq!(
        t.token_types,
        vec![
            BfTokenType::Add,
            BfTokenType::Dec,
            BfTokenType::IncrementPointer,
            BfTokenType::DecrementPointer,
            BfTokenType::LoopStart,
            BfTokenType::LoopEnd,
            BfTokenType::Input,
            BfTokenType::Output,
        ]
    );
    assert_eq!(t.positions.len(), 8);
    assert_eq!(t.positions[7], TokenPosition { line: 1, column: 8 });
}

#[test]
fn lex_of_empty_text_is_empty() {
    let t = lex("");
    assert!(t.token_types.is_empty());
    assert!(t.positions.is_empty());
}

#[test]
fn lex_positions_count_comments() {
    assert_eq!(positions("ab+ c-"), vec![(1, 3), (1, 6)]);
}

#[test]
fn lex_positions_across_single_line_breaks() {
    assert_eq!(positions("+\n+\r +"), vec![(1, 1), (2, 1), (3, 2)]);
}

#[test]
fn lex_positions_across_crlf_and_lfcr() {
    assert_eq!(positions("+\r\n+\n\r+"), vec![(1, 1), (2, 1), (3, 1)]);
}

#[test]
fn lex_pairs_line_breaks_greedily() {
    // `\n\r` is one break, the following `\n` another
    assert_eq!(positions("+\n\r\n+"), vec![(1, 1), (3, 1)]);
    assert_eq!(positions("\r\r+"), vec![(3, 1)]);
}

#[test]
fn compile_translates_each_token() {
    let code = compile_text("+-><,.").unwrap();
    assert_eq!(
        code,
        vec![
            ir(VmIrOperands::Add, 1),
            ir(VmIrOperands::Add, -1),
            ir(VmIrOperands::MoveMemoryPointer, 1),
            ir(VmIrOperands::MoveMemoryPointer, 0),
            ir(VmIrOperands::ReadFromConsole, 0),
            ir(VmIrOperands::WriteToConsole, 0),
        ]
    );
}

#[test]
fn compile_pointer_targets_are_running_sums() {
    let code = compile_text(">>><<").unwrap();
    let targets: Vec<i64> = code.iter().map(|i| i.operand_value).collect();
    assert_eq!(targets, vec![1, 2, 3, 2, 1]);
    let code = compile_text("<").unwrap();
    assert_eq!(code, vec![ir(VmIrOperands::MoveMemoryPointer, -1)]);
}

#[test]
fn compile_resolves_nested_loops() {
    let code = compile_text("[[]]").unwrap();
    assert_eq!(
        code,
        vec![
            ir(VmIrOperands::GotoIfZero, 4),
            ir(VmIrOperands::GotoIfZero, 3),
            ir(VmIrOperands::GotoIfNonZero, 1),
            ir(VmIrOperands::GotoIfNonZero, 0),
        ]
    );
}

#[test]
fn compile_pairs_sequential_loops() {
    let code = compile_text("[-][+]").unwrap();
    let zero: Vec<usize> = (0..code.len()).filter(|&i| code[i].operand == VmIrOperands::GotoIfZero).collect();
    let nonzero: Vec<usize> =
        (0..code.len()).filter(|&i| code[i].operand == VmIrOperands::GotoIfNonZero).collect();
    assert_eq!(zero.len(), 2);
    assert_eq!(nonzero.len(), 2);
    for &m in &nonzero {
        let p = code[m].operand_value as usize;
        assert_eq!(code[p], ir(VmIrOperands::GotoIfZero, m as i64 + 1));
    }
    assert_eq!(code[0].operand_value, 3);
    assert_eq!(code[3].operand_value, 6);
}

#[test]
fn compile_lone_loop_start_fails() {
    let errs = compile_text("[").unwrap_err();
    assert_eq!(errs.len(), 1);
    assert_eq!(errs[0].err, CompilerErrType::UnmatchedLoopStart);
    assert_eq!(errs[0].position, TokenPosition { line: 1, column: 1 });
}

#[test]
fn compile_lone_loop_end_fails() {
    let errs = compile_text("]").unwrap_err();
    assert_eq!(errs.len(), 1);
    assert_eq!(errs[0].err, CompilerErrType::UnmatchedLoopEnd);
    assert_eq!(errs[0].position, TokenPosition { line: 1, column: 1 });
}

#[test]
fn compile_reports_every_unmatched_bracket() {
    let errs = compile_text("]\n[[]\n] [").unwrap_err();
    let found: Vec<(CompilerErrType, usize, usize)> =
        errs.iter().map(|e| (e.err, e.position.line, e.position.column)).collect();
    assert_eq!(
        found,
        vec![
            (CompilerErrType::UnmatchedLoopEnd, 1, 1),
            (CompilerErrType::UnmatchedLoopStart, 3, 3),
        ]
    );
    let errs = compile_text("][[").unwrap_err();
    let found: Vec<(CompilerErrType, usize)> = errs.iter().map(|e| (e.err, e.position.column)).collect();
    assert_eq!(
        found,
        vec![
            (CompilerErrType::UnmatchedLoopEnd, 1),
            (CompilerErrType::UnmatchedLoopStart, 2),
            (CompilerErrType::UnmatchedLoopStart, 3),
        ]
    );
}

#[test]
fn compile_matches_loops_after_an_unmatched_end() {
    let errs = compile_text("][]").unwrap_err();
    assert_eq!(errs.len(), 1);
    assert_eq!(errs[0].err, CompilerErrType::UnmatchedLoopEnd);
}

#[test]
fn add_wraps_from_max_to_min() {
    let program = vec![ir(VmIrOperands::Add, 1)];
    let mut vm = VmState::new();
    vm.memory[0] = 127;
    assert_eq!(vm.step(&program), Ok(StepEvent::Continue));
    assert_eq!(vm.memory[0], -128);
    assert_eq!(vm.program_counter, 1);
}

#[test]
fn add_wraps_from_min_to_max() {
    let program = vec![ir(VmIrOperands::Add, -1)];
    let out = run(&program, &vec![], 10);
    assert_eq!(out.status, RunStatus::Finished);
    assert_eq!(out.machine.memory[0], -1);
    let mut vm = VmState::new();
    vm.memory[0] = -128;
    assert_eq!(vm.step(&program), Ok(StepEvent::Continue));
    assert_eq!(vm.memory[0], 127);
}

#[test]
fn add_out_of_cell_range_overflows() {
    let program = vec![ir(VmIrOperands::Add, 128)];
    let mut vm = VmState::new();
    let e = vm.step(&program).unwrap_err();
    assert_eq!(e.err, VmErrorType::Overflow);
    assert_eq!(e.position, 0);
    assert_eq!(e.ir, program[0]);
    assert_eq!(vm.memory[0], 0);
    assert_eq!(vm.program_counter, 0);
}

#[test]
fn set_pointer_below_tape_is_out_of_range() {
    let program = vec![ir(VmIrOperands::MoveMemoryPointer, -1)];
    let mut vm = VmState::new();
    let e = vm.step(&program).unwrap_err();
    assert_eq!(e.err, VmErrorType::AccessViolation);
    assert_eq!(vm.pointer, 0);
    assert_eq!(vm.program_counter, 0);
}

#[test]
fn set_pointer_past_tape_is_out_of_range() {
    let program = vec![ir(VmIrOperands::MoveMemoryPointer, 5), ir(VmIrOperands::MoveMemoryPointer, 30000)];
    let mut vm = VmState::new();
    assert_eq!(vm.step(&program), Ok(StepEvent::Continue));
    let e = vm.step(&program).unwrap_err();
    assert_eq!(e.err, VmErrorType::AccessViolation);
    assert_eq!(e.position, 1);
    assert_eq!(vm.pointer, 5);
    let ok = vec![ir(VmIrOperands::MoveMemoryPointer, 29999)];
    assert_eq!(run(&ok, &vec![], 5).machine.pointer, 29999);
}

#[test]
fn branch_target_out_of_range_faults() {
    let program = vec![ir(VmIrOperands::GotoIfNonZero, 2)];
    let out = run(&program, &vec![], 10);
    assert_eq!(out.status, RunStatus::Faulted(habano::vm::VmError {
        err: VmErrorType::AccessViolation,
        ir: program[0],
        position: 0,
    }));
}

#[test]
fn plus_plus_dot_prints_two() {
    let code = compile_text("++.").unwrap();
    let out = run(&code, &vec![], 100);
    assert_eq!(out.status, RunStatus::Finished);
    assert_eq!(out.output, vec![2u8]);
}

#[test]
fn negative_cell_is_written_as_unsigned_byte() {
    let code = compile_text("-.").unwrap();
    let out = run(&code, &vec![], 100);
    assert_eq!(out.output, vec![255u8]);
}

#[test]
fn plus_loop_minus_ends_with_cell_zero() {
    // the loop start targets index 4, the end of the program
    let code = compile_text("+[-]").unwrap();
    assert_eq!(code[1], ir(VmIrOperands::GotoIfZero, 4));
    let out = run(&code, &vec![], 100);
    assert_eq!(out.status, RunStatus::Finished);
    assert_eq!(out.machine.memory[0], 0);
    assert!(out.output.is_empty());
    let out = run(&compile_text("+[-].").unwrap(), &vec![], 100);
    assert_eq!(out.status, RunStatus::Finished);
    assert_eq!(out.output, vec![0u8]);
}

#[test]
fn loop_skipped_at_end_of_program_ends_normally() {
    let out = run(&compile_text("[+]").unwrap(), &vec![], 100);
    assert_eq!(out.status, RunStatus::Finished);
    assert_eq!(out.machine.memory[0], 0);
    assert_eq!(out.machine.program_counter, 3);
}

#[test]
fn counting_loop_runs_down_to_zero() {
    let code = compile_text("+++[-]>").unwrap();
    let out = run(&code, &vec![], 1000);
    assert_eq!(out.status, RunStatus::Finished);
    assert_eq!(out.machine.memory[0], 0);
    assert!(out.output.is_empty());
    assert_eq!(out.machine.pointer, 1);
}

#[test]
fn loop_with_output_runs_each_iteration() {
    let code = compile_text("+++[.-]>").unwrap();
    let out = run(&code, &vec![], 1000);
    assert_eq!(out.status, RunStatus::Finished);
    assert_eq!(out.output, vec![3u8, 2, 1]);
}

#[test]
fn read_takes_values_in_order() {
    let code = compile_text(",.>,.").unwrap();
    let out = run(&code, &vec![65, -1], 100);
    assert_eq!(out.status, RunStatus::Finished);
    assert_eq!(out.output, vec![65u8, 255]);
    let out = run(&code, &vec![65], 100);
    assert_eq!(out.status, RunStatus::InputExhausted);
    assert_eq!(out.output, vec![65u8]);
}

#[test]
fn step_budget_is_respected() {
    let code = compile_text("+++").unwrap();
    let out = run(&code, &vec![], 2);
    assert_eq!(out.status, RunStatus::OutOfSteps);
    assert_eq!(out.machine.memory[0], 2);
    assert_eq!(out.machine.program_counter, 2);
}

#[test]
fn step_asks_for_input_and_read_input_stores_it() {
    let program = vec![ir(VmIrOperands::ReadFromConsole, 0)];
    let mut vm = VmState::new();
    assert_eq!(vm.step(&program), Ok(StepEvent::AwaitInput));
    assert_eq!(vm.program_counter, 0);
    vm.read_input(-7);
    assert_eq!(vm.memory[0], -7);
    assert_eq!(vm.step(&program), Ok(StepEvent::Halted));
}

#[test]
fn parse_cell_reads_signed_decimals() {
    assert_eq!(parse_cell("12"), 12);
    assert_eq!(parse_cell("+5"), 5);
    assert_eq!(parse_cell("-128"), -128);
    assert_eq!(parse_cell("127"), 127);
    assert_eq!(parse_cell("007"), 7);
}

#[test]
fn parse_cell_gives_zero_otherwise() {
    assert_eq!(parse_cell("128"), 0);
    assert_eq!(parse_cell("-129"), 0);
    assert_eq!(parse_cell("99999999999"), 0);
    assert_eq!(parse_cell(""), 0);
    assert_eq!(parse_cell("-"), 0);
    assert_eq!(parse_cell("1a"), 0);
    assert_eq!(parse_cell(" 1"), 0);
}

#[test]
fn cell_from_line_trims_whitespace() {
    assert_eq!(cell_from_line("  42\n"), 42);
    assert_eq!(cell_from_line("-3\r\n"), -3);
    assert_eq!(cell_from_line("x\n"), 0);
}

#[test]
fn cell_from_line_trims_unicode_white_space() {
    assert_eq!(cell_from_line("\u{3000}\t7\u{a0}\u{2028}"), 7);
    assert_eq!(cell_from_line("\u{200b}7"), 0);
}
