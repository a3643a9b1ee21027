use boyfriend::codegen::{codegen, Opcode};
use boyfriend::interp::{execute, ExecError, ExecOutcome};
use boyfriend::parser::parse;

#[test]
fn moves_one_cell_into_another() {
    // increment cell 0 to 2, cell 1 to 3, then add cell 0 into cell 1
    let program = codegen(parse("++>+++<[->+<]").unwrap());
    let mut tape = vec![0u8; 16];
    let input = vec![];
    let outcome = execute(&program, &mut tape, &input, 10_000);
    assert_eq!(outcome, ExecOutcome::Halted(vec![]));
    assert_eq!(tape[0], 0);
    assert_eq!(tape[1], 5);
}

#[test]
fn empty_program_does_nothing() {
    let program = codegen(parse("").unwrap());
    assert_eq!(program, vec![]);
    let mut tape = vec![0u8; 4];
    let input = vec![];
    let outcome = execute(&program, &mut tape, &input, 10);
    assert_eq!(outcome, ExecOutcome::Halted(vec![]));
    assert_eq!(tape, vec![0u8; 4]);

    let program = codegen(parse("just a comment").unwrap());
    assert_eq!(program, vec![]);
    let outcome = execute(&program, &mut tape, &input, 10);
    assert_eq!(outcome, ExecOutcome::Halted(vec![]));
    assert_eq!(tape, vec![0u8; 4]);
}

#[test]
fn empty_loop_on_zero_cell_terminates() {
    let program = codegen(parse("[]").unwrap());
    assert_eq!(program, vec![Opcode::JumpIfZero(1), Opcode::JumpUnlessZero(0)]);
    let mut tape = vec![0u8; 4];
    let input = vec![];
    let outcome = execute(&program, &mut tape, &input, 10);
    assert_eq!(outcome, ExecOutcome::Halted(vec![]));
    assert_eq!(tape, vec![0u8; 4]);
}

#[test]
fn empty_loop_on_nonzero_cell_runs_out_of_fuel() {
    let program = codegen(parse("+[]").unwrap());
    let mut tape = vec![0u8; 4];
    let input = vec![];
    let outcome = execute(&program, &mut tape, &input, 1_000);
    assert_eq!(outcome, ExecOutcome::OutOfFuel(vec![]));
}

#[test]
fn reads_then_writes_a_byte() {
    let program = codegen(parse(",+.").unwrap());
    let mut tape = vec![0u8; 4];
    let input = vec![65u8];
    let outcome = execute(&program, &mut tape, &input, 100);
    assert_eq!(outcome, ExecOutcome::Halted(vec![66u8]));
    assert_eq!(tape[0], 66);
}

#[test]
fn writes_appear_in_program_order() {
    let program = codegen(parse("+.+.+.").unwrap());
    let mut tape = vec![0u8; 4];
    let input = vec![];
    let outcome = execute(&program, &mut tape, &input, 100);
    assert_eq!(outcome, ExecOutcome::Halted(vec![1u8, 2u8, 3u8]));
}

#[test]
fn cell_arithmetic_wraps() {
    let program = codegen(parse("-.").unwrap());
    let mut tape = vec![0u8; 1];
    let input = vec![];
    let outcome = execute(&program, &mut tape, &input, 100);
    assert_eq!(outcome, ExecOutcome::Halted(vec![255u8]));
    assert_eq!(tape[0], 255);
}

#[test]
fn moving_left_off_the_tape_fails() {
    let program = codegen(parse("<").unwrap());
    let mut tape = vec![0u8; 4];
    let input = vec![];
    let outcome = execute(&program, &mut tape, &input, 100);
    assert_eq!(outcome, ExecOutcome::Failed(ExecError::TapeBounds));
}

#[test]
fn touching_a_cell_past_the_tape_fails() {
    let program = codegen(parse(">+").unwrap());
    let mut tape = vec![0u8; 1];
    let input = vec![];
    let outcome = execute(&program, &mut tape, &input, 100);
    assert_eq!(outcome, ExecOutcome::Failed(ExecError::TapeBounds));
}

#[test]
fn reading_exhausted_input_fails() {
    let program = codegen(parse(",,").unwrap());
    let mut tape = vec![0u8; 4];
    let input = vec![7u8];
    let outcome = execute(&program, &mut tape, &input, 100);
    assert_eq!(outcome, ExecOutcome::Failed(ExecError::InputExhausted));
    assert_eq!(tape[0], 7);
}

#[test]
fn jump_to_the_word_bound_halts() {
    // a taken jump to the largest representable target advances the counter
    // past every program, so the machine halts rather than overflowing
    let program = vec![Opcode::JumpIfZero(usize::MAX)];
    let mut tape = vec![0u8; 1];
    let input = vec![];
    let outcome = execute(&program, &mut tape, &input, 10);
    assert_eq!(outcome, ExecOutcome::Halted(vec![]));
}

#[test]
fn fuel_bounds_the_run_exactly() {
    // three opcodes: Add(1), Write, Add(1)
    let program = codegen(parse("+.+").unwrap());
    let input = vec![];

    let mut tape = vec![0u8; 1];
    let outcome = execute(&program, &mut tape, &input, 2);
    assert_eq!(outcome, ExecOutcome::OutOfFuel(vec![1u8]));
    assert_eq!(tape[0], 1);

    // the third step runs the last opcode, but the machine only counts as
    // halted once a further step finds the counter past the program
    let mut tape = vec![0u8; 1];
    let outcome = execute(&program, &mut tape, &input, 3);
    assert_eq!(outcome, ExecOutcome::OutOfFuel(vec![1u8]));
    assert_eq!(tape[0], 2);

    let mut tape = vec![0u8; 1];
    let outcome = execute(&program, &mut tape, &input, 4);
    assert_eq!(outcome, ExecOutcome::Halted(vec![1u8]));
    assert_eq!(tape[0], 2);
}
