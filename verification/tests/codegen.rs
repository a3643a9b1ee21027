use boyfriend::codegen::{codegen, Opcode};
use boyfriend::parser::parse;

#[test]
fn empty_ast() {
    assert_eq!(codegen(parse("").unwrap()), vec![]);
}

#[test]
fn folding() {
    assert_eq!(codegen(parse("++").unwrap()), vec![Opcode::Add(2)]);
}

#[test]
fn calculate_loop_offsets() {
    assert_eq!(
        codegen(parse("[]").unwrap()),
        vec![Opcode::JumpIfZero(1), Opcode::JumpUnlessZero(0)]
    );

    assert_eq!(
        codegen(parse("[+]").unwrap()),
        vec![Opcode::JumpIfZero(2), Opcode::Add(1), Opcode::JumpUnlessZero(0)]
    );

    assert_eq!(
        codegen(parse("[+++]").unwrap()),
        vec![Opcode::JumpIfZero(2), Opcode::Add(3), Opcode::JumpUnlessZero(0)]
    );

    assert_eq!(
        codegen(parse("[[[]]]").unwrap()),
        vec![
            Opcode::JumpIfZero(5),
            Opcode::JumpIfZero(4),
            Opcode::JumpIfZero(3),
            Opcode::JumpUnlessZero(2),
            Opcode::JumpUnlessZero(1),
            Opcode::JumpUnlessZero(0),
        ]
    );

    assert_eq!(
        codegen(parse("[[]]").unwrap()),
        vec![
            Opcode::JumpIfZero(3),
            Opcode::JumpIfZero(2),
            Opcode::JumpUnlessZero(1),
            Opcode::JumpUnlessZero(0),
        ]
    );

    assert_eq!(
        codegen(parse("[+[+]+]").unwrap()),
        vec![
            Opcode::JumpIfZero(6),
            Opcode::Add(1),
            Opcode::JumpIfZero(4),
            Opcode::Add(1),
            Opcode::JumpUnlessZero(2),
            Opcode::Add(1),
            Opcode::JumpUnlessZero(0),
        ]
    );
}

#[test]
fn folding_is_strictly_local() {
    assert_eq!(
        codegen(parse("+.+").unwrap()),
        vec![Opcode::Add(1), Opcode::Write, Opcode::Add(1)]
    );
    assert_eq!(
        codegen(parse(">>[<<]>>").unwrap()),
        vec![
            Opcode::MoveRight(2),
            Opcode::JumpIfZero(3),
            Opcode::MoveLeft(2),
            Opcode::JumpUnlessZero(1),
            Opcode::MoveRight(2),
        ]
    );
}

#[test]
fn folding_wraps_the_count() {
    let source: String = std::iter::repeat('+').take(256).collect();
    assert_eq!(codegen(parse(&source).unwrap()), vec![Opcode::Add(0)]);
    let source: String = std::iter::repeat('-').take(257).collect();
    assert_eq!(codegen(parse(&source).unwrap()), vec![Opcode::Sub(1)]);
}

#[test]
fn generating_twice_is_identical() {
    let first = codegen(parse("++>+++<[->+<]").unwrap());
    let second = codegen(parse("++>+++<[->+<]").unwrap());
    assert_eq!(first, second);
}

#[test]
fn all_leaves_lower_one_to_one() {
    assert_eq!(
        codegen(parse("><+-.,").unwrap()),
        vec![
            Opcode::MoveRight(1),
            Opcode::MoveLeft(1),
            Opcode::Add(1),
            Opcode::Sub(1),
            Opcode::Write,
            Opcode::Read,
        ]
    );
}
