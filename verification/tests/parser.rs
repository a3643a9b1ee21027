use boyfriend::parser::{parse, Instruction};

#[test]
fn empty_source() {
    assert_eq!(parse("this program is effectively empty"), Some(vec![]));
    assert_eq!(parse(""), Some(vec![]));
}

#[test]
fn singleton_instructions() {
    assert_eq!(
        parse("><+-.,"),
        Some(vec![
            Instruction::MoveRight,
            Instruction::MoveLeft,
            Instruction::Increment,
            Instruction::Decrement,
            Instruction::Write,
            Instruction::Read,
        ])
    );
}

#[test]
fn empty_loop() {
    assert_eq!(parse("[]"), Some(vec![Instruction::Loop(vec![])]));
}

#[test]
fn simple_loop() {
    assert_eq!(
        parse("+[-]+"),
        Some(vec![
            Instruction::Increment,
            Instruction::Loop(vec![Instruction::Decrement]),
            Instruction::Increment,
        ])
    );
}

#[test]
fn nested_loop() {
    assert_eq!(
        parse("+[-[+]-]+"),
        Some(vec![
            Instruction::Increment,
            Instruction::Loop(vec![
                Instruction::Decrement,
                Instruction::Loop(vec![Instruction::Increment]),
                Instruction::Decrement,
            ]),
            Instruction::Increment,
        ])
    );
}

#[test]
#[should_panic]
fn missing_close_loop() {
    parse("+[-+").unwrap();
}

#[test]
#[should_panic]
fn missing_open_loop() {
    parse("+[-]+]").unwrap();
}

#[test]
fn inert_characters_are_transparent() {
    assert_eq!(parse("a +\nb[ c- d]e!"), parse("+[-]"));
    assert_eq!(parse("one, two"), parse(","));
}

#[test]
fn unicode_comments_are_inert() {
    assert_eq!(parse("héllo→+<"), parse("+<"));
}

#[test]
fn deeply_unbalanced_sources_fail() {
    assert_eq!(parse("[[][]"), None);
    assert_eq!(parse("]["), None);
    assert_eq!(parse("[[[]]"), None);
}

#[test]
fn balanced_sources_parse() {
    assert!(parse("[[]][]").is_some());
    assert!(parse("[+[+]+[-]]").is_some());
}
