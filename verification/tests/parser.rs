use hrm_optimizer::datacube::DataCube;
use hrm_optimizer::errors::AsmParseError;
use hrm_optimizer::instruction::{Address, Instruction};
use hrm_optimizer::program::Program;

const HEADER: &str = "-- HUMAN RESOURCE MACHINE PROGRAM --";

#[test]
fn parses_echo_program() {
    let text = format!("{}\n\na:\n    INBOX\n    OUTBOX\n    JUMP a\n", HEADER);
    let p = Program::from_asm(&text).unwrap();
    assert_eq!(p.instructions.len(), 3);
    assert!(matches!(p.instructions[0], Instruction::Inbox));
    assert!(matches!(p.instructions[1], Instruction::Outbox));
    assert!(matches!(p.instructions[2], Instruction::Jump(ref l) if l == "a"));
    assert_eq!(p.jump_label_lines, vec![("a".to_string(), 0)]);
    let (_, out) = p
        .simulate(vec![DataCube::Number(1), DataCube::Number(2)])
        .unwrap();
    assert_eq!(out, vec![DataCube::Number(1), DataCube::Number(2)]);
}

#[test]
fn parses_addresses_and_comments() {
    let text = format!(
        "{}\nCOPYFROM 3 -- load\nCOPYTO [2]\nADD 0\nSUB [1]\nBUMPUP 4\nBUMPDN 5\nCOMMENT 0\n",
        HEADER
    );
    let p = Program::from_asm(&text).unwrap();
    assert_eq!(p.instructions.len(), 6);
    assert!(matches!(p.instructions[0], Instruction::CopyFrom(Address::Direct(3))));
    assert!(matches!(p.instructions[1], Instruction::CopyTo(Address::Indirect(2))));
    assert!(matches!(p.instructions[2], Instruction::Add(Address::Direct(0))));
    assert!(matches!(p.instructions[3], Instruction::Sub(Address::Indirect(1))));
    assert!(matches!(p.instructions[4], Instruction::BumpUp(Address::Direct(4))));
    assert!(matches!(p.instructions[5], Instruction::BumpDn(Address::Direct(5))));
}

#[test]
fn define_ends_the_parse() {
    let text = format!("{}\nINBOX\nDEFINE LABEL 0\nOUTBOX\n", HEADER);
    let p = Program::from_asm(&text).unwrap();
    assert_eq!(p.instructions.len(), 1);
}

#[test]
fn empty_file() {
    assert!(matches!(Program::from_asm(""), Err(AsmParseError::EmptyFile)));
}

#[test]
fn missing_header() {
    assert!(matches!(
        Program::from_asm("INBOX\n"),
        Err(AsmParseError::MissingHeader)
    ));
    assert!(matches!(
        Program::from_asm("\n\n  \n"),
        Err(AsmParseError::MissingHeader)
    ));
}

#[test]
fn header_after_blank_lines() {
    let text = format!("\n   \n{}\nINBOX\n", HEADER);
    let p = Program::from_asm(&text).unwrap();
    assert_eq!(p.instructions.len(), 1);
}

#[test]
fn unexpected_token() {
    let text = format!("{}\nINBOX 3\n", HEADER);
    assert!(matches!(
        Program::from_asm(&text),
        Err(AsmParseError::UnexpectedToken(t)) if t == "3"
    ));
    let text = format!("{}\nCOPYFROM 1 2\n", HEADER);
    assert!(matches!(
        Program::from_asm(&text),
        Err(AsmParseError::UnexpectedToken(t)) if t == "2"
    ));
    let text = format!("{}\nWALTZ 1\n", HEADER);
    assert!(matches!(
        Program::from_asm(&text),
        Err(AsmParseError::UnexpectedToken(t)) if t == "WALTZ"
    ));
    let text = format!("{}\na: b\n", HEADER);
    assert!(matches!(
        Program::from_asm(&text),
        Err(AsmParseError::UnexpectedToken(t)) if t == "b"
    ));
}

#[test]
fn expected_token() {
    let text = format!("{}\nCOPYFROM\n", HEADER);
    assert!(matches!(Program::from_asm(&text), Err(AsmParseError::ExpectedToken)));
    let text = format!("{}\nJUMP\n", HEADER);
    assert!(matches!(Program::from_asm(&text), Err(AsmParseError::ExpectedToken)));
}

#[test]
fn int_parse_error() {
    let text = format!("{}\nCOPYFROM x\n", HEADER);
    assert!(matches!(Program::from_asm(&text), Err(AsmParseError::IntParseError)));
    let text = format!("{}\nCOPYTO [] \n", HEADER);
    assert!(matches!(Program::from_asm(&text), Err(AsmParseError::IntParseError)));
}

#[test]
fn unknown_label() {
    let text = format!("{}\nJUMP nowhere\n", HEADER);
    assert!(matches!(
        Program::from_asm(&text),
        Err(AsmParseError::UnknownLabel(l)) if l == "nowhere"
    ));
}

#[test]
fn label_at_end_is_allowed() {
    let text = format!("{}\nJUMP e\nINBOX\ne:\n", HEADER);
    let p = Program::from_asm(&text).unwrap();
    assert_eq!(p.jump_label_lines, vec![("e".to_string(), 2)]);
    let (steps, out) = p.simulate(vec![]).unwrap();
    assert_eq!(steps, 1);
    assert_eq!(out, vec![]);
}

#[test]
fn parse_from_args_cases() {
    assert!(matches!(
        Instruction::parse_from_args("INBOX", None),
        Ok(Instruction::Inbox)
    ));
    assert!(matches!(
        Instruction::parse_from_args("x:", None),
        Ok(Instruction::_Label(l)) if l == "x"
    ));
    assert!(matches!(
        Instruction::parse_from_args("JUMPZ", Some("t")),
        Ok(Instruction::JumpZ(l)) if l == "t"
    ));
    assert!(matches!(
        Instruction::parse_from_args("BUMPUP", Some("[7]")),
        Ok(Instruction::BumpUp(Address::Indirect(7)))
    ));
}

#[test]
fn address_parse() {
    assert_eq!(Address::parse("12").unwrap(), Address::Direct(12));
    assert_eq!(Address::parse("[0]").unwrap(), Address::Indirect(0));
    assert!(matches!(Address::parse("[3"), Err(AsmParseError::IntParseError)));
    assert!(matches!(Address::parse("-1"), Err(AsmParseError::IntParseError)));
}

#[test]
fn huge_address_does_not_fit() {
    let text = format!("{}\nCOPYFROM 99999999999999999999999999\n", HEADER);
    assert!(matches!(Program::from_asm(&text), Err(AsmParseError::IntParseError)));
}

#[test]
fn repeated_label_keeps_the_later_index() {
    let text = format!("{}\na:\nINBOX\na:\nOUTBOX\nJUMP a\n", HEADER);
    let p = Program::from_asm(&text).unwrap();
    assert_eq!(p.jump_label_lines, vec![("a".to_string(), 1)]);
}

#[test]
fn adjacent_labels_share_an_index() {
    let text = format!("{}\na:\nb:\nINBOX\nJUMP a\nJUMP b\n", HEADER);
    let p = Program::from_asm(&text).unwrap();
    assert_eq!(
        p.jump_label_lines,
        vec![("a".to_string(), 0), ("b".to_string(), 0)]
    );
}
