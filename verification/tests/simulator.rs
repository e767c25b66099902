use hrm_optimizer::datacube::DataCube;
use hrm_optimizer::errors::{HRMRuntimeError, HRMTestError};
use hrm_optimizer::instruction::{Address, Instruction};
use hrm_optimizer::program::Program;

fn num(n: i64) -> DataCube {
    DataCube::from_number(n).unwrap()
}

fn letter(c: char) -> DataCube {
    DataCube::from_char(c).unwrap()
}

#[test]
fn echo() {
    // a: INBOX; OUTBOX; JUMP a
    let p = Program {
        instructions: vec![
            Instruction::Inbox,
            Instruction::Outbox,
            Instruction::Jump("a".to_string()),
        ],
        initial_floor: vec![],
        jump_label_lines: vec![("a".to_string(), 0)],
    };
    let (steps, out) = p.simulate(vec![num(1), num(2), num(3)]).unwrap();
    assert_eq!(out, vec![num(1), num(2), num(3)]);
    assert_eq!(steps, 9);
}

#[test]
fn subtract_zero_tile_returns_input() {
    // the accumulator minus a zero tile is the accumulator itself
    let p = Program {
        instructions: vec![
            Instruction::Inbox,
            Instruction::Sub(Address::Direct(0)),
            Instruction::Outbox,
            Instruction::Jump("a".to_string()),
        ],
        initial_floor: vec![Some(num(0))],
        jump_label_lines: vec![("a".to_string(), 0)],
    };
    let (_, out) = p.simulate(vec![num(5), num(-3)]).unwrap();
    assert_eq!(out, vec![num(5), num(-3)]);
}

#[test]
fn negate_via_zero() {
    // park the input, load the zero tile, subtract the parked value
    let p = Program {
        instructions: vec![
            Instruction::Inbox,
            Instruction::CopyTo(Address::Direct(1)),
            Instruction::CopyFrom(Address::Direct(0)),
            Instruction::Sub(Address::Direct(1)),
            Instruction::Outbox,
            Instruction::Jump("a".to_string()),
        ],
        initial_floor: vec![Some(num(0)), None],
        jump_label_lines: vec![("a".to_string(), 0)],
    };
    let (_, out) = p.simulate(vec![num(5), num(-3)]).unwrap();
    assert_eq!(out, vec![num(-5), num(3)]);
}

#[test]
fn letter_subtraction() {
    let p = Program {
        instructions: vec![
            Instruction::Inbox,
            Instruction::Sub(Address::Direct(0)),
            Instruction::Outbox,
        ],
        initial_floor: vec![Some(letter('A'))],
        jump_label_lines: vec![],
    };
    let (_, out) = p.simulate(vec![letter('C')]).unwrap();
    assert_eq!(out, vec![num(2)]);
}

#[test]
fn overflow_halts() {
    let p = Program {
        instructions: vec![Instruction::BumpUp(Address::Direct(0))],
        initial_floor: vec![Some(num(999))],
        jump_label_lines: vec![],
    };
    assert_eq!(p.simulate(vec![]), Err(HRMRuntimeError::Overflow));
    assert_eq!(p.simulate(vec![num(7)]), Err(HRMRuntimeError::Overflow));
}

#[test]
fn bump_down_overflow() {
    let p = Program {
        instructions: vec![Instruction::BumpDn(Address::Direct(0))],
        initial_floor: vec![Some(num(-999))],
        jump_label_lines: vec![],
    };
    assert_eq!(p.simulate(vec![]), Err(HRMRuntimeError::Overflow));
}

#[test]
fn empty_hands() {
    let p = Program {
        instructions: vec![Instruction::Outbox],
        initial_floor: vec![],
        jump_label_lines: vec![],
    };
    assert_eq!(p.simulate(vec![num(1)]), Err(HRMRuntimeError::EmptyHands));
}

#[test]
fn empty_floor() {
    let p = Program {
        instructions: vec![Instruction::CopyFrom(Address::Direct(0))],
        initial_floor: vec![None],
        jump_label_lines: vec![],
    };
    assert_eq!(p.simulate(vec![]), Err(HRMRuntimeError::EmptyFloor));
}

#[test]
fn letter_math() {
    let p = Program {
        instructions: vec![Instruction::Inbox, Instruction::Add(Address::Direct(0))],
        initial_floor: vec![Some(letter('Q'))],
        jump_label_lines: vec![],
    };
    assert_eq!(p.simulate(vec![num(1)]), Err(HRMRuntimeError::LetterMath));
}

#[test]
fn bad_tile_address() {
    let p = Program {
        instructions: vec![Instruction::CopyFrom(Address::Direct(9))],
        initial_floor: vec![Some(num(1))],
        jump_label_lines: vec![],
    };
    assert_eq!(p.simulate(vec![]), Err(HRMRuntimeError::BadTileAddress));
}

#[test]
fn letter_address() {
    let p = Program {
        instructions: vec![Instruction::CopyFrom(Address::Indirect(0))],
        initial_floor: vec![Some(letter('A'))],
        jump_label_lines: vec![],
    };
    assert_eq!(p.simulate(vec![]), Err(HRMRuntimeError::LetterAddress));
}

#[test]
fn indirect_addressing_reads_through() {
    let p = Program {
        instructions: vec![Instruction::CopyFrom(Address::Indirect(0)), Instruction::Outbox],
        initial_floor: vec![Some(num(2)), Some(num(10)), Some(num(42))],
        jump_label_lines: vec![],
    };
    let (_, out) = p.simulate(vec![]).unwrap();
    assert_eq!(out, vec![num(42)]);
}

#[test]
fn conditional_jumps_on_signs() {
    // output 1 for zero, 2 for negative, 3 otherwise
    let p = Program {
        instructions: vec![
            Instruction::Inbox,
            Instruction::JumpZ("z".to_string()),
            Instruction::JumpN("n".to_string()),
            Instruction::CopyFrom(Address::Direct(2)),
            Instruction::Outbox,
            Instruction::Jump("a".to_string()),
            Instruction::CopyFrom(Address::Direct(0)),
            Instruction::Outbox,
            Instruction::Jump("a".to_string()),
            Instruction::CopyFrom(Address::Direct(1)),
            Instruction::Outbox,
            Instruction::Jump("a".to_string()),
        ],
        initial_floor: vec![Some(num(1)), Some(num(2)), Some(num(3))],
        jump_label_lines: vec![
            ("a".to_string(), 0),
            ("z".to_string(), 6),
            ("n".to_string(), 9),
        ],
    };
    let (_, out) = p.simulate(vec![num(0), num(-7), num(4), letter('B')]).unwrap();
    // letters match neither sign test and fall through
    assert_eq!(out, vec![num(1), num(2), num(3), num(3)]);
}

#[test]
fn outbox_mismatch_values() {
    // the test-oracle error type carries the offending values
    let e = HRMTestError::BadOutbox { actual: num(1), expected: num(2) };
    assert_eq!(e, HRMTestError::BadOutbox { actual: num(1), expected: num(2) });
    assert_ne!(e, HRMTestError::SolutionNotRobust);
    let f = HRMTestError::NotEnoughOutBox { actual: 0, expected: 3 };
    assert!(matches!(f, HRMTestError::NotEnoughOutBox { actual: 0, expected: 3 }));
}

#[test]
fn datum_constructors_enforce_ranges() {
    assert_eq!(DataCube::from_number(999).unwrap(), num(999));
    assert_eq!(DataCube::from_number(-999).unwrap(), num(-999));
    assert_eq!(DataCube::from_number(1000), Err(HRMRuntimeError::Overflow));
    assert_eq!(DataCube::from_number(-1000), Err(HRMRuntimeError::Overflow));
    assert_eq!(DataCube::from_char('A').unwrap(), letter('A'));
    assert_eq!(DataCube::from_char('a'), None);
    assert_eq!(DataCube::from_char('!'), None);
}

#[test]
fn empty_hands_beats_address_errors() {
    // with an empty accumulator, COPYTO, ADD and SUB fail on the hands
    // before the address is even looked at
    let p = Program {
        instructions: vec![Instruction::CopyTo(Address::Direct(0))],
        initial_floor: vec![],
        jump_label_lines: vec![],
    };
    assert_eq!(p.simulate(vec![]), Err(HRMRuntimeError::EmptyHands));
    let p = Program {
        instructions: vec![Instruction::Add(Address::Direct(9))],
        initial_floor: vec![],
        jump_label_lines: vec![],
    };
    assert_eq!(p.simulate(vec![]), Err(HRMRuntimeError::EmptyHands));
    let p = Program {
        instructions: vec![Instruction::Sub(Address::Indirect(0))],
        initial_floor: vec![None],
        jump_label_lines: vec![],
    };
    assert_eq!(p.simulate(vec![]), Err(HRMRuntimeError::EmptyHands));
}
