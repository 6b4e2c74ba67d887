use advent23::day15::{holiday_hash, part1, part2, Instruction, InstructionError};

const TEST_INPUT: &[u8] = b"rn=1,cm-,qp=3,cm=2,qp-,pc=4,ot=9,ab=5,pc-,pc=6,ot=7";

#[test]
fn test_holiday_hash() {
    assert_eq!(holiday_hash(b"HASH"), 52);
}

#[test]
fn day15_part1_example() {
    assert_eq!(part1(TEST_INPUT), Some(1320));
}

#[test]
fn day15_part2_example() {
    assert_eq!(part2(TEST_INPUT), Ok(145));
}

#[test]
fn day15_instructions_and_their_errors() {
    assert!(matches!(Instruction::try_from(b"cm-"), Ok(Instruction::Dash { label }) if label == b"cm"));
    assert!(matches!(
        Instruction::try_from(b"rn=17"),
        Ok(Instruction::Equals { label, focal_length: 17 }) if label == b"rn"
    ));
    assert!(matches!(Instruction::try_from(b"rn"), Err(InstructionError::MissingOperator)));
    assert!(matches!(Instruction::try_from(b""), Err(InstructionError::MissingOperator)));
    assert!(matches!(Instruction::try_from(b"rn=256"), Err(InstructionError::BadFocalLength)));
    assert!(matches!(Instruction::try_from(b"rn=x"), Err(InstructionError::BadFocalLength)));
    assert!(matches!(Instruction::try_from(b"r\xffn=1"), Err(InstructionError::NotUtf8)));
    assert!(matches!(Instruction::try_from(b"r\xffn-"), Ok(Instruction::Dash { .. })));
    assert_eq!(part2(b"rn=1,cm"), Err(InstructionError::MissingOperator));
    assert_eq!(part2(b"rn=1,rn=2"), Ok(2));
    assert_eq!(part2(b"rn=1,cm=2,rn-"), Ok(2));
    assert_eq!(holiday_hash(b""), 0);
    assert_eq!(part1(b""), Some(0));
}
