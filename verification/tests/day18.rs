use advent23::day18::{
    flood_fill_with_pound, parse_input_part1, parse_input_part2, part1, Direction, Instruction, Position,
};
use array2d::Array2D;

const TEST_INPUT: &str = "R 6 (#70c710)\n\
                          D 5 (#0dc571)\n\
                          L 2 (#5713f0)\n\
                          D 2 (#d2c081)\n\
                          R 2 (#59c680)\n\
                          D 2 (#411b91)\n\
                          L 5 (#8ceee2)\n\
                          U 2 (#caa173)\n\
                          L 1 (#1b58a2)\n\
                          U 2 (#caa171)\n\
                          R 2 (#7807d2)\n\
                          U 3 (#a77fa3)\n\
                          L 2 (#015232)\n\
                          U 2 (#7a21e3)";

#[test]
fn day18_test_part_1() {
    let puzzle_input = parse_input_part1(TEST_INPUT).unwrap();

    assert_eq!(part1(&puzzle_input), Some(62));
}

#[test]
fn day18_small_lagoons() {
    let square = parse_input_part1("R 2 (#000000)\nD 2 (#000000)\nL 2 (#000000)\nU 2 (#000000)").unwrap();
    assert_eq!(part1(&square), Some(9));
    let other_way = parse_input_part1("D 2 (#000000)\nR 2 (#000000)\nU 2 (#000000)\nL 2 (#000000)").unwrap();
    assert_eq!(part1(&other_way), Some(9));
    assert_eq!(part1(&[]), None);
}

#[test]
fn day18_instructions() {
    let first = Instruction::from_line(b"R 6 (#70c710)").unwrap();
    assert_eq!((first.direction, first.length), (Direction::Right, 6));
    let second = Instruction::from_part2(b"R 6 70c710").unwrap();
    assert_eq!((second.direction, second.length), (Direction::Right, 461937));
    let third = Instruction::from_part2(b"D 5 0dc571").unwrap();
    assert_eq!((third.direction, third.length), (Direction::Down, 56407));
    assert!(Instruction::from_part2(b"R 6 (#70c710)").is_none());
    assert!(Instruction::from_line(b"X 6 (#70c710)").is_none());
    assert!(Instruction::from_line(b"R six (#70c710)").is_none());
    assert!(Instruction::from_line(b"R").is_none());
    assert!(Instruction::from_part2(b"R 6 70c714").is_none());
    assert!(Instruction::from_part2(b"R 6 70c7g0").is_none());
    assert!(Instruction::from_part2(b"70c710").is_none());
    assert!(parse_input_part1("R 6 (#70c710)\nnonsense").is_none());
    assert!(parse_input_part2(TEST_INPUT).is_none());
    assert_eq!(parse_input_part2("R 6 70c710\nD 5 0dc571").unwrap().len(), 2);
    assert_eq!(Direction::from_letter(b'U'), Some(Direction::Up));
    assert_eq!(Direction::from_letter(b'x'), None);
    assert_eq!(Direction::from_number(1), Some(Direction::Down));
    assert_eq!(Direction::from_number(4), None);
    assert_eq!(Direction::Up.turn_right(), Direction::Right);
    assert_eq!(Direction::Up.turn_left(), Direction::Left);
    assert!(Direction::Right.was_right_turn(Direction::Up));
    assert!(!Direction::Left.was_right_turn(Direction::Up));
}

#[test]
fn day18_positions_and_filling() {
    let origin = Position::new(0, 0);
    assert_eq!(origin.move_in_direction(Direction::Down, 3), Position::new(3, 0));
    assert_eq!(origin.move_in_direction(Direction::Left, 2), Position::new(0, -2));
    assert_eq!(origin.checked_move(Direction::Right, 7), Some(Position::new(0, 7)));
    assert_eq!(Position::new(isize::MAX, 0).checked_move(Direction::Down, 1), None);
    assert_eq!(Position::new(0, isize::MIN).checked_move(Direction::Left, 1), None);
    let rows = vec![b"..#.".to_vec(), b".#..".to_vec(), b"#...".to_vec()];
    let mut array = Array2D::from_rows(&rows).unwrap();
    flood_fill_with_pound(&mut array, Position::new(0, 0));
    assert_eq!(array.as_rows(), vec![b"###.".to_vec(), b"##..".to_vec(), b"#...".to_vec()]);
    flood_fill_with_pound(&mut array, Position::new(0, 0));
    flood_fill_with_pound(&mut array, Position::new(-1, 0));
    flood_fill_with_pound(&mut array, Position::new(0, 9));
    assert_eq!(array.as_rows(), vec![b"###.".to_vec(), b"##..".to_vec(), b"#...".to_vec()]);
    flood_fill_with_pound(&mut array, Position::new(2, 3));
    assert_eq!(array.as_rows(), vec![b"####".to_vec(); 3]);
}
