use advent23::day14::{part1, part2, Cell, Direction, Platform, PlatformError};

const TEST_INPUT: &str = "O....#....\n\
                          O.OO#....#\n\
                          .....##...\n\
                          OO.#O....O\n\
                          .O.....O#.\n\
                          O.#..O.#.#\n\
                          ..O..#O..O\n\
                          .......O..\n\
                          #....###..\n\
                          #OO..#....";

#[test]
fn day14_test_part_1() {
    let puzzle_input = Platform::try_from(TEST_INPUT).expect("Unable to parse platform");

    assert_eq!(part1(puzzle_input), Some(136));
}

#[test]
fn day14_test_part_2() {
    let puzzle_input = Platform::try_from(TEST_INPUT).expect("Unable to parse platform");

    assert_eq!(part2(puzzle_input), Some(64));
}

#[test]
fn day14_tilt_rolls_rocks_to_the_edge() {
    let mut platform = Platform::try_from("O.#.O\n.O..#\n..O..").unwrap();
    assert_eq!(platform.0.as_rows(), vec![b"O.#.O".to_vec(), b".O..#".to_vec(), b"..O..".to_vec()]);
    platform.tilt(Direction::East);
    assert_eq!(platform.0.as_rows(), vec![b".O#.O".to_vec(), b"...O#".to_vec(), b"....O".to_vec()]);
    platform.tilt(Direction::South);
    assert_eq!(platform.0.as_rows(), vec![b"..#.O".to_vec(), b"....#".to_vec(), b".O.OO".to_vec()]);
    platform.tilt(Direction::West);
    assert_eq!(platform.0.as_rows(), vec![b"..#O.".to_vec(), b"....#".to_vec(), b"OOO..".to_vec()]);
    platform.tilt(Direction::North);
    assert_eq!(platform.0.as_rows(), vec![b"OO#O.".to_vec(), b"..O.#".to_vec(), b".....".to_vec()]);
    assert_eq!(platform.total_load(), Some(11));
}

#[test]
fn day14_rejects_bad_platforms() {
    assert!(matches!(Platform::try_from("O.\n.x"), Err(PlatformError::UnknownCell)));
    assert!(matches!(Platform::try_from("O.\n."), Err(PlatformError::Ragged)));
    assert!(matches!(Platform::try_from("O.\nx"), Err(PlatformError::UnknownCell)));
    assert_eq!(Cell::from_u8(b'O'), Some(Cell::Round));
    assert_eq!(Cell::from_u8(b'#'), Some(Cell::Cube));
    assert_eq!(Cell::from_u8(b'.'), Some(Cell::Empty));
    assert_eq!(Cell::from_u8(b'o'), None);
    let empty = Platform::try_from("").unwrap();
    assert_eq!(part1(empty), Some(0));
}
