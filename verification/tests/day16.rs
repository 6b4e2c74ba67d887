use advent23::day16::{num_energized, parse_input, part1, part2, CaveError, Direction, GetSuccessorsResult, State, Tile};

const TEST_INPUT: &str = r".|...\....
|.-.\.....
.....|-...
........|.
..........
.........\
..../.\\..
.-.-/..|..
.|....-|.\
..//.|....";

#[test]
fn day16_test_part1() -> Result<(), CaveError> {
    assert_eq!(part1(&parse_input(TEST_INPUT)?), Some(46));

    Ok(())
}

#[test]
fn day16_test_part2() -> Result<(), CaveError> {
    assert_eq!(part2(&parse_input(TEST_INPUT)?), Some(51));

    Ok(())
}

#[test]
fn day16_beams() {
    let cave = parse_input(TEST_INPUT).unwrap();
    assert_eq!(num_energized(&cave, State::new(0, 3, Direction::South)), Some(51));
    assert_eq!(num_energized(&cave, State::new(0, 0, Direction::East)), Some(46));
    let start = State::new(0, 0, Direction::East);
    assert_eq!(start.get_successors(&cave), GetSuccessorsResult::One(State::new(0, 1, Direction::East)));
    let splitter = State::new(0, 1, Direction::East);
    match splitter.get_successors(&cave) {
        GetSuccessorsResult::One(next) => assert_eq!(next, State::new(1, 1, Direction::South)),
        other => panic!("{other:?}"),
    }
    let leaving = State::new(0, 9, Direction::East);
    assert_eq!(leaving.get_successors(&cave), GetSuccessorsResult::Zero);
    let row = parse_input(".-.|.").unwrap();
    assert_eq!(part1(&row), Some(4));
    assert_eq!(
        State::new(0, 1, Direction::South).get_successors(&parse_input(".-.\n...").unwrap()),
        GetSuccessorsResult::Two(State::new(0, 2, Direction::East), State::new(0, 0, Direction::West))
    );
}

#[test]
fn day16_moves_and_tiles() {
    assert_eq!(Direction::North.try_move(0, 0, 2, 2), None);
    assert_eq!(Direction::South.try_move(0, 0, 2, 2), Some((1, 0)));
    assert_eq!(Direction::East.try_move(1, 1, 2, 2), None);
    assert_eq!(Direction::West.try_move(1, 1, 2, 2), Some((1, 0)));
    assert!(Tile::from_u8(b'/').is_some());
    assert!(Tile::from_u8(b'x').is_none());
    assert_eq!(parse_input(".x").err(), Some(CaveError::UnknownTile));
    assert_eq!(parse_input("..\n.").err(), Some(CaveError::Ragged));
    let single = parse_input(".").unwrap();
    assert_eq!(part1(&single), Some(1));
    assert_eq!(part2(&single), Some(1));
}
