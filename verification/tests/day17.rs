use advent23::day17::search::{a_star_search, a_star_search_path};
use advent23::day17::{get_minimum_heat, parse_input, part1, part2, Direction, Position, State};

const TEST_INPUT_A: &str = "2413432311323\n\
                            3215453535623\n\
                            3255245654254\n\
                            3446585845452\n\
                            4546657867536\n\
                            1438598798454\n\
                            4457876987766\n\
                            3637877979653\n\
                            4654967986887\n\
                            4564679986453\n\
                            1224686865563\n\
                            2546548887735\n\
                            4322674655533";

const TEST_INPUT_B: &str = "111111111111\n\
                            999999999991\n\
                            999999999991\n\
                            999999999991\n\
                            999999999991";

#[test]
fn day17_test_part_1() {
    let puzzle_input = parse_input(TEST_INPUT_A).unwrap();

    assert_eq!(part1(&puzzle_input), Some(102));
}

#[test]
fn test_part_2a() {
    let puzzle_input = parse_input(TEST_INPUT_A).unwrap();

    assert_eq!(part2(&puzzle_input), Some(94));
}

#[test]
fn main_test_part_2b() {
    let puzzle_input = parse_input(TEST_INPUT_B).unwrap();

    assert_eq!(part2(&puzzle_input), Some(71));
}

#[test]
fn day17_positions_and_turns() {
    let p = Position::new(2, 3);
    assert_eq!(p.manhattan_distance(&Position::new(5, 1)), 5);
    assert_eq!(p.move_in_dir(Direction::North, 4, 4), Some(Position::new(1, 3)));
    assert_eq!(p.move_in_dir(Direction::East, 4, 4), None);
    assert_eq!(p.move_in_dir(Direction::South, 3, 4), None);
    assert_eq!(p.move_in_dir(Direction::West, 3, 4), Some(Position::new(2, 2)));
    assert_eq!(Position::new(0, 0).move_in_dir(Direction::North, 3, 4), None);
    assert_eq!(Position::new(0, 0).move_in_dir(Direction::West, 3, 4), None);
    assert_eq!(Direction::North.turn_right(), Direction::East);
    assert_eq!(Direction::West.turn_right(), Direction::North);
    assert_eq!(Direction::North.turn_left(), Direction::West);
    assert_eq!(Direction::East.turn_left(), Direction::North);
}

#[test]
fn day17_successors_follow_the_rules() {
    let grid = parse_input("123\n456\n789").unwrap();
    let state = State { position: Position::new(1, 1), direction: Direction::East, num_straight: 3 };
    let plain = state.get_successors(&grid, false);
    assert_eq!(
        plain,
        vec![
            (8, State { position: Position::new(2, 1), direction: Direction::South, num_straight: 1 }),
            (2, State { position: Position::new(0, 1), direction: Direction::North, num_straight: 1 }),
        ]
    );
    let ultra = state.get_successors(&grid, true);
    assert_eq!(
        ultra,
        vec![(6, State { position: Position::new(1, 2), direction: Direction::East, num_straight: 4 })]
    );
    assert!(parse_input("12\n3").is_none());
    assert!(parse_input("12\n3x").is_none());
    assert_eq!(get_minimum_heat(&parse_input("").unwrap(), false), None);
    assert_eq!(get_minimum_heat(&grid, false), Some(20));
    assert_eq!(get_minimum_heat(&grid, true), None);
}

#[test]
fn day17_search_finds_cheap_walks() {
    let successors = |s: &u64| match *s {
        0 => vec![(7, 1), (2, 2)],
        2 => vec![(3, 1), (1, 3)],
        1 => vec![(1, 4)],
        3 => vec![(9, 4)],
        _ => vec![],
    };
    let cost = a_star_search(&[0], successors, |s: &u64| *s == 4, |_: &u64| 0);
    assert_eq!(cost, Some(6));
    let found = a_star_search_path(&[0], successors, |s: &u64| *s == 4, |_: &u64| 0);
    assert_eq!(found, Some((6, vec![0, 2, 1, 4])));
    assert_eq!(a_star_search(&[0], successors, |s: &u64| *s == 9, |_: &u64| 0), None);
    assert_eq!(a_star_search(&[], successors, |s: &u64| *s == 4, |_: &u64| 0), None);
    assert_eq!(a_star_search(&[3, 1], successors, |s: &u64| *s == 4, |_: &u64| 0), Some(1));
    assert_eq!(
        a_star_search_path(&[4], successors, |s: &u64| *s == 4, |_: &u64| 5),
        Some((0, vec![4]))
    );
}

#[test]
fn day17_path_costs_what_its_steps_cost() {
    let successors = |s: &u64| -> Vec<(u64, u64)> {
        match *s {
            0 => vec![(5, 1), (1, 2)],
            1 => vec![(1, 3)],
            2 => vec![(1, 1), (9, 3)],
            _ => vec![],
        }
    };
    let estimate = |s: &u64| -> u64 {
        match *s {
            0 => 3,
            2 => 2,
            1 => 1,
            _ => 0,
        }
    };
    let (cost, path) = a_star_search_path(&[0], successors, |s: &u64| *s == 3, estimate).unwrap();
    assert_eq!((cost, path.clone()), (3, vec![0, 2, 1, 3]));
    let mut paid = 0;
    for pair in path.windows(2) {
        paid += successors(&pair[0]).iter().find(|(_, to)| *to == pair[1]).unwrap().0;
    }
    assert_eq!(u128::from(paid), cost);
    assert_eq!(a_star_search(&[0], successors, |s: &u64| *s == 3, estimate), Some(3));
    assert_eq!(a_star_search_path(&[0], successors, |s: &u64| *s == 7, estimate), None);
}
