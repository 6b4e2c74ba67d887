use advent23::day10::{
    advance, flood_fill, follow_loop, get_intitial_pipe_state, get_pipe_iterator, glyph, parse_input, part1, part2,
    Advance, Direction, PipeState, Tile, TileInfo, Turn,
};

const TEST_INPUT_A: &str = ".F----7F7F7F7F-7....\n\
                            .|F--7||||||||FJ....\n\
                            .||.FJ||||||||L7....\n\
                            FJL7L7LJLJ||LJ.L-7..\n\
                            L--J.L7...LJS7F-7L7.\n\
                            ....F-J..F7FJ|L7L7L7\n\
                            ....L7.F7||L7|.L7L7|\n\
                            .....|FJLJ|FJ|F7|.LJ\n\
                            ....FJL-7.||.||||...\n\
                            ....L---J.LJ.LJLJ...";

const SQUARE: &str = ".....\n\
                      .S-7.\n\
                      .|.|.\n\
                      .L-J.\n\
                      .....";

const BIGGER: &str = "..F7.\n\
                      .FJ|.\n\
                      SJ.L7\n\
                      |F--J\n\
                      LJ...";

fn solve_part_2(input_as_str: &str, answer: usize) {
    let (rows, num_cols) = parse_input(input_as_str).unwrap();
    let puzzle_input: Vec<&[Tile]> = rows.iter().map(|row| row.as_slice()).collect();

    assert_eq!(part2(&puzzle_input, num_cols), Some(answer));
}

fn solve_part_1(input_as_str: &str) -> Option<usize> {
    let (rows, num_cols) = parse_input(input_as_str).unwrap();
    let puzzle_input: Vec<&[Tile]> = rows.iter().map(|row| row.as_slice()).collect();
    part1(&puzzle_input, num_cols)
}

#[test]
fn stu_test() {
    solve_part_2(TEST_INPUT_A, 8);
}

#[test]
fn day10_loop_lengths() {
    assert_eq!(solve_part_1(SQUARE), Some(4));
    assert_eq!(solve_part_1(BIGGER), Some(8));
    assert_eq!(solve_part_1("S-7\n|.|\nL-J"), Some(4));
}

const NESTED: &str = "...........\n\
                      .S-------7.\n\
                      .|F-----7|.\n\
                      .||.....||.\n\
                      .||.....||.\n\
                      .|L-7.F-J|.\n\
                      .|..|.|..|.\n\
                      .L--J.L--J.\n\
                      ...........";

const CROWDED: &str = "FF7FSF7F7F7F7F7F---7\n\
                       L|LJ||||||||||||F--J\n\
                       FL-7LJLJ||||||LJL-77\n\
                       F--JF--7||LJLJ7F7FJ-\n\
                       L---JF-JLJ.||-FJLJJ7\n\
                       |F|F-JF---7F7-L7L|7|\n\
                       |FFJF7L7F-JF7|JL---7\n\
                       7-L-JL7||F7|L7F-7F7|\n\
                       L.L7LFJ|||||FJL7||LJ\n\
                       L7JLJL-JLJLJL--JLJ.L";

#[test]
fn day10_enclosed_tiles() {
    solve_part_2("S-7\n|.|\nL-J", 1);
    solve_part_2(SQUARE, 1);
    solve_part_2(BIGGER, 1);
    solve_part_2(NESTED, 4);
    solve_part_2(CROWDED, 10);
    solve_part_2("S7\nLJ", 0);
}

#[test]
fn day10_broken_loops() {
    assert_eq!(solve_part_1("....\n.-7.\n.LJ."), None);
    assert_eq!(solve_part_1("S..\n..."), None);
    assert_eq!(solve_part_1(".S-.\n...."), None);
    assert_eq!(solve_part_1("S-"), None);
    assert_eq!(solve_part_1(""), None);
    let (rows, num_cols) = parse_input(".S-.\n....").unwrap();
    let puzzle_input: Vec<&[Tile]> = rows.iter().map(|row| row.as_slice()).collect();
    assert_eq!(part2(&puzzle_input, num_cols), None);
    assert!(follow_loop(&puzzle_input, num_cols).is_none());
    assert!(parse_input("S-7\n|x|").is_none());
    assert!(parse_input("S-7\n|.").is_none());
    assert_eq!(parse_input("").map(|(rows, num_cols)| (rows.len(), num_cols)), Some((0, 0)));
}

#[test]
fn day10_following_the_pipe() {
    let (rows, num_cols) = parse_input(SQUARE).unwrap();
    let puzzle_input: Vec<&[Tile]> = rows.iter().map(|row| row.as_slice()).collect();
    let initial = get_intitial_pipe_state(&puzzle_input, num_cols).unwrap();
    assert_eq!(initial, PipeState { row: 1, col: 2, dir: Direction::East });
    assert_eq!(
        advance(&puzzle_input, num_cols, initial),
        Advance::Moved(PipeState { row: 1, col: 3, dir: Direction::East })
    );
    assert_eq!(advance(&puzzle_input, num_cols, PipeState { row: 1, col: 1, dir: Direction::North }), Advance::Arrived);
    assert_eq!(advance(&puzzle_input, num_cols, PipeState { row: 0, col: 0, dir: Direction::North }), Advance::Lost);
    let mut iterator = get_pipe_iterator(&puzzle_input, num_cols, initial);
    let mut passed = Vec::new();
    while let Some(state) = iterator.next() {
        passed.push((state.row, state.col));
    }
    assert_eq!(passed, vec![(1, 3), (2, 3), (3, 3), (3, 2), (3, 1), (2, 1), (1, 1)]);
    let (initial_again, trail) = follow_loop(&puzzle_input, num_cols).unwrap();
    assert_eq!(initial_again, initial);
    assert_eq!(trail.len(), 7);
    assert_eq!(trail[6], PipeState { row: 1, col: 1, dir: Direction::North });
}

#[test]
fn day10_directions_and_turns() {
    assert_eq!(Direction::North.get_successor(3, 4), (2, 4));
    assert_eq!(Direction::West.get_successor(0, 0), (0, -1));
    assert_eq!(Direction::South.neighbour(1, 1, 2, 2), None);
    assert_eq!(Direction::East.neighbour(1, 0, 2, 2), Some((1, 1)));
    assert_eq!(Direction::East.opposite(), Direction::West);
    assert_eq!(Direction::East.get_turn_since_last(Direction::North), Turn::Right);
    assert_eq!(Direction::North.get_turn_since_last(Direction::East), Turn::Left);
    assert_eq!(Direction::North.get_turn_since_last(Direction::South), Turn::Backwards);
    assert_eq!(Direction::West.get_turn_since_last(Direction::West), Turn::Straight);
    assert_eq!(Direction::West.turn(Turn::Right), Direction::North);
    assert_eq!(Direction::North.turn(Turn::Left), Direction::West);
    assert_eq!(Direction::South.turn(Turn::Backwards), Direction::North);
    assert_eq!(Direction::South.turn(Turn::Straight), Direction::South);
    assert_eq!(Direction::from_index(6), Direction::South);
    assert_eq!(Direction::West.index(), 3);
    assert!(Tile::NorthEast.connects_to(Direction::East));
    assert!(!Tile::NorthEast.connects_to(Direction::South));
    assert!(!Tile::Start.connects_to(Direction::South));
    assert_eq!(Tile::SouthWest.dirs(), Some([Direction::South, Direction::West]));
    assert_eq!(Tile::Ground.dirs(), None);
    for c in *b"|-LJ7F.S" {
        assert_eq!(Tile::from_byte(c).unwrap().to_byte(), c);
    }
    assert_eq!(Tile::from_byte(b'x'), None);
}

#[test]
fn day10_filling() {
    let wall = Some(TileInfo::InLoop);
    let mut infos = vec![
        vec![None, wall, None, None],
        vec![None, wall, None, wall],
        vec![wall, wall, wall, None],
    ];
    flood_fill(&mut infos, 4, 0, 2);
    let inside = Some(TileInfo::Enclosed);
    assert_eq!(
        infos,
        vec![vec![None, wall, inside, inside], vec![None, wall, inside, wall], vec![wall, wall, wall, None]]
    );
    flood_fill(&mut infos, 4, 1, 1);
    assert_eq!(infos[1], vec![inside, inside, inside, wall]);
    assert_eq!(infos[0], vec![inside, wall, inside, inside]);
    assert_eq!(glyph(Tile::NorthEast, wall, false), b'L');
    assert_eq!(glyph(Tile::Ground, inside, false), b'I');
    assert_eq!(glyph(Tile::Ground, inside, true), b'.');
    assert_eq!(glyph(Tile::NorthEast, None, false), b'.');
}
