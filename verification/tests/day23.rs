use advent23::day23::{
    _longest_path_len_no_cycles, get_successors, longest_path_len, parse_input, replace_slopes_with_paths, to_graph,
    Direction, Graph, Tile,
};

const TEST_INPUT: &str = "#.#####################\n\
                          #.......#########...###\n\
                          #######.#########.#.###\n\
                          ###.....#.>.>.###.#.###\n\
                          ###v#####.#v#.###.#.###\n\
                          ###.>...#.#.#.....#...#\n\
                          ###v###.#.#.#########.#\n\
                          ###...#.#.#.......#...#\n\
                          #####.#.#.#######.#.###\n\
                          #.....#.#.#.......#...#\n\
                          #.#####.#.#.#########v#\n\
                          #.#...#...#...###...>.#\n\
                          #.#.#v#######v###.###v#\n\
                          #...#.>.#...>.>.#.###.#\n\
                          #####v#.#.###v#.#.###.#\n\
                          #.....#...#...#.#.#...#\n\
                          #.#########.###.#.#.###\n\
                          #...###...#...#...#.###\n\
                          ###.###.#.###v#####v###\n\
                          #...#...#.#.>.>.#.>.###\n\
                          #.###.###.#.###.#.#v###\n\
                          #.....###...###...#...#\n\
                          #####################.#";

const MY_TEST_INPUT: &str = "#.#####\n\
                             #.....#\n\
                             ###.#.#\n\
                             #.....#\n\
                             #.###.#\n\
                             #.....#\n\
                             #####.#";

#[test]
fn day23_test_part1() {
    let grid = parse_input(TEST_INPUT).unwrap();

    assert_eq!(longest_path_len(&grid), Some(94));
}

#[test]
fn test_part1_no_brute_force() {
    let grid = parse_input(TEST_INPUT).unwrap();

    assert_eq!(_longest_path_len_no_cycles(&grid), Some(94));
}

#[test]
fn day23_test_part2() {
    let mut grid = parse_input(TEST_INPUT).unwrap();

    replace_slopes_with_paths(&mut grid);

    assert_eq!(longest_path_len(&grid), Some(154));
}

#[test]
fn my_test() {
    let grid = parse_input(MY_TEST_INPUT).unwrap();

    let graph = to_graph(&grid).unwrap();

    for (node, succs) in graph.nodes.iter().zip(graph.successors.iter()) {
        println!("{node:?}: {succs:?}");
    }
    assert_eq!(graph.nodes[0], (0, 1));
    assert!(graph.nodes.contains(&(6, 5)));
    assert!(graph.nodes.contains(&(1, 3)));
    assert_eq!(graph.find(&(0, 1)), Some(0));
    assert_eq!(graph.find(&(4, 4)), None);
    assert_eq!(graph.successors[0], vec![((1, 3), 3)]);
    assert_eq!(longest_path_len(&grid), Some(18));
}

#[test]
fn day23_grid_and_steps() {
    let mut grid = parse_input("#.#\n#v#\n#.#").unwrap();
    assert_eq!(get_successors(&grid, (0, 1)), Some(vec![((1, 1), Direction::South)]));
    assert_eq!(get_successors(&grid, (1, 1)), Some(vec![((2, 1), Direction::South)]));
    assert_eq!(longest_path_len(&grid), Some(2));
    replace_slopes_with_paths(&mut grid);
    assert_eq!(grid.get(1, 1), Some(&b'.'));
    assert_eq!(longest_path_len(&grid), Some(2));
    assert!(parse_input("#.#\n#x#").is_none());
    assert!(parse_input("#.#\n##").is_none());
    assert!(Tile::from_u8(b'>').is_some());
    assert!(Tile::from_u8(b'x').is_none());
    assert!(Direction::North.is_opposite(Direction::South));
    assert!(!Direction::North.is_opposite(Direction::East));
    assert_eq!(Direction::East.move_one_step((2, 2)), (2, 3));
    let blocked = parse_input("#.#\n###\n#.#").unwrap();
    assert_eq!(longest_path_len(&blocked), None);
    let uphill = parse_input("#.#\n#^#\n#.#").unwrap();
    assert_eq!(longest_path_len(&uphill), None);
}

#[test]
fn day23_graphs() {
    let mut graph = Graph::new();
    assert_eq!(graph.insert((0, 0), vec![((1, 1), 2), ((2, 2), 7)]), None);
    assert_eq!(graph.insert((1, 1), vec![((2, 2), 3)]), None);
    assert_eq!(graph.insert((2, 2), vec![]), None);
    assert_eq!(graph.find(&(1, 1)), Some(1));
    assert_eq!(graph.longest_path_len_brute_force(&(0, 0), &(2, 2)), Some(7));
    assert_eq!(graph._longest_path_len(&(0, 0), &(2, 2)), Some(7));
    assert_eq!(graph.insert((1, 1), vec![((2, 2), 6)]), Some(vec![((2, 2), 3)]));
    assert_eq!(graph.longest_path_len_brute_force(&(0, 0), &(2, 2)), Some(8));
    assert_eq!(graph._longest_path_len(&(0, 0), &(2, 2)), Some(8));
    assert_eq!(graph.longest_path_len_brute_force(&(2, 2), &(0, 0)), None);
    assert_eq!(graph.longest_path_len_brute_force(&(2, 2), &(2, 2)), Some(0));
}
