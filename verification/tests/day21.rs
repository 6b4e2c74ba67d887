use advent23::day21::{
    estimate_gardens, find_start, get_successors, has_cell, num_gardens_in_corners_with, num_gardens_with,
    parse_input, part1, weigh_gardens, CornerCounts, Tile,
};

const TEST_INPUT: &str = "...........\n\
                          .....###.#.\n\
                          .###.##..#.\n\
                          ..#.#...#..\n\
                          ....#.#....\n\
                          .##..S####.\n\
                          .##..#...#.\n\
                          .......##..\n\
                          .##.#.####.\n\
                          .##..##.##.\n\
                          ...........";

#[test]
fn day21_test_part1() {
    let grid = parse_input(TEST_INPUT).unwrap();

    println!("{}", part1(&grid, 64).len());
}

#[test]
fn day21_plots_after_some_steps() {
    let grid = parse_input(TEST_INPUT).unwrap();
    assert_eq!(part1(&grid, 0), vec![(5, 5)]);
    assert_eq!(part1(&grid, 1), vec![(4, 5), (5, 4)]);
    assert_eq!(part1(&grid, 2), vec![(3, 5), (5, 3), (5, 5), (6, 4)]);
    assert_eq!(part1(&grid, 3).len(), 6);
    assert_eq!(part1(&grid, 6).len(), 16);
}

#[test]
fn day21_grid_and_steps() {
    let grid = parse_input("..#\n.S.\n#..").unwrap();
    assert_eq!((grid.num_rows(), grid.num_columns()), (3, 3));
    assert_eq!(grid.get(0, 2), Some(&b'#'));
    assert_eq!(grid.get(1, 1), Some(&b'.'));
    assert_eq!(find_start(&grid), (1, 1));
    assert_eq!(get_successors(&grid, (1, 1)), vec![(0, 1), (1, 2), (2, 1), (1, 0)]);
    assert_eq!(get_successors(&grid, (0, 1)), vec![(1, 1), (0, 0)]);
    assert_eq!(get_successors(&grid, (2, 2)), vec![(1, 2), (2, 1)]);
    assert!(parse_input("..\n.").is_none());
    assert!(parse_input("..\n.x").is_none());
    assert_eq!(Tile::from(b'S'), Some(Tile::GardenPlot));
    assert_eq!(Tile::from(b'#'), Some(Tile::Rock));
    assert_eq!(Tile::from(b'?'), None);
    assert_eq!(Tile::Rock.code(), b'#');
    let walled = parse_input("###\n#S#\n###").unwrap();
    assert_eq!(part1(&walled, 1), vec![]);
    assert_eq!(part1(&walled, 0), vec![(1, 1)]);
}

#[test]
fn day21_counting() {
    let grid = parse_input(TEST_INPUT).unwrap();
    let reachable = part1(&grid, 6);
    assert_eq!(num_gardens_with(&reachable, |i, j| (i + j) % 2 == 0), 16);
    assert_eq!(num_gardens_with(&reachable, |i, j| (i + j) % 2 == 1), 0);
    assert_eq!(num_gardens_with(&reachable, |i, _| i == 3), 4);
    assert!(has_cell(&reachable, 3, 3));
    assert!(!has_cell(&reachable, 3, 4));
    let all: Vec<(usize, usize)> = (0..3).flat_map(|i| (0..3).map(move |j| (i, j))).collect();
    assert_eq!(
        num_gardens_in_corners_with(&all, 3, |_, _| true),
        CornerCounts { top_left: 3, top_right: 3, bottom_left: 3, bottom_right: 3 }
    );
    assert_eq!(
        num_gardens_in_corners_with(&all, 3, |i, j| i == 0 && j == 0),
        CornerCounts { top_left: 1, top_right: 0, bottom_left: 0, bottom_right: 0 }
    );
    assert_eq!(
        num_gardens_in_corners_with(&vec![(0, 2), (2, 2)], 3, |_, _| true),
        CornerCounts { top_left: 0, top_right: 1, bottom_left: 0, bottom_right: 1 }
    );
    assert_eq!(
        num_gardens_in_corners_with(&all, 1, |_, _| true),
        CornerCounts { top_left: 1, top_right: 1, bottom_left: 1, bottom_right: 1 }
    );
}

#[test]
fn day21_weighing() {
    let ones = CornerCounts { top_left: 1, top_right: 1, bottom_left: 1, bottom_right: 1 };
    assert_eq!(weigh_gardens(10, 7, ones, ones, 2, 3), Some(111));
    assert_eq!(weigh_gardens(10, 7, ones, ones, 0, 0), Some(6));
    assert_eq!(weigh_gardens(10, 7, ones, ones, 2, 115), None);
    assert_eq!(weigh_gardens(3, 7, ones, ones, 2, 0), None);
    assert_eq!(weigh_gardens(10, 3, ones, ones, 2, 0), None);
    let mixed = CornerCounts { top_left: 1, top_right: 2, bottom_left: 3, bottom_right: 4 };
    let other = CornerCounts { top_left: 5, top_right: 6, bottom_left: 7, bottom_right: 8 };
    assert_eq!(weigh_gardens(10, 26, mixed, other, 1, 0), Some(72));
    assert_eq!(weigh_gardens(usize::MAX, 0, CornerCounts { top_left: 0, top_right: 0, bottom_left: 0, bottom_right: 0 },
        CornerCounts { top_left: 0, top_right: 0, bottom_left: 0, bottom_right: 0 }, usize::MAX, 0), None);
}

#[test]
fn day21_estimate_from_one_grid() {
    let grid = parse_input(TEST_INPUT).unwrap();
    let reachable = part1(&grid, 65);
    let even = num_gardens_with(&reachable, |i, j| (i + j) % 2 == 0);
    let odd = num_gardens_with(&reachable, |i, j| (i + j) % 2 == 1);
    let of_even = num_gardens_in_corners_with(&reachable, 11, |i, j| (i + j) % 2 == 0);
    let of_odd = num_gardens_in_corners_with(&reachable, 11, |i, j| (i + j) % 2 == 1);
    assert_eq!(estimate_gardens(&grid, 5, 0), weigh_gardens(even, odd, of_even, of_odd, 0, 0));
    assert_eq!(estimate_gardens(&grid, 27, 4), weigh_gardens(even, odd, of_even, of_odd, 2, 4));
    assert_eq!(estimate_gardens(&grid, 5, usize::MAX), None);
    assert_eq!(odd + even, reachable.len());
    assert_eq!(even, 0);
}
