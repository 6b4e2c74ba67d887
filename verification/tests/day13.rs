use advent23::day13::{
    get_center_of_symmetry, get_new_center_of_symmetry, parse_input, part1, part2, Pattern, PatternError,
    ReflectionLine,
};

const TEST_INPUT: &str = "#.##..##.\n\
                          ..#.##.#.\n\
                          ##......#\n\
                          ##......#\n\
                          ..#.##.#.\n\
                          ..##..##.\n\
                          #.#.##.#.\n\
                                   \n\
                          #...##..#\n\
                          #....#..#\n\
                          ..##..###\n\
                          #####.##.\n\
                          #####.##.\n\
                          ..##..###\n\
                          #....#..#";

const TEST_INPUT_B: &str = "#...###.#..#...\n\
                            #....#...###..#\n\
                            #.##.###..###..\n\
                            #########.#.##.\n\
                            .#..#.##.###...\n\
                            .#..#.##.###...\n\
                            #########.#.##.";

#[test]
fn main_test_part_1() -> Result<(), PatternError> {
    let puzzle_input = parse_input(TEST_INPUT)?;

    assert_eq!(part1(&puzzle_input).unwrap(), 405);

    Ok(())
}

#[test]
fn main_test_part_2() -> Result<(), PatternError> {
    let puzzle_input = parse_input(TEST_INPUT)?;

    assert_eq!(part2(&puzzle_input)?, 400);

    Ok(())
}

#[test]
fn test_part_2b() -> Result<(), PatternError> {
    let puzzle_input = parse_input(TEST_INPUT_B)?;

    assert_eq!(part2(&puzzle_input)?, 3);

    Ok(())
}

#[test]
fn day13_centers_of_symmetry() {
    assert_eq!(get_center_of_symmetry(&[1, 2, 2, 1]), Some(2));
    assert_eq!(get_center_of_symmetry(&[5, 1, 1]), Some(2));
    assert_eq!(get_center_of_symmetry(&[1, 1, 5]), Some(1));
    assert_eq!(get_center_of_symmetry(&[1, 2, 3]), None);
    assert_eq!(get_center_of_symmetry(&[1]), None);
    assert_eq!(get_center_of_symmetry(&[]), None);
    assert_eq!(get_new_center_of_symmetry(&[1, 1, 1], 1), Some(2));
    assert_eq!(get_new_center_of_symmetry(&[1, 1, 1], 2), Some(1));
    assert_eq!(get_new_center_of_symmetry(&[1, 1, 5], 1), None);
}

#[test]
fn day13_lines_and_scores() {
    let patterns = parse_input(TEST_INPUT).unwrap();
    assert_eq!(patterns.len(), 2);
    assert_eq!(patterns[0].get_reflection_line(), Some(ReflectionLine::Vertical(5)));
    assert_eq!(patterns[1].get_reflection_line(), Some(ReflectionLine::Horizontal(4)));
    assert_eq!(patterns[0].get_score(), Ok(5));
    assert_eq!(patterns[1].get_score(), Ok(400));
    assert_eq!(patterns[0].get_smudged_score(), Ok(300));
    assert_eq!(patterns[1].get_smudged_score(), Ok(100));
    assert_eq!(
        patterns[0].get_new_reflection_line(&ReflectionLine::Vertical(5)),
        None
    );
    assert_eq!(ReflectionLine::Horizontal(3).get_score(), Some(300));
    assert_eq!(ReflectionLine::Vertical(3).get_score(), Some(3));
    assert_eq!(ReflectionLine::Horizontal(usize::MAX).get_score(), None);
    assert_eq!(patterns[1].rows_as_u64_slice().unwrap().len(), 7);
    assert_eq!(patterns[1].cols_as_u64_slice().unwrap().len(), 9);
}

#[test]
fn day13_errors() {
    assert_eq!(parse_input("#.\n.x").err(), Some(PatternError::IllegalCharacter));
    assert_eq!(parse_input("#.\n.").err(), Some(PatternError::Ragged));
    let plain = parse_input("#.\n.#").unwrap();
    assert_eq!(part1(&plain), Err(PatternError::NoReflection));
    assert_eq!(plain[0].get_score(), Err(PatternError::NoReflection));
    let wide = Pattern::from_rows(&[vec![b'.'; 65]]).unwrap();
    assert_eq!(wide.get_score(), Err(PatternError::TooLarge));
    assert!(wide.rows_as_u64_slice().is_none());
    let still = parse_input("##\n##").unwrap();
    assert_eq!(part1(&still), Ok(100));
    assert_eq!(part1(&[]), Ok(0));
}
