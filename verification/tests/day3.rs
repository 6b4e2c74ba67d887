use advent23::day3::{find_engine_numbers, is_near, is_symbol, part1, part2, EngineError, EngineNumber};

const SCHEMATIC: &str = "467..114..\n\
                         ...*......\n\
                         ..35..633.\n\
                         ......#...\n\
                         617*......\n\
                         .....+.58.\n\
                         ..592.....\n\
                         ......755.\n\
                         ...$.*....\n\
                         .664.598..";

fn rows_of(text: &str) -> Vec<&[u8]> {
    text.lines().map(|line| line.as_bytes()).collect()
}

#[test]
fn day3_example() {
    let puzzle_input = rows_of(SCHEMATIC);
    let engine_numbers = find_engine_numbers(&puzzle_input).unwrap();
    assert_eq!(engine_numbers.len(), 10);
    assert_eq!(engine_numbers[1], EngineNumber { row_index: 0, start: 5, end: 8, number: 114 });
    assert_eq!(engine_numbers[9], EngineNumber { row_index: 9, start: 5, end: 8, number: 598 });
    assert_eq!(part1(&puzzle_input, &engine_numbers), Some(4361));
    assert_eq!(part2(&puzzle_input, &engine_numbers), Some(467835));
    assert!(engine_numbers[0].is_part_number(&puzzle_input));
    assert!(!engine_numbers[1].is_part_number(&puzzle_input));
}

#[test]
fn day3_neighbours() {
    let number = EngineNumber { row_index: 1, start: 1, end: 3, number: 12 };
    assert_eq!(
        number.get_neighbors(3, 5),
        vec![(0, 0), (0, 1), (0, 2), (0, 3), (1, 0), (1, 3), (2, 0), (2, 1), (2, 2), (2, 3)]
    );
    let corner = EngineNumber { row_index: 0, start: 0, end: 2, number: 12 };
    assert_eq!(corner.get_neighbors(1, 2), vec![]);
    assert_eq!(corner.get_neighbors(2, 2), vec![(1, 0), (1, 1)]);
    assert_eq!(corner.get_neighbors(2, 3), vec![(0, 2), (1, 0), (1, 1), (1, 2)]);
    assert!(is_near(&number, 3, 5, 0, 0));
    assert!(is_near(&number, 3, 5, 1, 3));
    assert!(!is_near(&number, 3, 5, 1, 1));
    assert!(!is_near(&number, 3, 5, 1, 4));
    assert!(!is_near(&number, 2, 5, 2, 2));
    assert!(is_symbol(b'*'));
    assert!(is_symbol(b'a'));
    assert!(!is_symbol(b'.'));
    assert!(!is_symbol(b'7'));
}

#[test]
fn day3_numbers_at_line_ends_and_errors() {
    let puzzle_input = rows_of("12.3\n...45");
    let engine_numbers = find_engine_numbers(&puzzle_input).unwrap();
    assert_eq!(
        engine_numbers,
        vec![
            EngineNumber { row_index: 0, start: 0, end: 2, number: 12 },
            EngineNumber { row_index: 0, start: 3, end: 4, number: 3 },
            EngineNumber { row_index: 1, start: 3, end: 5, number: 45 },
        ]
    );
    assert_eq!(find_engine_numbers(&rows_of("..2147483647")).unwrap()[0].number, i32::MAX);
    assert_eq!(find_engine_numbers(&rows_of("1\n..2147483648")), Err(EngineError::BadNumber));
    let broken: Vec<&[u8]> = vec![b"12", b"\xff1", b"99999999999"];
    assert_eq!(find_engine_numbers(&broken), Err(EngineError::NotUtf8));
    let late: Vec<&[u8]> = vec![b"99999999999", b"\xff1"];
    assert_eq!(find_engine_numbers(&late), Err(EngineError::BadNumber));
    assert_eq!(find_engine_numbers(&[]), Ok(vec![]));
}

#[test]
fn day3_gears() {
    let one = rows_of("12*..");
    assert_eq!(part2(&one, &find_engine_numbers(&one).unwrap()), Some(0));
    let two = rows_of("12*3.");
    assert_eq!(part2(&two, &find_engine_numbers(&two).unwrap()), Some(36));
    let three = rows_of("12*3.\n..5..");
    assert_eq!(part2(&three, &find_engine_numbers(&three).unwrap()), Some(0));
    let zero = rows_of("0*...");
    assert_eq!(part2(&zero, &find_engine_numbers(&zero).unwrap()), Some(0));
    let big = rows_of("65536*65536");
    let numbers = find_engine_numbers(&big).unwrap();
    assert_eq!(part2(&big, &numbers), None);
    assert_eq!(part1(&big, &numbers), Some(131072));
    let sum = rows_of("2147483647*1*1");
    let numbers = find_engine_numbers(&sum).unwrap();
    assert_eq!(part1(&sum, &numbers), None);
    assert_eq!(part2(&sum, &numbers), None);
    let lonely = [EngineNumber { row_index: 0, start: 0, end: 1, number: i32::MIN }];
    assert_eq!(part2(&rows_of(".*"), &lonely), None);
}
