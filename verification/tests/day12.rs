use advent23::day12::{parse_input, part1, part2, RecordRow};

const TEST_INPUT: &str = "???.### 1,1,3\n\
                          .??..??...?##. 1,1,3\n\
                          ?#?#?#?#?#?#?#? 1,3,1,6\n\
                          ????.#...#... 4,1,1\n\
                          ????.######..#####. 1,6,5\n\
                          ?###???????? 3,2,1";

#[test]
fn test_part_1() {
    assert_eq!(part1(&parse_input(TEST_INPUT).unwrap()), Some(21));
}

#[test]
fn test_part_2() {
    assert_eq!(part2(&parse_input(TEST_INPUT).unwrap()), Some(525152));
}

#[test]
fn day12_three_ways_of_counting_agree() {
    let expected = [1, 4, 1, 1, 4, 10];
    for (row, ways) in parse_input(TEST_INPUT).unwrap().iter().zip(expected) {
        assert_eq!(row.num_ways(), Some(ways));
        assert_eq!(row._num_ways_recursive(), Some(ways));
        assert_eq!(row._num_ways_memoized(), Some(ways));
    }
}

#[test]
fn day12_helpers_count_from_the_middle() {
    let row = RecordRow::from("??.# 1,1").unwrap();
    assert_eq!(row._num_ways_recursive_helper(0, 0, 0), Some(2));
    assert_eq!(row._num_ways_recursive_helper(2, 1, 0), Some(1));
    assert_eq!(row._num_ways_recursive_helper(2, 0, 0), Some(0));
    assert_eq!(row._num_ways_recursive_helper(4, 1, 1), Some(1));
    assert_eq!(row._num_ways_recursive_helper(4, 2, 0), Some(1));
    assert_eq!(row._num_ways_recursive_helper(4, 2, 1), Some(0));
    let mut memo = Vec::new();
    assert_eq!(row._num_ways_memoized_helper(0, 0, 0, &mut memo), Some(2));
    assert!(!memo.is_empty());
    assert!(memo.contains(&((0, 0, 0), 2)));
    assert_eq!(row._num_ways_memoized_helper(0, 0, 0, &mut memo), Some(2));
}

#[test]
fn day12_unfolded_row() {
    let row = RecordRow::from(".# 1").unwrap();
    let unfolded = row.unfolded();
    assert_eq!(unfolded.damaged_record, b".#?.#?.#?.#?.#".to_vec());
    assert_eq!(unfolded.pattern, vec![1, 1, 1, 1, 1]);
    assert_eq!(unfolded.num_ways(), Some(1));
    let first = RecordRow::from("???.### 1,1,3").unwrap();
    assert_eq!(first.unfolded().num_ways(), Some(1));
    let second = RecordRow::from(".??..??...?##. 1,1,3").unwrap();
    assert_eq!(second.unfolded().num_ways(), Some(16384));
}

#[test]
fn day12_rows_that_cannot_be_read_or_counted() {
    assert!(RecordRow::from("???.###").is_none());
    assert!(RecordRow::from("??? 1,x").is_none());
    assert!(RecordRow::from("??? 1,,2").is_none());
    assert!(parse_input("??? 1\n???").is_none());
    let odd = RecordRow::from("?a? 1").unwrap();
    assert_eq!(odd.num_ways(), None);
    assert_eq!(odd._num_ways_recursive(), None);
    assert_eq!(odd._num_ways_memoized(), None);
    let empty = RecordRow { damaged_record: vec![], pattern: vec![] };
    assert_eq!(empty.num_ways(), Some(1));
    assert_eq!(empty._num_ways_recursive(), Some(1));
    let none = RecordRow { damaged_record: b"...".to_vec(), pattern: vec![1] };
    assert_eq!(none.num_ways(), Some(0));
    assert_eq!(part1(&[]), Some(0));
}
