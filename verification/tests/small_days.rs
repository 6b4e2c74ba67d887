use advent23::day11::find_sum_of_dists;
use advent23::day2::{parse_game, parse_puzzle_input, parse_reveal, Reveal};
use advent23::day4::{get_num_of_winning_numbers, score_line_part1};
use advent23::day5::{follow, follow_range, parse_input as parse_almanac, split_on_overlap, MapRange};
use advent23::day6::{parse_input_part1, parse_input_part2, Race};
use advent23::day9::{find_next_value, find_prev_value, parse_history};
use advent23::text::lines;

const GAMES: &str = "Game 1: 3 blue, 4 red; 1 red, 2 green, 6 blue; 2 green\n\
                     Game 2: 1 blue, 2 green; 3 green, 4 blue, 1 red; 1 green, 1 blue\n\
                     Game 3: 8 green, 6 blue, 20 red; 5 blue, 4 red, 13 green; 5 green, 1 red\n\
                     Game 4: 1 green, 3 red, 6 blue; 3 green, 6 red; 3 green, 15 blue, 14 red\n\
                     Game 5: 6 red, 1 blue, 3 green; 2 blue, 1 red, 2 green\n";

#[test]
fn day2_games() {
    let games = parse_puzzle_input(GAMES.as_bytes().to_vec()).unwrap();
    assert_eq!(games.len(), 5);
    assert_eq!(advent23::day2::part1(&games), Some(8));
    assert_eq!(advent23::day2::part2(&games), Some(2286));
    assert_eq!(games[0].get_min_possible_counts(), Reveal { red: 4, green: 2, blue: 6 });
    assert!(games[0].part1_possible());
    assert!(!games[2].part1_possible());
}

#[test]
fn day2_reveals() {
    assert_eq!(parse_reveal(b" 3 blue, 4 red"), Some(Reveal { red: 4, green: 0, blue: 3 }));
    assert_eq!(parse_reveal(b"3 blue, 5 blue"), Some(Reveal { red: 0, green: 0, blue: 5 }));
    assert_eq!(parse_reveal(b"3 pink"), None);
    assert_eq!(parse_reveal(b"three red"), None);
    assert_eq!(parse_reveal(b"3"), None);
    assert!(parse_game(b"Game 1 3 blue").is_none());
    assert!(parse_puzzle_input(b"Game 1: 3 blue\nnonsense\n".to_vec()).is_none());
    let r = Reveal { red: 2, green: 3, blue: 4 };
    assert_eq!(r.power(), 24);
    assert_eq!(r.checked_power(), Some(24));
    assert!(r.part1_possible());
    assert!(!Reveal { red: 13, green: 0, blue: 0 }.part1_possible());
    assert_eq!(Reveal { red: 65536, green: 65536, blue: 0 }.checked_power(), None);
}

const CARDS: [&str; 6] = [
    "Card 1: 41 48 83 86 17 | 83 86  6 31 17  9 48 53",
    "Card 2: 13 32 20 16 61 | 61 30 68 82 17 32 24 19",
    "Card 3:  1 21 53 59 44 | 69 82 63 72 16 21 14  1",
    "Card 4: 41 92 73 84 69 | 59 84 76 51 58  5 54 83",
    "Card 5: 87 83 26 28 32 | 88 30 70 12 93 22 82 36",
    "Card 6: 31 18 13 56 72 | 74 77 10 23 35 67 36 11",
];

#[test]
fn day4_cards() {
    assert_eq!(get_num_of_winning_numbers(CARDS[0]), Some(4));
    assert_eq!(score_line_part1(CARDS[0]), Some(8));
    assert_eq!(score_line_part1(CARDS[4]), Some(0));
    assert_eq!(advent23::day4::part1(&CARDS), Some(13));
    assert_eq!(advent23::day4::part2(&CARDS), Some(30));
    assert_eq!(get_num_of_winning_numbers("Card 1: 1 2 | 2 2 2"), Some(3));
    assert_eq!(get_num_of_winning_numbers("Card 1: 100 | 2"), None);
    assert_eq!(get_num_of_winning_numbers("Card 1: 1 2"), None);
    assert_eq!(get_num_of_winning_numbers("Card 1 | 1 2"), None);
    assert_eq!(advent23::day4::part2(&["Card 1: 1 | 1"]), None);
    let many = format!("C: 1 |{}", " 1".repeat(32));
    assert_eq!(score_line_part1(&many), Some(i32::MIN));
    let more = format!("C: 1 |{}", " 1".repeat(33));
    assert_eq!(score_line_part1(&more), None);
    let some = format!("C: 1 |{}", " 1".repeat(31));
    assert_eq!(score_line_part1(&some), Some(1 << 30));
}

const ALMANAC: &str = "seeds: 79 14 55 13\n\nseed-to-soil map:\n50 98 2\n52 50 48\n\n\
soil-to-fertilizer map:\n0 15 37\n37 52 2\n39 0 15\n\n\
fertilizer-to-water map:\n49 53 8\n0 11 42\n42 0 7\n57 7 4\n\n\
water-to-light map:\n88 18 7\n18 25 70\n\n\
light-to-temperature map:\n45 77 23\n81 45 19\n68 64 13\n\n\
temperature-to-humidity map:\n0 69 1\n1 0 69\n\n\
humidity-to-location map:\n60 56 37\n56 93 4";

#[test]
fn day5_almanac() {
    let (seeds, maps) = parse_almanac(ALMANAC).unwrap();
    assert_eq!(seeds, vec![79, 14, 55, 13]);
    assert_eq!(maps.len(), 7);
    assert_eq!(maps[0][0].range, 50..98);
    assert_eq!(maps[0][0].dest_start, 52);
    assert_eq!(follow(&maps, 79), Some(82));
    assert_eq!(follow(&maps, 13), Some(35));
    assert_eq!(advent23::day5::part1(&seeds, &maps), Some(35));
    assert_eq!(advent23::day5::part2(&seeds, &maps), Some(46));
    assert_eq!(follow_range(&maps[..1], 96..100), Some(vec![98..100, 50..52]));
    assert_eq!(follow_range(&maps[..1], 40..60), Some(vec![52..62, 40..50]));
    assert!(parse_almanac("seeds 1 2").is_none());
    assert!(parse_almanac("seeds: 1 2\n1 2 3").is_none());
    assert!(parse_almanac("seeds: 1 2\n\nmap:\n1 2").is_none());
    assert_eq!(advent23::day5::part1(&[], &maps), None);
    assert_eq!(advent23::day5::part2(&[5], &maps), None);
}

#[test]
fn day5_ranges() {
    let info = split_on_overlap(0..10, &(3..5));
    assert_eq!((info.before, info.overlap, info.after), (Some(0..3), Some(3..5), Some(5..10)));
    let info = split_on_overlap(0..3, &(3..5));
    assert_eq!((info.before, info.overlap, info.after), (Some(0..3), None, None));
    let info = split_on_overlap(5..9, &(3..5));
    assert_eq!((info.before, info.overlap, info.after), (None, None, Some(5..9)));
    let info = split_on_overlap(4..9, &(3..15));
    assert_eq!((info.before, info.overlap, info.after), (None, Some(4..9), None));
    let m = MapRange::new(10, 20, 100);
    assert_eq!(m.src_to_dest(13), 103);
    assert_eq!(m.src_to_dest_range(12..15), 102..105);
    assert_eq!(m.checked_src_to_dest_range(&(12..15)), Some(102..105));
    assert_eq!(m.checked_src_to_dest_range(&(2..15)), None);
    assert_eq!(MapRange::new(0, 9, usize::MAX).checked_src_to_dest_range(&(1..2)), None);
}

const RACES: &str = "Time:      7  15   30\n\
                     Distance:  9  40  200";

#[test]
fn day6_test_part1() {
    assert_eq!(advent23::day6::part1(&parse_input_part1(RACES).unwrap()), Some(288));
}

#[test]
fn day6_test_part2() {
    assert_eq!(advent23::day6::part2(&parse_input_part2(RACES).unwrap()), 71503);
}

#[test]
fn day6_races() {
    let races = parse_input_part1(RACES).unwrap();
    assert_eq!(races, vec![Race { time: 7, record: 9 }, Race { time: 15, record: 40 }, Race { time: 30, record: 200 }]);
    assert_eq!(races[0].compute_elite_hold_times(), Some((2, 5)));
    assert_eq!(races[2].compute_elite_hold_times(), Some((11, 19)));
    assert_eq!(Race { time: 2, record: 1 }.compute_elite_hold_times(), None);
    assert_eq!(Race { time: 2, record: 0 }.compute_elite_hold_times(), Some((1, 1)));
    assert_eq!(Race { time: 0, record: 0 }.num_elite_hold_times(), 0);
    assert_eq!(Race { time: usize::MAX, record: usize::MAX }.num_elite_hold_times(), usize::MAX - 3);
    assert!(parse_input_part1("Time: 1").is_none());
    assert!(parse_input_part1("Time: 1\nDistance: x").is_none());
    assert_eq!(parse_input_part2("Time: 99999999999\nDistance: 99999999999999999999999"), None);
    assert_eq!(advent23::day6::part1(&[]), Some(1));
}

#[test]
fn day9_histories() {
    assert_eq!(find_next_value(&vec![0, 3, 6, 9, 12, 15]), Some(18));
    assert_eq!(find_next_value(&vec![1, 3, 6, 10, 15, 21]), Some(28));
    assert_eq!(find_next_value(&vec![10, 13, 16, 21, 30, 45]), Some(68));
    assert_eq!(find_prev_value(&vec![10, 13, 16, 21, 30, 45]), Some(5));
    assert_eq!(find_next_value(&vec![]), Some(0));
    assert_eq!(find_next_value(&vec![7]), Some(7));
    assert_eq!(find_next_value(&vec![i32::MIN, i32::MAX]), None);
    assert_eq!(parse_history(b"1 -2  3"), Some(vec![1, -2, 3]));
    assert_eq!(parse_history(b"1 x"), None);
    assert_eq!(advent23::day9::part1("1 2\nx"), None);
}

const HISTORIES: &str = "0 3 6 9 12 15\n1 3 6 10 15 21\n10 13 16 21 30 45";

#[test]
fn day9_test_part1() {
    assert_eq!(advent23::day9::part1(HISTORIES), Some(114));
}

#[test]
fn day9_test_part2() {
    assert_eq!(advent23::day9::part2(HISTORIES), Some(2));
}

#[test]
fn day11_distances() {
    let image: Vec<&[u8]> = vec![
        b"...#......",
        b".......#..",
        b"#.........",
        b"..........",
        b"......#...",
        b".#........",
        b".........#",
        b"..........",
        b".......#..",
        b"#...#.....",
    ];
    assert_eq!(find_sum_of_dists(&image, 2), Some(374));
    assert_eq!(find_sum_of_dists(&image, 10), Some(1030));
    assert_eq!(find_sum_of_dists(&image, 100), Some(8410));
    assert_eq!(find_sum_of_dists(&image, 1), Some(292));
    let far: Vec<&[u8]> = vec![b"#.#"];
    assert_eq!(find_sum_of_dists(&far, usize::MAX), None);
    assert_eq!(find_sum_of_dists(&far, usize::MAX - 1), Some(usize::MAX));
}


#[test]
fn text_lines_end_at_line_feeds() {
    assert_eq!(lines(b"a\r\nb\n"), vec![&b"a"[..], &b"b"[..]]);
    assert_eq!(lines(b"a\r\nb\r"), vec![&b"a"[..], &b"b\r"[..]]);
    assert_eq!(lines(b"a\r\n\r"), vec![&b"a"[..], &b"\r"[..]]);
    assert_eq!(lines(b"a\n\nb"), vec![&b"a"[..], &b""[..], &b"b"[..]]);
    assert_eq!(lines(b"\r\n"), vec![&b""[..]]);
    assert_eq!(lines(b""), Vec::<&[u8]>::new());
    let text = "one\r\ntwo\rthree\n\nfour\r";
    let ours: Vec<&[u8]> = lines(text.as_bytes());
    let theirs: Vec<&[u8]> = text.lines().map(|line| line.as_bytes()).collect();
    assert_eq!(ours, theirs);
}
