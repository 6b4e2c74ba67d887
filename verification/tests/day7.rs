use advent23::day7::{
    count_hand, from_part1, from_part2, get_hand_type, is_weaker, parse_input_part1, part1, part2, rank_hands,
    total_winnings, Card, HandAndBid, HandType,
};

const TEST_INPUT: &str = "32T3K 765\n\
                          T55J5 684\n\
                          KK677 28\n\
                          KTJJT 220\n\
                          QQQJA 483";

#[test]
fn day7_test_part1() {
    assert_eq!(part1(TEST_INPUT), Some(6440));
}

#[test]
fn day7_test_part2() {
    assert_eq!(part2(TEST_INPUT), Some(5905));
}

#[test]
fn day7_cards() {
    assert_eq!(Card::from(b'A'), Some(Card::Ace));
    assert_eq!(Card::from(b'J'), Some(Card::Jack));
    assert_eq!(Card::from(b'2'), Some(Card::Two));
    assert_eq!(Card::from(b'9'), Some(Card::Nine));
    assert_eq!(Card::from(b'1'), None);
    assert_eq!(Card::from(b'X'), None);
    assert_eq!(Card::Ten.rank(), 9);
    assert_eq!(Card::from_rank(0), Card::Joker);
    assert_eq!(Card::from_rank(12), Card::King);
    assert_eq!(
        from_part1("3J399"),
        Some([Card::Three, Card::Jack, Card::Three, Card::Nine, Card::Nine])
    );
    assert_eq!(
        from_part2("3J399"),
        Some([Card::Three, Card::Joker, Card::Three, Card::Nine, Card::Nine])
    );
    assert_eq!(from_part1("3J39"), None);
    assert_eq!(from_part1("3J3999"), None);
    assert_eq!(from_part1("3J3Z9"), None);
    let counts = count_hand(&from_part1("3J399").unwrap());
    assert_eq!(counts, [0, 0, 2, 0, 0, 0, 0, 0, 2, 0, 1, 0, 0, 0]);
}

fn type_of(cards: &str) -> HandType {
    get_hand_type(&from_part1(cards).unwrap())
}

fn wild_type_of(cards: &str) -> HandType {
    get_hand_type(&from_part2(cards).unwrap())
}

#[test]
fn day7_hand_types() {
    assert_eq!(type_of("AAAAA"), HandType::FiveOfAKind);
    assert_eq!(type_of("AA8AA"), HandType::FourOfAKind);
    assert_eq!(type_of("23332"), HandType::FullHouse);
    assert_eq!(type_of("TTT98"), HandType::ThreeOfAKind);
    assert_eq!(type_of("23432"), HandType::TwoPair);
    assert_eq!(type_of("A23A4"), HandType::OnePair);
    assert_eq!(type_of("23456"), HandType::HighCard);
    assert_eq!(type_of("QJJQ2"), HandType::TwoPair);
    assert_eq!(wild_type_of("QJJQ2"), HandType::FourOfAKind);
    assert_eq!(wild_type_of("JJJJJ"), HandType::FiveOfAKind);
    assert_eq!(wild_type_of("JJJJ2"), HandType::FiveOfAKind);
    assert_eq!(wild_type_of("2233J"), HandType::FullHouse);
    assert_eq!(wild_type_of("2345J"), HandType::OnePair);
    assert_eq!(wild_type_of("T55J5"), HandType::FourOfAKind);
    assert_eq!(wild_type_of("23456"), HandType::HighCard);
    assert_eq!(HandType::FullHouse.rank(), 4);
}

#[test]
fn day7_ranking() {
    let weak = from_part1("2AAAA").unwrap();
    let strong = from_part1("33332").unwrap();
    assert!(is_weaker(&weak, &strong));
    assert!(!is_weaker(&strong, &weak));
    assert!(!is_weaker(&weak, &weak));
    assert!(is_weaker(&from_part1("AAAA2").unwrap(), &from_part1("22222").unwrap()));
    assert!(is_weaker(&from_part2("JKKK2").unwrap(), &from_part2("QQQQ2").unwrap()));
    let entries = parse_input_part1(TEST_INPUT).unwrap();
    let bids: Vec<i32> = rank_hands(&entries).iter().map(|entry| entry.1).collect();
    assert_eq!(bids, vec![765, 220, 28, 684, 483]);
    let same = parse_input_part1("23456 1\n23456 2\n23456 3").unwrap();
    let bids: Vec<i32> = rank_hands(&same).iter().map(|entry| entry.1).collect();
    assert_eq!(bids, vec![1, 2, 3]);
    assert_eq!(total_winnings(same), Some(14));
    assert_eq!(total_winnings(Vec::new()), Some(0));
}

#[test]
fn day7_bad_input_and_overflow() {
    assert!(HandAndBid::from("3J399").is_none());
    assert!(HandAndBid::from("3J399 x").is_none());
    assert!(HandAndBid::from("3J39 12").is_none());
    assert_eq!(HandAndBid::from("3J399 -12").unwrap().1, -12);
    assert_eq!(HandAndBid::from_part2("3J399 12").unwrap().0[1], Card::Joker);
    assert_eq!(part1("32T3K 765\nnonsense"), None);
    assert_eq!(part1("23456 2147483647\n23457 1"), None);
    assert_eq!(part1("23456 2147483647"), Some(2147483647));
    assert_eq!(part1("23456 1\n23457 1073741824"), None);
    assert_eq!(part1("23456 0\n23457 -1073741824"), Some(i32::MIN));
    assert_eq!(part1(""), Some(0));
}
