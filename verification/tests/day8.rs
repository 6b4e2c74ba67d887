use advent23::day8::{
    follow_directions, follow_directions_part2, parse_entry, parse_input, part1, part2, step, Direction,
};

const TEST_INPUT_A: &str = "RL\n\n\
                            AAA = (BBB, CCC)\n\
                            BBB = (DDD, EEE)\n\
                            CCC = (ZZZ, GGG)\n\
                            DDD = (DDD, DDD)\n\
                            EEE = (EEE, EEE)\n\
                            GGG = (GGG, GGG)\n\
                            ZZZ = (ZZZ, ZZZ)";

const TEST_INPUT_B: &str = "LLR\n\n\
                            AAA = (BBB, BBB)\n\
                            BBB = (AAA, ZZZ)\n\
                            ZZZ = (ZZZ, ZZZ)";

const TEST_INPUT_C: &str = "LR\n\n\
                            11A = (11B, XXX)
                            11B = (XXX, 11Z)
                            11Z = (11B, XXX)
                            22A = (22B, XXX)
                            22B = (22C, 22C)
                            22C = (22Z, 22Z)
                            22Z = (22B, 22B)
                            XXX = (XXX, XXX)";

#[test]
fn main_test_part1_a() {
    let (instructions, graph) = parse_input(TEST_INPUT_A).unwrap();

    assert_eq!(part1(&instructions, &graph), Some(2));
}

#[test]
fn main_test_part1_b() {
    let (instructions, graph) = parse_input(TEST_INPUT_B).unwrap();

    assert_eq!(part1(&instructions, &graph), Some(6));
}

#[test]
fn day8_test_part2() {
    let (instructions, graph) = parse_input(TEST_INPUT_C).unwrap();

    assert_eq!(part2(&instructions, &graph), Some(6));
}

#[test]
fn day8_parsing() {
    let (instructions, graph) = parse_input(TEST_INPUT_B).unwrap();
    assert_eq!(instructions, vec![Direction::Left, Direction::Left, Direction::Right]);
    assert_eq!(graph.len(), 3);
    assert_eq!((graph[1].name, graph[1].left, graph[1].right), (&b"BBB"[..], &b"AAA"[..], &b"ZZZ"[..]));
    let node = parse_entry(b"  ab_1 = (c2, D)  ").unwrap();
    assert_eq!((node.name, node.left, node.right), (&b"ab_1"[..], &b"c2"[..], &b"D"[..]));
    let later = parse_entry(b"x = (y) AAA = (B, C)").unwrap();
    assert_eq!(later.name, b"AAA");
    assert!(parse_entry(b"AAA = (BBB,CCC)").is_none());
    assert!(parse_entry(b"AAA = (BBB, CCC").is_none());
    assert!(parse_entry(b" = (BBB, CCC)").is_none());
    assert!(parse_input("").is_none());
    assert!(parse_input("LXR\n\nAAA = (AAA, AAA)").is_none());
    assert!(parse_input("LR\n\nAAA = AAA, AAA").is_none());
    let (instructions, graph) = parse_input("LR").unwrap();
    assert_eq!(instructions.len(), 2);
    assert!(graph.is_empty());
}

#[test]
fn day8_walks() {
    let (instructions, graph) = parse_input(TEST_INPUT_A).unwrap();
    assert_eq!(step(&graph, b"AAA", Direction::Left), Some(&b"BBB"[..]));
    assert_eq!(step(&graph, b"AAA", Direction::Right), Some(&b"CCC"[..]));
    assert_eq!(step(&graph, b"QQQ", Direction::Right), None);
    assert_eq!(follow_directions(&instructions, &graph, b"AAA", b"AAA"), Some(0));
    assert_eq!(follow_directions(&instructions, &graph, b"AAA", b"GGG"), None);
    assert_eq!(follow_directions(&instructions, &graph, b"QQQ", b"ZZZ"), None);
    assert_eq!(follow_directions(&[], &graph, b"AAA", b"ZZZ"), None);
    assert_eq!(follow_directions(&instructions, &graph, b"CCC", b"ZZZ"), None);
    let (_, twice) = parse_input("L\n\nAAA = (BBB, BBB)\nAAA = (ZZZ, ZZZ)").unwrap();
    assert_eq!(step(&twice, b"AAA", Direction::Left), Some(&b"ZZZ"[..]));
}

#[test]
fn day8_cycles() {
    let (instructions, graph) = parse_input(TEST_INPUT_C).unwrap();
    let first = follow_directions_part2(&instructions, &graph, b"11A").unwrap();
    assert_eq!(first.time_steps_at_z, vec![2]);
    assert_eq!(first.cycle_length, 2);
    assert_eq!(first.cycle_start_index, 0);
    let second = follow_directions_part2(&instructions, &graph, b"22A").unwrap();
    assert_eq!(second.time_steps_at_z, vec![3, 6]);
    assert_eq!(second.cycle_length, 6);
    assert_eq!(second.cycle_start_index, 0);
    assert!(follow_directions_part2(&instructions, &graph, b"33A").is_none());
    let none = follow_directions_part2(&[], &graph, b"11A").unwrap();
    assert_eq!((none.time_steps_at_z.len(), none.cycle_start_index, none.cycle_length), (0, 0, 0));
    let (instructions, graph) = parse_input(TEST_INPUT_A).unwrap();
    assert_eq!(part2(&instructions, &graph), Some(2));
    assert_eq!(part2(&instructions, &Vec::new()), None);
}
