use advent23::day19::utils::{
    parse_part, parse_rule, parse_workflow, Category, Condition, Part, PartRanges, PartRangesSplitResult,
    WorflowMapExt, WorkflowResult,
};
use advent23::day19::{num_combinations_satisfying_range, parse_input, part1, part2};

const TEST_INPUT: &str = "px{a<2006:qkq,m>2090:A,rfg}\n\
                          pv{a>1716:R,A}\n\
                          lnx{m>1548:A,A}\n\
                          rfg{s<537:gd,x>2440:R,A}\n\
                          qs{s>3448:A,lnx}\n\
                          qkq{x<1416:A,crn}\n\
                          crn{x>2662:A,R}\n\
                          in{s<1351:px,qqz}\n\
                          qqz{s>2770:qs,m<1801:hdj,R}\n\
                          gd{a>3333:R,R}\n\
                          hdj{m>838:A,pv}\n\n\
                          {x=787,m=2655,a=1222,s=2876}\n\
                          {x=1679,m=44,a=2067,s=496}\n\
                          {x=2036,m=264,a=79,s=2244}\n\
                          {x=2461,m=1339,a=466,s=291}\n\
                          {x=2127,m=1623,a=2188,s=1013}";

#[test]
fn test_part1() {
    let (workflow_map, parts) = parse_input(TEST_INPUT).unwrap();

    assert_eq!(part1(&workflow_map, &parts), Some(19114));
}

#[test]
fn test_part2() {
    let (workflow_map, _) = parse_input(TEST_INPUT).unwrap();

    assert_eq!(part2(&workflow_map), Some(167409079868000));
}

#[test]
fn day19_parses_parts_and_rules() {
    let part = parse_part(b"{x=787,m=2655,a=1222,s=2876}").unwrap();
    assert_eq!((part.x, part.m, part.a, part.s), (787, 2655, 1222, 2876));
    assert_eq!(part.get_category(Category::M), 2655);
    assert_eq!(part.sum_rating_nums(), 7540);
    assert_eq!(part.checked_sum_rating_nums(), Some(7540));
    assert!(parse_part(b"{x=787,m=2655,a=1222}").is_none());
    assert!(parse_part(b"x=1,m=2,a=3,s=4").is_none());

    let rule = parse_rule(b"a<2006:qkq").unwrap();
    assert!(matches!(rule.condition, Condition::LessThan(Category::A, 2006)));
    assert!(matches!(&rule.result, WorkflowResult::Workflow(name) if name == b"qkq"));
    assert!(part.passes_condition(&rule.condition));
    let rule = parse_rule(b"m>2090:A").unwrap();
    assert!(matches!(rule.condition, Condition::GreaterThan(Category::M, 2090)));
    assert!(matches!(rule.result, WorkflowResult::Accept));
    let rule = parse_rule(b"R").unwrap();
    assert!(matches!(rule.condition, Condition::Always));
    assert!(matches!(rule.result, WorkflowResult::Reject));
    assert!(parse_rule(b"q<5:A").is_none());
    assert!(parse_rule(b"a=5:A").is_none());

    let workflow = parse_workflow(b"px{a<2006:qkq,m>2090:A,rfg}").unwrap();
    assert_eq!(workflow.name, b"px".to_vec());
    assert_eq!(workflow.rules.len(), 3);
    assert!(matches!(workflow.process_part(&part), WorkflowResult::Workflow(name) if name == b"qkq"));
    assert!(parse_workflow(b"px{a<2006:qkq").is_none());
    assert!(parse_workflow(b"px a<2006:qkq}").is_none());
}

#[test]
fn day19_accepts_follows_workflows() {
    let (workflow_map, parts) = parse_input(TEST_INPUT).unwrap();
    let verdicts: Vec<bool> = parts.iter().map(|part| workflow_map.accepts(part)).collect();
    assert_eq!(verdicts, vec![true, false, true, false, true]);
}

#[test]
fn day19_undecided_chains_give_nothing() {
    let (workflow_map, parts) = parse_input("in{x<5:in,R}\n\n{x=1,m=1,a=1,s=1}").unwrap();
    assert_eq!(part1(&workflow_map, &parts), None);
    assert_eq!(part2(&workflow_map), None);
    let (workflow_map, parts) = parse_input("in{x<5:out,R}\n\n{x=1,m=1,a=1,s=1}").unwrap();
    assert_eq!(part1(&workflow_map, &parts), None);
    let (workflow_map, parts) = parse_input("in{x<5:A}\n\n{x=9,m=1,a=1,s=1}").unwrap();
    assert_eq!(part1(&workflow_map, &parts), None);
    assert!(parse_input("in{x<5:A}\n\n{x=9,m=1,a=1}").is_none());
}

#[test]
fn day19_split_on_condition_cuts_one_range() {
    let full = || PartRanges { x: 1..4001, m: 1..4001, a: 1..4001, s: 1..4001 };
    match full().split_on_condition(&Condition::LessThan(Category::M, 100)) {
        PartRangesSplitResult::Split { passes, fails } => {
            assert_eq!(passes.m, 1..100);
            assert_eq!(fails.m, 100..4001);
            assert_eq!(passes.x, 1..4001);
            assert_eq!(passes.num_parts_possible() + fails.num_parts_possible(), full().num_parts_possible());
        }
        _ => panic!("expected a split"),
    }
    match full().split_on_condition(&Condition::GreaterThan(Category::S, 100)) {
        PartRangesSplitResult::Split { passes, fails } => {
            assert_eq!(passes.s, 101..4001);
            assert_eq!(fails.s, 1..101);
        }
        _ => panic!("expected a split"),
    }
    assert!(matches!(
        full().split_on_condition(&Condition::LessThan(Category::X, 4001)),
        PartRangesSplitResult::All(_)
    ));
    assert!(matches!(
        full().split_on_condition(&Condition::LessThan(Category::X, 1)),
        PartRangesSplitResult::NoneOf(_)
    ));
    assert!(matches!(
        full().split_on_condition(&Condition::GreaterThan(Category::X, 4000)),
        PartRangesSplitResult::NoneOf(_)
    ));
    assert!(matches!(
        full().split_on_condition(&Condition::GreaterThan(Category::X, u64::MAX)),
        PartRangesSplitResult::NoneOf(_)
    ));
    assert!(matches!(
        full().split_on_condition(&Condition::GreaterThan(Category::X, 0)),
        PartRangesSplitResult::All(_)
    ));
    assert!(matches!(full().split_on_condition(&Condition::Always), PartRangesSplitResult::All(_)));
    assert_eq!(full().num_parts_possible(), 256_000_000_000_000);
    assert_eq!(*full().get_range(Category::A), 1..4001);
    let mut ranges = full();
    ranges.get_range_mut(Category::A).end = 7;
    assert_eq!(ranges.a, 1..7);
    let huge = PartRanges { x: 0..u64::MAX, m: 0..u64::MAX, a: 0..1, s: 0..1 };
    assert_eq!(huge.checked_num_parts_possible(), None);
    let empty = PartRanges { x: 0..u64::MAX, m: 0..u64::MAX, a: 0..0, s: 0..1 };
    assert_eq!(empty.checked_num_parts_possible(), Some(0));
    let backwards = PartRanges { x: 5..1, m: 0..1, a: 0..1, s: 0..1 };
    assert_eq!(backwards.checked_num_parts_possible(), None);
}

#[test]
fn day19_counts_from_any_workflow() {
    let (workflow_map, _) = parse_input(TEST_INPUT).unwrap();
    let full = PartRanges { x: 1..4001, m: 1..4001, a: 1..4001, s: 1..4001 };
    assert_eq!(
        num_combinations_satisfying_range(&workflow_map, b"gd", full, 5),
        Some(0)
    );
    let full = PartRanges { x: 1..4001, m: 1..4001, a: 1..4001, s: 1..4001 };
    assert_eq!(
        num_combinations_satisfying_range(&workflow_map, b"lnx", full, 5),
        Some(256_000_000_000_000)
    );
    let full = PartRanges { x: 1..4001, m: 1..4001, a: 1..4001, s: 1..4001 };
    assert_eq!(num_combinations_satisfying_range(&workflow_map, b"in", full, 1), None);
}
