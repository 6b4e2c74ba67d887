use advent23::day20::utils::{
    Broadcaster, Button, Conjunction, FlipFlop, Module, ModuleEnum, Pulse, PulsePacket,
};
use advent23::day20::{parse_input, parse_line, part1, part2, ModuleOrPlaceholder};
use std::collections::VecDeque;

const EXAMPLE_A: &str = "broadcaster -> a, b, c\n\
                         %a -> b\n\
                         %b -> c\n\
                         %c -> inv\n\
                         &inv -> a";

const EXAMPLE_B: &str = "broadcaster -> a\n\
                         %a -> inv, con\n\
                         &inv -> b\n\
                         %b -> con\n\
                         &con -> output";

#[test]
fn test_part1_a() {
    let graph = parse_input(EXAMPLE_A).unwrap();

    assert_eq!(Some(32000000), part1(graph, 1_000_000));
}

#[test]
fn test_part1_b() {
    let graph = parse_input(EXAMPLE_B).unwrap();

    assert_eq!(Some(11687500), part1(graph, 1_000_000));
}

#[test]
fn day20_part1_needs_enough_budget() {
    let graph = parse_input(EXAMPLE_A).unwrap();
    assert_eq!(part1(graph, 11), None);
    let graph = parse_input(EXAMPLE_A).unwrap();
    assert_eq!(part1(graph, 12), Some(32000000));
    let graph = parse_input("broadcaster -> a\n&a -> b\n&b -> a").unwrap();
    assert_eq!(part1(graph, 1000), None);
}

#[test]
fn day20_parse_line_reads_each_kind() {
    match parse_line(b"%a -> inv, con").unwrap() {
        ModuleOrPlaceholder::Module(ModuleEnum::FlipFlop(f)) => {
            assert_eq!(f.name(), b"a");
            assert_eq!(f.successors().to_vec(), vec![&b"inv"[..], &b"con"[..]]);
        }
        _ => panic!("expected a flip-flop"),
    }
    match parse_line(b"&inv -> b").unwrap() {
        ModuleOrPlaceholder::ConjunctionPlaceholder { module_name, successors, predecessors } => {
            assert_eq!(module_name, b"inv");
            assert_eq!(successors, vec![&b"b"[..]]);
            assert!(predecessors.is_empty());
        }
        _ => panic!("expected a placeholder"),
    }
    assert!(matches!(
        parse_line(b"broadcaster -> a").unwrap(),
        ModuleOrPlaceholder::Module(ModuleEnum::Broadcaster(_))
    ));
    assert!(parse_line(b"broadcast -> a").is_none());
    assert!(parse_line(b"%a - b").is_none());
    assert!(parse_line(b" -> b").is_none());
    assert!(parse_input("%a -> b\nnonsense").is_none());
}

#[test]
fn day20_parse_input_wires_conjunctions() {
    let graph = parse_input(EXAMPLE_B).unwrap();
    assert_eq!(graph.keys.len(), 6);
    assert_eq!(graph.keys[5], b"button");
    match &graph.modules[4] {
        ModuleEnum::Conjunction(con) => {
            assert_eq!(con.predecessors().to_vec(), vec![&b"a"[..], &b"b"[..]]);
            assert_eq!(con.name(), b"con");
        }
        _ => panic!("expected a conjunction"),
    }
    assert!(matches!(graph.modules[5], ModuleEnum::Button(_)));
}

#[test]
fn day20_modules_process_pulses() {
    let mut queue: VecDeque<PulsePacket> = VecDeque::new();
    let mut flip = FlipFlop::new(b"f", vec![&b"x"[..], &b"y"[..]]);
    flip.process_pulse(b"s", Pulse::High, &mut queue);
    assert!(queue.is_empty());
    flip.process_pulse(b"s", Pulse::Low, &mut queue);
    assert_eq!(queue.len(), 2);
    assert_eq!(queue[0].source, b"f");
    assert_eq!(queue[0].destination, b"x");
    assert_eq!(queue[1].destination, b"y");
    assert_eq!(queue[0].pulse, Pulse::High);
    flip.process_pulse(b"s", Pulse::Low, &mut queue);
    assert_eq!(queue[2].pulse, Pulse::Low);

    let mut queue: VecDeque<PulsePacket> = VecDeque::new();
    let mut con = Conjunction::new(b"c", vec![&b"out"[..]], vec![&b"p"[..], &b"q"[..]]);
    con.process_pulse(b"p", Pulse::High, &mut queue);
    assert_eq!(queue[0].pulse, Pulse::High);
    con.process_pulse(b"q", Pulse::High, &mut queue);
    assert_eq!(queue[1].pulse, Pulse::Low);
    con.process_pulse(b"p", Pulse::Low, &mut queue);
    assert_eq!(queue[2].pulse, Pulse::High);
    let module = ModuleEnum::Conjunction(con);
    assert!(module.takes(b"q"));
    assert!(!module.takes(b"r"));

    let mut queue: VecDeque<PulsePacket> = VecDeque::new();
    let mut broadcaster = Broadcaster::new(vec![&b"a"[..]]);
    broadcaster.process_pulse(b"button", Pulse::Low, &mut queue);
    assert_eq!(queue[0].source, b"broadcaster");
    assert_eq!(queue[0].pulse, Pulse::Low);
    assert_eq!(broadcaster.name(), b"broadcaster");

    let mut queue: VecDeque<PulsePacket> = VecDeque::new();
    let button = Button::new();
    button.send_to_successors(Pulse::Low, &mut queue);
    assert_eq!(queue.len(), 1);
    assert_eq!(queue[0].destination, b"broadcaster");
    assert!(!ModuleEnum::Button(button).takes(b"a"));
}

#[test]
fn day20_part2_takes_the_least_common_multiple() {
    let text = "broadcaster -> a, c\n\
                %a -> b, x\n\
                %b -> y\n\
                %c -> z\n\
                &x -> jz\n\
                &y -> jz\n\
                &z -> jz\n\
                &jz -> rx";
    let graph = parse_input(text).unwrap();
    assert_eq!(part2(graph, 1000, 1000), Some(4));
    let graph = parse_input(text).unwrap();
    assert_eq!(part2(graph, 1000, 3), None);
    let graph = parse_input(text).unwrap();
    assert_eq!(part2(graph, 5, 1000), None);
    let graph = parse_input(EXAMPLE_A).unwrap();
    assert_eq!(part2(graph, 1000, 1000), None);
}
