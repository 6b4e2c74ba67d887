use advent23::day25::{get_reachable, parse_input, stoer_wagner, Graph};

const TEST_INPUT: &str = "jqt: rhn xhk nvd\n\
                          rsh: frs pzl lsr\n\
                          xhk: hfx\n\
                          cmg: qnr nvd lhk bvb\n\
                          rhn: xhk bvb hfx\n\
                          bvb: xhk hfx\n\
                          pzl: lsr hfx nvd\n\
                          qnr: nvd\n\
                          ntq: jqt hfx bvb xhk\n\
                          nvd: lhk\n\
                          lsr: lhk\n\
                          rzs: qnr cmg lsr rsh\n\
                          frs: qnr lhk lsr";

#[test]
fn test_parsing() {
    let graph = parse_input(TEST_INPUT).unwrap();
    for (node, successors) in graph.names.iter().zip(graph.successors.iter()) {
        println!("{}: {successors:?}", String::from_utf8_lossy(node));
    }
    assert_eq!(graph.names.len(), 15);
    assert_eq!(graph.names[0], b"jqt");
    assert_eq!(graph.names[1], b"rhn");
    assert_eq!(graph.successors[0], vec![1, 2, 3, 13]);
    assert_eq!(graph.successors[2], vec![0, 8, 1, 12, 13]);
}

#[test]
fn day25_test_part1() {
    let graph = parse_input(TEST_INPUT).unwrap();
    let info = stoer_wagner(&graph).unwrap();

    assert_eq!(info.min_cut_size, 3);
    assert_eq!(info.partition_a.len() * info.partition_b.len(), 54);
}

#[test]
fn day25_reachability() {
    let graph = parse_input("a: b\nc: d\ne: e").unwrap();
    assert_eq!(get_reachable(&graph, 0), vec![true, true, false, false, false]);
    assert_eq!(get_reachable(&graph, 3), vec![false, false, true, true, false]);
    assert_eq!(get_reachable(&graph, 4), vec![false, false, false, false, true]);
    assert!(stoer_wagner(&graph).is_none());
    assert!(parse_input("a b").is_none());
    let mut graph = Graph::new();
    let a = graph.node(b"a");
    let b = graph.node(b"b");
    assert_eq!(graph.node(b"a"), a);
    graph.wire(a, b);
    let info = stoer_wagner(&graph).unwrap();
    assert_eq!(info.min_cut_size, 1);
    assert_eq!((info.partition_a.len(), info.partition_b.len()), (1, 1));
    let single = parse_input("a:").unwrap();
    assert!(stoer_wagner(&single).is_none());
}

fn crossing_wires(graph: &Graph, part: &[usize]) -> usize {
    let mut count = 0;
    for &x in part {
        for &y in &graph.successors[x] {
            if !part.contains(&y) {
                count += 1;
            }
        }
    }
    count
}

#[test]
fn day25_lightest_cuts() {
    let ring = parse_input("a: b\nb: c\nc: d\nd: a").unwrap();
    let info = stoer_wagner(&ring).unwrap();
    assert_eq!(info.min_cut_size, 2);
    assert_eq!(info.partition_a.len() + info.partition_b.len(), 4);
    assert_eq!(crossing_wires(&ring, &info.partition_a), 2);
    let chain = parse_input("a: b\nb: c").unwrap();
    let info = stoer_wagner(&chain).unwrap();
    assert_eq!(info.min_cut_size, 1);
    let twins = parse_input("a: b c\nb: c\nd: e f\ne: f\nc: d").unwrap();
    let info = stoer_wagner(&twins).unwrap();
    assert_eq!(info.min_cut_size, 1);
    assert_eq!((info.partition_a.len(), info.partition_b.len()), (3, 3));
    assert_eq!(crossing_wires(&twins, &info.partition_a), 1);
    let sample = parse_input(TEST_INPUT).unwrap();
    let info = stoer_wagner(&sample).unwrap();
    assert_eq!(crossing_wires(&sample, &info.partition_a), info.min_cut_size);
    let mut sorted = info.partition_a.clone();
    sorted.extend(&info.partition_b);
    sorted.sort();
    assert_eq!(sorted, (0..15).collect::<Vec<usize>>());
    for mask in 1u32..(1 << 15) - 1 {
        if mask.count_ones() > 2 {
            continue;
        }
        let part: Vec<usize> = (0..15).filter(|x| mask & (1 << x) != 0).collect();
        assert!(crossing_wires(&sample, &part) >= info.min_cut_size);
    }
}
