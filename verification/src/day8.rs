//! A network of nodes that is walked by a list of left and right turns.

use crate::numbers::{lcm, lcm_of, lemma_cell_bound, lemma_pigeonhole};
use crate::text::{bytes_eq, lines, lines_of, matches_at, occurs_at, views};
use vstd::prelude::*;
use vstd::string::StringSliceAdditionalSpecFns;

verus! {

/// A turn at a node.
#[derive(Debug, PartialEq, Eq, Clone, Copy, Structural)]
pub enum Direction {
    Left,
    Right,
}

/// A node with the names of its two neighbours.
#[derive(Debug, Clone, Copy)]
pub struct Node<'a> {
    pub name: &'a [u8],
    pub left: &'a [u8],
    pub right: &'a [u8],
}

/// The names that a node holds.
pub struct NodeView {
    pub name: Seq<u8>,
    pub left: Seq<u8>,
    pub right: Seq<u8>,
}

impl<'a> Node<'a> {
    /// The names that the node holds.
    pub open spec fn model(&self) -> NodeView {
        NodeView { name: self.name@, left: self.left@, right: self.right@ }
    }
}

/// The nodes of a network; of two nodes with one name the later one counts.
pub type Graph<'a> = Vec<Node<'a>>;

/// The names that the nodes of a network hold.
pub open spec fn nodes_of(graph: Seq<Node>) -> Seq<NodeView> {
    Seq::new(graph.len(), |i: int| graph[i].model())
}

/// The index of the last of the first `n` nodes that has the name `name`,
/// or -1.
pub open spec fn index_of(nodes: Seq<NodeView>, name: Seq<u8>, n: int) -> int
    decreases n,
{
    if n <= 0 {
        -1
    } else if nodes[n - 1].name == name {
        n - 1
    } else {
        index_of(nodes, name, n - 1)
    }
}

/// The name of the node that the turn `turn` leads to from the node named
/// `current`, if there is such a node.
pub open spec fn next_node(nodes: Seq<NodeView>, current: Seq<u8>, turn: Direction) -> Option<Seq<u8>> {
    let i = index_of(nodes, current, nodes.len() as int);
    if i < 0 {
        None
    } else if turn == Direction::Left {
        Some(nodes[i].left)
    } else {
        Some(nodes[i].right)
    }
}

/// The neighbour of the node named `current` that `turn` leads to.
pub fn step<'a>(graph: &Graph<'a>, current: &[u8], turn: Direction) -> (r: Option<&'a [u8]>)
    ensures
        match r {
            Some(name) => next_node(nodes_of(graph@), current@, turn) == Some(name@),
            None => next_node(nodes_of(graph@), current@, turn) is None,
        },
{
    let ghost nodes = nodes_of(graph@);
    let mut n: usize = graph.len();
    while n > 0
        invariant
            n <= graph@.len(),
            nodes == nodes_of(graph@),
            index_of(nodes, current@, nodes.len() as int) == index_of(nodes, current@, n as int),
        decreases n,
    {
        let node = graph[n - 1];
        assert(nodes[n - 1] == graph@[n - 1].model());
        if bytes_eq(node.name, current) {
            return Some(
                match turn {
                    Direction::Left => node.left,
                    Direction::Right => node.right,
                },
            );
        }
        n = n - 1;
    }
    None
}

/// The number of steps after which the walk that is at `current` after `i`
/// steps is at `goal`; nothing when a node is missing, there are no
/// instructions, or the goal is not reached with `limit` steps.
pub open spec fn steps_from(
    instructions: Seq<Direction>,
    nodes: Seq<NodeView>,
    current: Seq<u8>,
    goal: Seq<u8>,
    i: nat,
    limit: nat,
) -> Option<nat>
    decreases limit - i,
{
    if current == goal {
        Some(i)
    } else if i >= limit || instructions.len() == 0 {
        None
    } else {
        match next_node(nodes, current, instructions[i as int % instructions.len() as int]) {
            None => None,
            Some(next) => steps_from(instructions, nodes, next, goal, i + 1, limit),
        }
    }
}

/// The number of places at which a walk can be, one for every instruction
/// at every node, or `usize::MAX` if that is less.
pub open spec fn places(instructions: Seq<Direction>, nodes: Seq<NodeView>) -> nat {
    if instructions.len() * nodes.len() <= usize::MAX {
        instructions.len() * nodes.len()
    } else {
        usize::MAX as nat
    }
}

/// The number of steps from `start` to `goal` when the instructions are
/// followed over and over. A walk that has not reached the goal after as
/// many steps as there are places never does.
pub fn follow_directions(instructions: &[Direction], graph: &Graph, start: &[u8], goal: &[u8]) -> (r: Option<usize>)
    ensures
        r matches Some(n) ==> node_after(instructions@, nodes_of(graph@), start@, n as nat) == Some(goal@)
            && forall|t: nat| t < n ==> node_after(instructions@, nodes_of(graph@), start@, t) != Some(goal@),
        r is None && instructions@.len() * graph@.len() <= usize::MAX ==> forall|t: nat|
            node_after(instructions@, nodes_of(graph@), start@, t) != Some(goal@),
        match r {
            Some(n) => steps_from(
                instructions@,
                nodes_of(graph@),
                start@,
                goal@,
                0,
                places(instructions@, nodes_of(graph@)),
            ) == Some(n as nat),
            None => steps_from(
                instructions@,
                nodes_of(graph@),
                start@,
                goal@,
                0,
                places(instructions@, nodes_of(graph@)),
            ) is None,
        },
{
    let ghost nodes = nodes_of(graph@);
    let ghost limit = places(instructions@, nodes);
    proof {
        lemma_steps_walk(instructions@, nodes, start@, goal@, start@, 0, limit);
        if steps_from(instructions@, nodes, start@, goal@, 0, limit) is None && instructions@.len() * graph@.len()
            <= usize::MAX {
            lemma_limit_suffices(instructions@, nodes, start@, goal@, 0);
        }
    }
    let num_turns = instructions.len();
    let num_nodes = graph.len();
    assert(num_turns * num_nodes <= u128::MAX) by (nonlinear_arith)
        requires
            num_turns <= 0xffff_ffff_ffff_ffff,
            num_nodes <= 0xffff_ffff_ffff_ffff,
    ;
    let product: u128 = (num_turns as u128) * (num_nodes as u128);
    let bound: usize = if product <= usize::MAX as u128 {
        product as usize
    } else {
        usize::MAX
    };
    let mut current = start;
    let mut i: usize = 0;
    let ghost whole = steps_from(instructions@, nodes, start@, goal@, 0, limit);
    loop
        invariant
            nodes == nodes_of(graph@),
            limit == places(instructions@, nodes),
            bound == limit,
            num_turns == instructions@.len(),
            i <= limit,
            whole == steps_from(instructions@, nodes, start@, goal@, 0, limit),
            whole matches Some(k) ==> node_after(instructions@, nodes, start@, k) == Some(goal@) && forall|t: nat|
                t < k ==> node_after(instructions@, nodes, start@, t) != Some(goal@),
            whole is None && instructions@.len() * graph@.len() <= usize::MAX ==> forall|t: nat|
                node_after(instructions@, nodes, start@, t) != Some(goal@),
            steps_from(instructions@, nodes, start@, goal@, 0, limit) == steps_from(
                instructions@,
                nodes,
                current@,
                goal@,
                i as nat,
                limit,
            ),
        decreases limit - i,
    {
        if bytes_eq(current, goal) {
            return Some(i);
        }
        if i >= bound || num_turns == 0 {
            return None;
        }
        match step(graph, current, instructions[i % num_turns]) {
            None => {
                return None;
            },
            Some(next) => {
                current = next;
            },
        }
        i = i + 1;
    }
}

/// The bytes of `AAA`, where the walk begins.
pub open spec fn start_name() -> Seq<u8> {
    seq![65u8, 65u8, 65u8]
}

/// The bytes of `ZZZ`, where the walk ends.
pub open spec fn goal_name() -> Seq<u8> {
    seq![90u8, 90u8, 90u8]
}

/// The number of steps from `AAA` to `ZZZ`.
pub fn part1(instructions: &[Direction], graph: &Graph) -> (r: Option<usize>)
    ensures
        r matches Some(n) ==> node_after(instructions@, nodes_of(graph@), start_name(), n as nat) == Some(goal_name())
            && forall|t: nat| t < n ==> node_after(instructions@, nodes_of(graph@), start_name(), t) != Some(goal_name()),
        r is None && instructions@.len() * graph@.len() <= usize::MAX ==> forall|t: nat|
            node_after(instructions@, nodes_of(graph@), start_name(), t) != Some(goal_name()),
        match r {
            Some(n) => steps_from(
                instructions@,
                nodes_of(graph@),
                start_name(),
                goal_name(),
                0,
                places(instructions@, nodes_of(graph@)),
            ) == Some(n as nat),
            None => steps_from(
                instructions@,
                nodes_of(graph@),
                start_name(),
                goal_name(),
                0,
                places(instructions@, nodes_of(graph@)),
            ) is None,
        },
{
    let start: [u8; 3] = [65, 65, 65];
    let goal: [u8; 3] = [90, 90, 90];
    assert(start@ =~= start_name());
    assert(goal@ =~= goal_name());
    follow_directions(instructions, graph, start.as_slice(), goal.as_slice())
}

/// What a walk shows until it first is at a place again: the time steps at
/// which it was at a node whose name ends in `Z`, how many of them lie before
/// the first visit of that place, and the number of steps between the two
/// visits.
#[derive(Debug)]
pub struct GhostPathInfo {
    pub time_steps_at_z: Vec<usize>,
    pub cycle_start_index: usize,
    pub cycle_length: usize,
}

/// What a `GhostPathInfo` holds.
pub struct GhostPathView {
    pub time_steps_at_z: Seq<usize>,
    pub cycle_start_index: nat,
    pub cycle_length: nat,
}

impl GhostPathInfo {
    /// What the record holds.
    pub open spec fn model(&self) -> GhostPathView {
        GhostPathView {
            time_steps_at_z: self.time_steps_at_z@,
            cycle_start_index: self.cycle_start_index as nat,
            cycle_length: self.cycle_length as nat,
        }
    }
}

/// Whether the name ends in the character `c`.
pub open spec fn ends_with(name: Seq<u8>, c: u8) -> bool {
    name.len() > 0 && name.last() == c
}

/// Tells whether the name ends in the character `c`.
pub fn has_last(name: &[u8], c: u8) -> (b: bool)
    ensures
        b == ends_with(name@, c),
{
    name.len() > 0 && name[name.len() - 1] == c
}

/// The latest of the times `j`, `j - stride`, `j - 2 * stride`, ... at which
/// the walk was at the node where it is last, or -1.
pub open spec fn earlier_same(path: Seq<Seq<u8>>, stride: int, j: int) -> int
    decreases j + stride,
{
    if j < 0 || stride <= 0 {
        -1
    } else if path[j] == path.last() {
        j
    } else {
        earlier_same(path, stride, j - stride)
    }
}

/// How many of the first `n` time steps lie before `bound`.
pub open spec fn count_below(steps: Seq<usize>, bound: int, n: int) -> nat
    decreases n,
{
    if n <= 0 {
        0
    } else if steps[n - 1] < bound {
        count_below(steps, bound, n - 1) + 1
    } else {
        count_below(steps, bound, n - 1)
    }
}

/// What the walk shows that has been at the nodes of `path`, one per time
/// step, and at a node ending in `Z` at the time steps `marked` before the
/// last. A place is a node together with a position in the instructions.
/// There is nothing to show when a node is missing, or when no place is
/// met again within `limit` steps.
pub open spec fn ghost_from(
    instructions: Seq<Direction>,
    nodes: Seq<NodeView>,
    path: Seq<Seq<u8>>,
    marked: Seq<usize>,
    limit: nat,
) -> Option<GhostPathView>
    decreases limit + 1 - path.len(),
{
    let i = path.len() - 1;
    let stride = instructions.len() as int;
    let steps = if ends_with(path.last(), 90u8) {
        marked.push(i as usize)
    } else {
        marked
    };
    let j = earlier_same(path, stride, i - stride);
    if j >= 0 {
        Some(
            GhostPathView {
                time_steps_at_z: steps,
                cycle_start_index: count_below(steps, j, steps.len() as int),
                cycle_length: (i - j) as nat,
            },
        )
    } else if i >= limit || stride == 0 {
        None
    } else {
        match next_node(nodes, path.last(), instructions[i % stride]) {
            None => None,
            Some(next) => ghost_from(instructions, nodes, path.push(next), steps, limit),
        }
    }
}

/// What the walk from `start` shows until it first is at a place again.
/// Without instructions there is no walk, and nothing to show but zeros.
pub open spec fn ghost_walk(instructions: Seq<Direction>, nodes: Seq<NodeView>, start: Seq<u8>) -> Option<
    GhostPathView,
> {
    if instructions.len() == 0 {
        Some(GhostPathView { time_steps_at_z: Seq::empty(), cycle_start_index: 0, cycle_length: 0 })
    } else {
        ghost_from(instructions, nodes, seq![start], Seq::empty(), places(instructions, nodes))
    }
}

/// The latest earlier time, a multiple of `stride` steps back, at which the
/// walk was at the node where it is last.
fn find_earlier(path: &Vec<&[u8]>, stride: usize) -> (r: Option<usize>)
    requires
        path@.len() > 0,
        stride > 0,
    ensures
        match r {
            Some(j) => j == earlier_same(views(path@), stride as int, path@.len() - 1 - stride) && j + stride
                < path@.len(),
            None => earlier_same(views(path@), stride as int, path@.len() - 1 - stride) < 0,
        },
{
    let i = path.len() - 1;
    let current = path[i];
    let ghost names = views(path@);
    assert(names.last() == current@);
    let mut j: usize = i;
    while j >= stride
        invariant
            j <= i,
            i == path@.len() - 1,
            stride > 0,
            names == views(path@),
            names.last() == current@,
            earlier_same(names, stride as int, i - stride) == earlier_same(names, stride as int, j - stride),
        decreases j,
    {
        j = j - stride;
        assert(names[j as int] == path@[j as int]@);
        if bytes_eq(path[j], current) {
            return Some(j);
        }
    }
    None
}

/// How many of the time steps lie before `bound`.
fn count_before(steps: &Vec<usize>, bound: usize) -> (n: usize)
    ensures
        n == count_below(steps@, bound as int, steps@.len() as int),
{
    let mut n: usize = 0;
    let mut k: usize = 0;
    while k < steps.len()
        invariant
            k <= steps@.len(),
            n <= k,
            n == count_below(steps@, bound as int, k as int),
        decreases steps@.len() - k,
    {
        if steps[k] < bound {
            n = n + 1;
        }
        k = k + 1;
    }
    n
}

/// Follows the instructions from `start` until the walk is at a place where
/// it has been before.
pub fn follow_directions_part2<'a>(instructions: &[Direction], graph: &Graph<'a>, start: &'a [u8]) -> (r: Option<
    GhostPathInfo,
>)
    ensures
        match r {
            Some(info) => ghost_walk(instructions@, nodes_of(graph@), start@) == Some(info.model()),
            None => ghost_walk(instructions@, nodes_of(graph@), start@) is None,
        },
{
    let ghost nodes = nodes_of(graph@);
    let ghost limit = places(instructions@, nodes);
    let num_turns = instructions.len();
    let num_nodes = graph.len();
    let mut time_steps_at_z: Vec<usize> = Vec::new();
    if num_turns == 0 {
        return Some(GhostPathInfo { time_steps_at_z, cycle_start_index: 0, cycle_length: 0 });
    }
    assert(num_turns * num_nodes <= u128::MAX) by (nonlinear_arith)
        requires
            num_turns <= 0xffff_ffff_ffff_ffff,
            num_nodes <= 0xffff_ffff_ffff_ffff,
    ;
    let product: u128 = (num_turns as u128) * (num_nodes as u128);
    let bound: usize = if product <= usize::MAX as u128 {
        product as usize
    } else {
        usize::MAX
    };
    let mut path: Vec<&[u8]> = Vec::new();
    path.push(start);
    assert(views(path@) =~= seq![start@]);
    loop
        invariant
            nodes == nodes_of(graph@),
            limit == places(instructions@, nodes),
            bound == limit,
            num_turns == instructions@.len(),
            num_turns > 0,
            path@.len() >= 1,
            path@.len() <= limit + 1,
            ghost_walk(instructions@, nodes, start@) == ghost_from(
                instructions@,
                nodes,
                views(path@),
                time_steps_at_z@,
                limit,
            ),
        decreases limit + 1 - path@.len(),
    {
        let i = path.len() - 1;
        let current = path[i];
        assert(views(path@).last() == current@);
        if has_last(current, 90) {
            time_steps_at_z.push(i);
        }
        match find_earlier(&path, num_turns) {
            Some(j) => {
                let cycle_start_index = count_before(&time_steps_at_z, j);
                return Some(GhostPathInfo { time_steps_at_z, cycle_start_index, cycle_length: i - j });
            },
            None => {},
        }
        if i >= bound {
            return None;
        }
        match step(graph, current, instructions[i % num_turns]) {
            None => {
                return None;
            },
            Some(next) => {
                let ghost before = views(path@);
                path.push(next);
                assert(views(path@) =~= before.push(next@));
            },
        }
    }
}

/// The least common multiple of the cycle lengths of the walks from those
/// of the first `n` nodes whose names end in `A`; the inner value is
/// missing while there was no such node, and the outer one when a walk
/// shows nothing or the multiple does not fit in `usize`.
pub open spec fn cycles_lcm(instructions: Seq<Direction>, nodes: Seq<NodeView>, n: int) -> Option<Option<usize>>
    decreases n,
{
    if n <= 0 {
        Some(None)
    } else {
        match cycles_lcm(instructions, nodes, n - 1) {
            None => None,
            Some(acc) => if !ends_with(nodes[n - 1].name, 65u8) {
                Some(acc)
            } else {
                match (ghost_walk(instructions, nodes, nodes[n - 1].name), acc) {
                    (None, _) => None,
                    (Some(info), None) => if info.cycle_length <= usize::MAX {
                        Some(Some(info.cycle_length as usize))
                    } else {
                        None
                    },
                    (Some(info), Some(a)) => if lcm_of(a as nat, info.cycle_length) <= usize::MAX {
                        Some(Some(lcm_of(a as nat, info.cycle_length) as usize))
                    } else {
                        None
                    },
                }
            },
        }
    }
}

/// If the first `i` nodes give no multiple, neither do the first `n`.
pub proof fn lemma_cycles_lcm_prefix(instructions: Seq<Direction>, nodes: Seq<NodeView>, i: int, n: int)
    requires
        0 <= i <= n,
        cycles_lcm(instructions, nodes, i) is None,
    ensures
        cycles_lcm(instructions, nodes, n) is None,
    decreases n - i,
{
    if i < n {
        lemma_cycles_lcm_prefix(instructions, nodes, i, n - 1);
    }
}

/// The least common multiple of the cycle lengths of the walks from all
/// nodes whose names end in `A`: the number of steps after which all walks
/// are at a node ending in `Z`, where each walk meets one such node, and
/// that once in every cycle.
pub fn part2(instructions: &[Direction], graph: &Graph) -> (r: Option<usize>)
    ensures
        r == match cycles_lcm(instructions@, nodes_of(graph@), graph@.len() as int) {
            Some(Some(v)) => Some(v),
            _ => None,
        },
{
    let ghost nodes = nodes_of(graph@);
    let mut acc: Option<usize> = None;
    let mut n: usize = 0;
    while n < graph.len()
        invariant
            n <= graph@.len(),
            nodes == nodes_of(graph@),
            cycles_lcm(instructions@, nodes, n as int) == Some(acc),
        decreases graph@.len() - n,
    {
        let node = graph[n];
        assert(nodes[n as int] == graph@[n as int].model());
        if has_last(node.name, 65) {
            let next = match follow_directions_part2(instructions, graph, node.name) {
                None => None,
                Some(info) => match acc {
                    None => Some(info.cycle_length),
                    Some(a) => lcm(a, info.cycle_length),
                },
            };
            if next.is_none() {
                proof {
                    lemma_cycles_lcm_prefix(instructions@, nodes, n + 1, nodes.len() as int);
                }
                return None;
            }
            acc = next;
        }
        n = n + 1;
    }
    acc
}

/// Whether the character is a letter, a digit or an underscore.
pub open spec fn is_word(c: u8) -> bool {
    (48 <= c <= 57) || (65 <= c <= 90) || (97 <= c <= 122) || c == 95
}

/// The first index at or after `i` at which no word character stands.
pub open spec fn word_end(s: Seq<u8>, i: int) -> int
    decreases s.len() - i,
{
    if i < 0 || i >= s.len() || !is_word(s[i]) {
        i
    } else {
        word_end(s, i + 1)
    }
}

/// The bytes of ` = (`.
pub open spec fn opening() -> Seq<u8> {
    seq![32u8, 61u8, 32u8, 40u8]
}

/// The bytes of `, `.
pub open spec fn between() -> Seq<u8> {
    seq![44u8, 32u8]
}

/// The node that is written at index `i` of the line as
/// `<name> = (<left>, <right>)`, each name a run of word characters that is
/// as long as can be.
pub open spec fn entry_at(s: Seq<u8>, i: int) -> Option<NodeView> {
    let a = word_end(s, i);
    let b = word_end(s, a + 4);
    let c = word_end(s, b + 2);
    if 0 <= i < a && matches_at(s, opening(), a) && a + 4 < b && matches_at(s, between(), b) && b + 2 < c && c
        < s.len() && s[c] == 41u8 {
        Some(NodeView { name: s.subrange(i, a), left: s.subrange(a + 4, b), right: s.subrange(b + 2, c) })
    } else {
        None
    }
}

/// The node that is written first in the line, at or after index `i`.
pub open spec fn first_entry(s: Seq<u8>, i: int) -> Option<NodeView>
    decreases s.len() - i,
{
    if i < 0 || i >= s.len() {
        None
    } else if entry_at(s, i) is Some {
        entry_at(s, i)
    } else {
        first_entry(s, i + 1)
    }
}

/// The turns that the first `n` characters stand for, `L` for left and `R`
/// for right, if each stands for one.
pub open spec fn turns_from(line: Seq<u8>, n: int) -> Option<Seq<Direction>>
    decreases n,
{
    if n <= 0 {
        Some(Seq::empty())
    } else {
        match turns_from(line, n - 1) {
            None => None,
            Some(turns) => if line[n - 1] == 76u8 {
                Some(turns.push(Direction::Left))
            } else if line[n - 1] == 82u8 {
                Some(turns.push(Direction::Right))
            } else {
                None
            },
        }
    }
}

/// If the first `i` characters are no turns, neither are the first `n`.
pub proof fn lemma_turns_from_prefix(line: Seq<u8>, i: int, n: int)
    requires
        0 <= i <= n,
        turns_from(line, i) is None,
    ensures
        turns_from(line, n) is None,
    decreases n - i,
{
    if i < n {
        lemma_turns_from_prefix(line, i, n - 1);
    }
}

/// The nodes written in the lines from the third to the `n`-th, if each of
/// them holds one.
pub open spec fn entries_from(ls: Seq<Seq<u8>>, n: int) -> Option<Seq<NodeView>>
    decreases n,
{
    if n <= 2 {
        Some(Seq::empty())
    } else {
        match (entries_from(ls, n - 1), first_entry(ls[n - 1], 0)) {
            (Some(nodes), Some(node)) => Some(nodes.push(node)),
            _ => None,
        }
    }
}

/// If the lines up to the `i`-th do not all hold nodes, neither do the
/// lines up to the `n`-th.
pub proof fn lemma_entries_from_prefix(ls: Seq<Seq<u8>>, i: int, n: int)
    requires
        0 <= i <= n,
        entries_from(ls, i) is None,
    ensures
        entries_from(ls, n) is None,
    decreases n - i,
{
    if i < n {
        lemma_entries_from_prefix(ls, i, n - 1);
    }
}

/// The instructions of the first line and the nodes of the lines from the
/// third on; the second line is passed over.
pub open spec fn network_of(input: Seq<u8>) -> Option<(Seq<Direction>, Seq<NodeView>)> {
    let ls = lines_of(input);
    if ls.len() == 0 {
        None
    } else {
        match (turns_from(ls[0], ls[0].len() as int), entries_from(ls, ls.len() as int)) {
            (Some(turns), Some(nodes)) => Some((turns, nodes)),
            _ => None,
        }
    }
}

/// Tells whether the character is a letter, a digit or an underscore.
fn word_byte(c: u8) -> (b: bool)
    ensures
        b == is_word(c),
{
    (48 <= c && c <= 57) || (65 <= c && c <= 90) || (97 <= c && c <= 122) || c == 95
}

/// The first index at or after `i` at which no word character stands.
fn scan_word(s: &[u8], i: usize) -> (end: usize)
    requires
        i <= s@.len(),
    ensures
        end == word_end(s@, i as int),
        i <= end <= s@.len(),
{
    let mut end: usize = i;
    while end < s.len() && word_byte(s[end])
        invariant
            i <= end <= s@.len(),
            word_end(s@, i as int) == word_end(s@, end as int),
        decreases s@.len() - end,
    {
        end = end + 1;
    }
    end
}

/// The node that is written at index `i` of the line.
fn parse_entry_at<'a>(s: &'a [u8], i: usize) -> (r: Option<Node<'a>>)
    requires
        i < s@.len(),
    ensures
        match r {
            Some(node) => entry_at(s@, i as int) == Some(node.model()),
            None => entry_at(s@, i as int) is None,
        },
{
    let open_text: [u8; 4] = [32, 61, 32, 40];
    let comma_text: [u8; 2] = [44, 32];
    assert(open_text@ =~= opening());
    assert(comma_text@ =~= between());
    assert(opening().len() == 4 && between().len() == 2);
    let _ = s.len();
    let a = scan_word(s, i);
    if a == i || !occurs_at(s, open_text.as_slice(), a) {
        return None;
    }
    let b = scan_word(s, a + 4);
    if b == a + 4 || !occurs_at(s, comma_text.as_slice(), b) {
        return None;
    }
    let c = scan_word(s, b + 2);
    if c == b + 2 || c >= s.len() || s[c] != 41 {
        return None;
    }
    Some(Node { name: &s[i..a], left: &s[a + 4..b], right: &s[b + 2..c] })
}

/// The node that is written first in the line.
pub fn parse_entry<'a>(s: &'a [u8]) -> (r: Option<Node<'a>>)
    ensures
        match r {
            Some(node) => first_entry(s@, 0) == Some(node.model()),
            None => first_entry(s@, 0) is None,
        },
{
    let mut i: usize = 0;
    while i < s.len()
        invariant
            i <= s@.len(),
            first_entry(s@, 0) == first_entry(s@, i as int),
        decreases s@.len() - i,
    {
        let found = parse_entry_at(s, i);
        if found.is_some() {
            return found;
        }
        i = i + 1;
    }
    None
}

/// Reads the instructions and the network.
pub fn parse_input<'a>(puzzle_input: &'a str) -> (r: Option<(Vec<Direction>, Graph<'a>)>)
    ensures
        match r {
            Some((instructions, graph)) => network_of(puzzle_input.spec_bytes()) == Some(
                (instructions@, nodes_of(graph@)),
            ),
            None => network_of(puzzle_input.spec_bytes()) is None,
        },
{
    let texts = lines(puzzle_input.as_bytes());
    let ghost all = lines_of(puzzle_input.spec_bytes());
    if texts.len() == 0 {
        return None;
    }
    let first = texts[0];
    assert(all[0] == texts@[0]@);
    let mut instructions: Vec<Direction> = Vec::new();
    let mut j: usize = 0;
    while j < first.len()
        invariant
            j <= first@.len(),
            all == lines_of(puzzle_input.spec_bytes()),
            all.len() > 0,
            first@ == all[0],
            turns_from(first@, j as int) == Some(instructions@),
        decreases first@.len() - j,
    {
        if first[j] == 76 {
            instructions.push(Direction::Left);
        } else if first[j] == 82 {
            instructions.push(Direction::Right);
        } else {
            proof {
                lemma_turns_from_prefix(first@, j + 1, first@.len() as int);
            }
            return None;
        }
        j = j + 1;
    }
    let mut graph: Vec<Node<'a>> = Vec::new();
    let mut n: usize = if texts.len() < 2 {
        texts.len()
    } else {
        2
    };
    assert(nodes_of(graph@) =~= Seq::<NodeView>::empty());
    while n < texts.len()
        invariant
            n <= texts.len(),
            n >= 2 || n == texts.len(),
            all == views(texts@),
            all == lines_of(puzzle_input.spec_bytes()),
            all.len() > 0,
            turns_from(all[0], all[0].len() as int) == Some(instructions@),
            entries_from(all, n as int) == Some(nodes_of(graph@)),
        decreases texts.len() - n,
    {
        assert(all[n as int] == texts@[n as int]@);
        match parse_entry(texts[n]) {
            Some(node) => {
                let ghost before = nodes_of(graph@);
                graph.push(node);
                assert(nodes_of(graph@) =~= before.push(node.model()));
            },
            None => {
                proof {
                    lemma_entries_from_prefix(all, n + 1, all.len() as int);
                }
                return None;
            },
        }
        n = n + 1;
    }
    Some((instructions, graph))
}

/// The node at which the walk from `start` is after `t` steps; none when a
/// node on the way is missing, or when there are no instructions to take a
/// step by.
pub open spec fn node_after(instructions: Seq<Direction>, nodes: Seq<NodeView>, start: Seq<u8>, t: nat) -> Option<
    Seq<u8>,
>
    decreases t,
{
    if t == 0 {
        Some(start)
    } else if instructions.len() == 0 {
        None
    } else {
        match node_after(instructions, nodes, start, (t - 1) as nat) {
            None => None,
            Some(current) => next_node(nodes, current, instructions[(t - 1) % (instructions.len() as int)]),
        }
    }
}

/// The number of steps that `steps_from` gives is one after which the walk
/// is at the goal; where it gives none, the walk is at the goal after none
/// of the numbers of steps up to the limit.
pub proof fn lemma_steps_walk(
    instructions: Seq<Direction>,
    nodes: Seq<NodeView>,
    start: Seq<u8>,
    goal: Seq<u8>,
    current: Seq<u8>,
    i: nat,
    limit: nat,
)
    requires
        node_after(instructions, nodes, start, i) == Some(current),
        i <= limit,
        forall|t: nat| t < i ==> node_after(instructions, nodes, start, t) != Some(goal),
    ensures
        match steps_from(instructions, nodes, current, goal, i, limit) {
            Some(k) => i <= k <= limit && node_after(instructions, nodes, start, k) == Some(goal) && forall|t: nat|
                t < k ==> node_after(instructions, nodes, start, t) != Some(goal),
            None => forall|t: nat| t <= limit ==> node_after(instructions, nodes, start, t) != Some(goal),
        },
    decreases limit - i,
{
    if current != goal && i < limit && instructions.len() > 0 {
        match next_node(nodes, current, instructions[i as int % instructions.len() as int]) {
            None => {
                assert(node_after(instructions, nodes, start, i + 1) is None);
                assert forall|t: nat| t <= limit implies node_after(instructions, nodes, start, t) != Some(goal) by {
                    if t > i {
                        lemma_walk_stops(instructions, nodes, start, i + 1, t);
                    }
                }
            },
            Some(next) => {
                assert(node_after(instructions, nodes, start, i + 1) == Some(next));
                lemma_steps_walk(instructions, nodes, start, goal, next, i + 1, limit);
            },
        }
    } else if current != goal && instructions.len() == 0 {
        assert forall|t: nat| t <= limit implies node_after(instructions, nodes, start, t) != Some(goal) by {}
    }
}

/// A walk that has stopped at a missing node goes on nowhere.
pub proof fn lemma_walk_stops(instructions: Seq<Direction>, nodes: Seq<NodeView>, start: Seq<u8>, i: nat, t: nat)
    requires
        i <= t,
        node_after(instructions, nodes, start, i) is None,
    ensures
        node_after(instructions, nodes, start, t) is None,
    decreases t - i,
{
    if i < t {
        lemma_walk_stops(instructions, nodes, start, i, (t - 1) as nat);
    }
}

/// A walk that is at one node after `a` and after `b` steps, at the same
/// place in the instructions, is at one node again however many steps
/// later.
pub proof fn lemma_walk_repeats(
    instructions: Seq<Direction>,
    nodes: Seq<NodeView>,
    start: Seq<u8>,
    a: nat,
    b: nat,
    d: nat,
)
    requires
        instructions.len() > 0,
        a as int % instructions.len() as int == b as int % instructions.len() as int,
        node_after(instructions, nodes, start, a) == node_after(instructions, nodes, start, b),
    ensures
        node_after(instructions, nodes, start, a + d) == node_after(instructions, nodes, start, b + d),
    decreases d,
{
    if d > 0 {
        lemma_walk_repeats(instructions, nodes, start, a, b, (d - 1) as nat);
        let n = instructions.len() as int;
        vstd::arithmetic::div_mod::lemma_add_mod_noop(a as int, d - 1, n);
        vstd::arithmetic::div_mod::lemma_add_mod_noop(b as int, d - 1, n);
        assert((a + d - 1) % n == (b + d - 1) % n);
    }
}

/// The index that is found for a name is that of a node of that name.
pub proof fn lemma_index_of_name(nodes: Seq<NodeView>, name: Seq<u8>, n: int)
    requires
        0 <= n <= nodes.len(),
    ensures
        -1 <= index_of(nodes, name, n) < n,
        index_of(nodes, name, n) >= 0 ==> nodes[index_of(nodes, name, n)].name == name,
    decreases n,
{
    if n > 0 && nodes[n - 1].name != name {
        lemma_index_of_name(nodes, name, n - 1);
    }
}

/// The number that stands for the place of the walk after `k` steps: its
/// place in the instructions and the index of its node.
pub open spec fn place_code(instructions: Seq<Direction>, nodes: Seq<NodeView>, start: Seq<u8>, k: int) -> int {
    (k % (instructions.len() as int)) * nodes.len() + index_of(
        nodes,
        node_after(instructions, nodes, start, k as nat).unwrap(),
        nodes.len() as int,
    )
}

/// A walk that has not reached the goal after as many steps as there are
/// places never does.
pub proof fn lemma_never_reached(
    instructions: Seq<Direction>,
    nodes: Seq<NodeView>,
    start: Seq<u8>,
    goal: Seq<u8>,
    t: nat,
)
    requires
        forall|k: nat|
            k <= instructions.len() * nodes.len() ==> node_after(instructions, nodes, start, k) != Some(goal),
    ensures
        node_after(instructions, nodes, start, t) != Some(goal),
    decreases t,
{
    let n = instructions.len() as int;
    let many = nodes.len() as int;
    let limit = (instructions.len() * nodes.len()) as nat;
    if t > limit && n > 0 {
        assert(n * many >= 0) by (nonlinear_arith)
            requires
                n >= 0,
                many >= 0,
        ;
        if node_after(instructions, nodes, start, limit + 1) is None {
            lemma_walk_stops(instructions, nodes, start, limit + 1, t);
        } else {
            assert forall|k: int| 0 <= k <= limit implies node_after(instructions, nodes, start, k as nat) is Some
                && 0 <= #[trigger] place_code(instructions, nodes, start, k) < limit by {
                if node_after(instructions, nodes, start, k as nat) is None {
                    lemma_walk_stops(instructions, nodes, start, k as nat, limit + 1);
                }
                if node_after(instructions, nodes, start, (k + 1) as nat) is None {
                    lemma_walk_stops(instructions, nodes, start, (k + 1) as nat, limit + 1);
                }
                let name = node_after(instructions, nodes, start, k as nat).unwrap();
                lemma_index_of_name(nodes, name, many);
                assert(index_of(nodes, name, many) >= 0);
                lemma_cell_bound(k % n, index_of(nodes, name, many), n, many);
            }
            let codes = Seq::new(limit + 1, |k: int| place_code(instructions, nodes, start, k));
            lemma_pigeonhole(codes, limit as int);
            let (a, b) = choose|a: int, b: int| 0 <= a < b < codes.len() && codes[a] == codes[b];
            let first = node_after(instructions, nodes, start, a as nat).unwrap();
            let second = node_after(instructions, nodes, start, b as nat).unwrap();
            lemma_index_of_name(nodes, first, many);
            lemma_index_of_name(nodes, second, many);
            assert(place_code(instructions, nodes, start, a) == place_code(instructions, nodes, start, b));
            if node_after(instructions, nodes, start, (a + 1) as nat) is None {
                lemma_walk_stops(instructions, nodes, start, (a + 1) as nat, limit + 1);
            }
            if node_after(instructions, nodes, start, (b + 1) as nat) is None {
                lemma_walk_stops(instructions, nodes, start, (b + 1) as nat, limit + 1);
            }
            vstd::arithmetic::div_mod::lemma_fundamental_div_mod_converse(
                place_code(instructions, nodes, start, a),
                many,
                a % n,
                index_of(nodes, first, many),
            );
            vstd::arithmetic::div_mod::lemma_fundamental_div_mod_converse(
                place_code(instructions, nodes, start, b),
                many,
                b % n,
                index_of(nodes, second, many),
            );
            assert(first == second);
            let d = (t - b) as nat;
            lemma_walk_repeats(instructions, nodes, start, a as nat, b as nat, d);
            lemma_never_reached(instructions, nodes, start, goal, (a + d) as nat);
        }
    } else if t > limit {
    }
}

/// Where the number of places fits in `usize`, a walk for which
/// `steps_from` gives no number of steps within as many steps as there are
/// places is at the goal after no number of steps, and `steps_from` gives
/// none within any number of steps.
pub proof fn lemma_limit_suffices(
    instructions: Seq<Direction>,
    nodes: Seq<NodeView>,
    start: Seq<u8>,
    goal: Seq<u8>,
    limit: nat,
)
    requires
        instructions.len() * nodes.len() <= usize::MAX,
        steps_from(instructions, nodes, start, goal, 0, places(instructions, nodes)) is None,
    ensures
        forall|t: nat| node_after(instructions, nodes, start, t) != Some(goal),
        steps_from(instructions, nodes, start, goal, 0, limit) is None,
{
    lemma_steps_walk(instructions, nodes, start, goal, start, 0, places(instructions, nodes));
    assert forall|t: nat| node_after(instructions, nodes, start, t) != Some(goal) by {
        lemma_never_reached(instructions, nodes, start, goal, t);
    }
    lemma_steps_walk(instructions, nodes, start, goal, start, 0, limit);
}

} // verus!
