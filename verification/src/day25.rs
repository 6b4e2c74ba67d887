//! A wiring diagram that is to be cut into two parts through as few wires as
//! possible.

use crate::queue::{
    queue_change_priority, queue_entries, queue_get_priority, queue_new, queue_pop, queue_push,
};
use crate::numbers::lemma_cell_bound;
use crate::reach::{
    connected, count_set, follows_edges, lemma_closed_holds_path, lemma_connected_self, list_views, reachable_in,
};
use crate::text::{bytes_eq, lines, lines_of, split_once, split_once_on, to_vec, views, words, words_of};
use priority_queue::PriorityQueue;
use std::collections::hash_map::RandomState;
use vstd::prelude::*;
use vstd::string::StringSliceAdditionalSpecFns;

pub mod phase;

use crate::reach::{lemma_connected_grow, lemma_connected_step, lemma_connected_trans};
use phase::{
    adjacency_order, cuts_known, lemma_known_cut, lemma_known_merge, lemma_known_start, lemma_light_all,
    lemma_light_phase, lemma_order_next, lemma_owner_last, lemma_owner_moved, light, order_so_far, owner_sound,
    two_sided,
};

verus! {

/// Components by name, and for each the components it is wired to, by their
/// numbers.
pub struct Graph {
    pub names: Vec<Vec<u8>>,
    pub successors: Vec<Vec<usize>>,
}

/// A graph as plain values.
pub struct GraphView {
    pub names: Seq<Seq<u8>>,
    pub successors: Seq<Seq<usize>>,
}

/// The views of a sequence of byte vectors.
pub open spec fn name_views(names: Seq<Vec<u8>>) -> Seq<Seq<u8>> {
    names.map_values(|n: Vec<u8>| n@)
}

impl View for Graph {
    type V = GraphView;

    open spec fn view(&self) -> GraphView {
        GraphView { names: name_views(self.names@), successors: list_views(self.successors@) }
    }
}

impl GraphView {
    /// Whether every component has a list, and every number in a list is
    /// that of a component.
    pub open spec fn wf(self) -> bool {
        self.names.len() == self.successors.len() && forall|x: int, k: int|
            0 <= x < self.successors.len() && 0 <= k < self.successors[x].len() ==> #[trigger] self.successors[x][k]
                < self.names.len()
    }

    /// Whether `x` is wired to `y`.
    pub open spec fn wired(self, x: int, y: int) -> bool {
        0 <= x < self.successors.len() && self.successors[x].contains(y as usize)
    }
}

/// The index of the first of the names from `from` on that equals `name`, or
/// the number of names.
pub open spec fn index_of(names: Seq<Seq<u8>>, name: Seq<u8>, from: int) -> int
    decreases names.len() - from,
{
    if from >= names.len() {
        names.len() as int
    } else if names[from] == name {
        from
    } else {
        index_of(names, name, from + 1)
    }
}

/// The graph with a component called `name`, which is added without wires if
/// there is none yet.
pub open spec fn with_node(g: GraphView, name: Seq<u8>) -> GraphView {
    if index_of(g.names, name, 0) < g.names.len() {
        g
    } else {
        GraphView { names: g.names.push(name), successors: g.successors.push(Seq::empty()) }
    }
}

/// The graph with a wire from `x` to `y` and one back.
pub open spec fn with_wire(g: GraphView, x: int, y: int) -> GraphView {
    let there = g.successors.update(x, g.successors[x].push(y as usize));
    GraphView { names: g.names, successors: there.update(y, there[y].push(x as usize)) }
}

/// The graph after the first `k` of `others` have been wired to the component
/// `node`.
pub open spec fn with_wires(g: GraphView, node: int, others: Seq<Seq<u8>>, k: int) -> GraphView
    decreases k,
{
    if k <= 0 {
        g
    } else {
        let so_far = with_node(with_wires(g, node, others, k - 1), others[k - 1]);
        with_wire(so_far, node, index_of(so_far.names, others[k - 1], 0))
    }
}

/// The graph after a line `<name>: <name> <name> ...` has been read, if the
/// line holds a colon.
pub open spec fn with_line(g: GraphView, line: Seq<u8>) -> Option<GraphView> {
    match split_once_on(line, 58u8) {
        None => None,
        Some((name, rest)) => {
            let started = with_node(g, name);
            Some(
                with_wires(
                    started,
                    index_of(started.names, name, 0),
                    words_of(rest),
                    words_of(rest).len() as int,
                ),
            )
        },
    }
}

/// The graph that the first `n` lines describe.
pub open spec fn graph_of(ls: Seq<Seq<u8>>, n: int) -> Option<GraphView>
    decreases n,
{
    if n <= 0 {
        Some(GraphView { names: Seq::empty(), successors: Seq::empty() })
    } else {
        match graph_of(ls, n - 1) {
            None => None,
            Some(g) => with_line(g, ls[n - 1]),
        }
    }
}

/// If the first `i` lines describe no graph, neither do the first `n`.
pub proof fn lemma_graph_of_prefix(ls: Seq<Seq<u8>>, i: int, n: int)
    requires
        0 <= i <= n,
        graph_of(ls, i) is None,
    ensures
        graph_of(ls, n) is None,
    decreases n - i,
{
    if i < n {
        lemma_graph_of_prefix(ls, i, n - 1);
    }
}

/// The index of a name is at most the number of names.
pub proof fn lemma_index_of_range(names: Seq<Seq<u8>>, name: Seq<u8>, from: int)
    requires
        0 <= from <= names.len(),
    ensures
        from <= index_of(names, name, from) <= names.len(),
    decreases names.len() - from,
{
    if from < names.len() && names[from] != name {
        lemma_index_of_range(names, name, from + 1);
    }
}

/// A name that was just added is found.
pub proof fn lemma_with_node(g: GraphView, name: Seq<u8>)
    requires
        g.wf(),
    ensures
        with_node(g, name).wf(),
        index_of(with_node(g, name).names, name, 0) < with_node(g, name).names.len(),
        with_node(g, name).names.len() >= g.names.len(),
{
    lemma_index_of_range(g.names, name, 0);
    if index_of(g.names, name, 0) >= g.names.len() {
        lemma_index_of_pushed(g.names, name, 0);
        let h = with_node(g, name);
        assert forall|x: int, k: int|
            0 <= x < h.successors.len() && 0 <= k < h.successors[x].len() implies #[trigger] h.successors[x][k]
            < h.names.len() by {
            if x < g.successors.len() {
                assert(h.successors[x] == g.successors[x]);
            }
        }
    }
}

/// A name that is not among the names is found at the end once it is added.
pub proof fn lemma_index_of_pushed(names: Seq<Seq<u8>>, name: Seq<u8>, from: int)
    requires
        0 <= from <= names.len(),
        index_of(names, name, from) == names.len(),
    ensures
        index_of(names.push(name), name, from) == names.len(),
    decreases names.len() - from,
{
    if from < names.len() {
        assert(names.push(name)[from] == names[from]);
        lemma_index_of_pushed(names, name, from + 1);
    }
}

/// A wire between components keeps the graph well-formed.
pub proof fn lemma_with_wire(g: GraphView, x: int, y: int)
    requires
        g.wf(),
        0 <= x < g.names.len(),
        0 <= y < g.names.len(),
        g.names.len() <= usize::MAX,
    ensures
        with_wire(g, x, y).wf(),
        with_wire(g, x, y).names == g.names,
{
    let h = with_wire(g, x, y);
    let there = g.successors.update(x, g.successors[x].push(y as usize));
    assert forall|a: int, k: int|
        0 <= a < h.successors.len() && 0 <= k < h.successors[a].len() implies #[trigger] h.successors[a][k]
        < h.names.len() by {
        if a == y {
            if k < there[y].len() {
                assert(h.successors[a][k] == there[y][k]);
                if y == x {
                    if k < g.successors[x].len() {
                        assert(there[y][k] == g.successors[x][k]);
                    }
                } else {
                    assert(there[y][k] == g.successors[y][k]);
                }
            }
        } else if a == x {
            if k < g.successors[x].len() {
                assert(h.successors[a][k] == g.successors[x][k]);
            }
        } else {
            assert(h.successors[a][k] == g.successors[a][k]);
        }
    }
}

/// Finds the component called `name`.
fn find_name(names: &Vec<Vec<u8>>, name: &[u8]) -> (i: usize)
    ensures
        i == index_of(name_views(names@), name@, 0),
        i <= names@.len(),
{
    let mut i: usize = 0;
    while i < names.len()
        invariant
            i <= names.len(),
            index_of(name_views(names@), name@, 0) == index_of(name_views(names@), name@, i as int),
        decreases names.len() - i,
    {
        assert(name_views(names@)[i as int] == names@[i as int]@);
        if bytes_eq(names[i].as_slice(), name) {
            return i;
        }
        i = i + 1;
    }
    i
}

impl Graph {
    /// A graph without components.
    pub fn new() -> (g: Graph)
        ensures
            g@ == (GraphView { names: Seq::empty(), successors: Seq::empty() }),
            g@.wf(),
    {
        let g = Graph { names: Vec::new(), successors: Vec::new() };
        assert(g@.names =~= Seq::<Seq<u8>>::empty());
        assert(g@.successors =~= Seq::<Seq<usize>>::empty());
        g
    }

    /// The number of the component called `name`, which is added without
    /// wires if there is none yet.
    pub fn node(&mut self, name: &[u8]) -> (i: usize)
        requires
            old(self)@.wf(),
        ensures
            final(self)@ == with_node(old(self)@, name@),
            final(self)@.wf(),
            i == index_of(final(self)@.names, name@, 0),
            i < final(self)@.names.len(),
    {
        proof {
            lemma_with_node(self@, name@);
        }
        let i = find_name(&self.names, name);
        if i == self.names.len() {
            let ghost before = self@;
            proof {
                lemma_index_of_pushed(before.names, name@, 0);
            }
            let owned = to_vec(name);
            let empty: Vec<usize> = Vec::new();
            proof {
                assert(name_views(self.names@.push(owned)) =~= before.names.push(name@));
                assert(list_views(self.successors@.push(empty)) =~= before.successors.push(Seq::empty()));
            }
            self.names.push(owned);
            self.successors.push(empty);
        }
        i
    }

    /// Adds a wire from `x` to `y` and one back.
    pub fn wire(&mut self, x: usize, y: usize)
        requires
            old(self)@.wf(),
            x < old(self)@.names.len(),
            y < old(self)@.names.len(),
        ensures
            final(self)@ == with_wire(old(self)@, x as int, y as int),
            final(self)@.wf(),
    {
        let size = self.names.len();
        proof {
            lemma_with_wire(self@, x as int, y as int);
        }
        let ghost before = self@;
        let ghost lists = self.successors@;
        let mut from = self.successors.remove(x);
        from.push(y);
        self.successors.insert(x, from);
        let ghost there = self.successors@;
        proof {
            assert(there =~= lists.update(x as int, from));
            assert(list_views(there) =~= before.successors.update(x as int, before.successors[x as int].push(y)));
        }
        let mut back = self.successors.remove(y);
        back.push(x);
        self.successors.insert(y, back);
        proof {
            assert(self.successors@ =~= there.update(y as int, back));
            assert(list_views(self.successors@) =~= list_views(there).update(
                y as int,
                list_views(there)[y as int].push(x),
            ));
        }
    }
}

/// Reads a wiring diagram: each line names a component and, after a colon,
/// the components it is wired to. Components are numbered as they first
/// appear.
pub fn parse_input(input: &str) -> (r: Option<Graph>)
    ensures
        match r {
            Some(graph) => graph_of(lines_of(input.spec_bytes()), lines_of(input.spec_bytes()).len() as int)
                == Some(graph@) && graph@.wf() && both_ways(graph@),
            None => graph_of(lines_of(input.spec_bytes()), lines_of(input.spec_bytes()).len() as int) is None,
        },
{
    let ls = lines(input.as_bytes());
    let ghost all = lines_of(input.spec_bytes());
    let mut result = Graph::new();
    let mut i: usize = 0;
    while i < ls.len()
        invariant
            i <= ls.len(),
            all == views(ls@),
            all == lines_of(input.spec_bytes()),
            graph_of(all, i as int) == Some(result@),
            result@.wf(),
            both_ways(result@),
        decreases ls.len() - i,
    {
        assert(all[i as int] == ls@[i as int]@);
        let (name, rest) = match split_once(ls[i], 58u8) {
            Some(parts) => parts,
            None => {
                proof {
                    lemma_graph_of_prefix(all, i + 1, all.len() as int);
                }
                return None;
            },
        };
        let ghost bare = result@;
        let node = result.node(name);
        let held = result.names.len();
        proof {
            lemma_node_both_ways(bare, name@);
        }
        let others = words(rest);
        let ghost started = result@;
        let ghost other_names = words_of(rest@);
        let mut k: usize = 0;
        while k < others.len()
            invariant
                k <= others.len(),
                other_names == views(others@),
                result@ == with_wires(started, node as int, other_names, k as int),
                result@.wf(),
                both_ways(result@),
                node < result@.names.len(),
            decreases others.len() - k,
        {
            assert(other_names[k as int] == others@[k as int]@);
            let ghost bare = result@;
            let other = result.node(others[k]);
            let size = result.names.len();
            proof {
                lemma_node_both_ways(bare, others@[k as int]@);
                lemma_wire_both_ways(result@, node as int, other as int);
            }
            result.wire(node, other);
            k = k + 1;
        }
        i = i + 1;
    }
    Some(result)
}

/// Marks the components that wires lead to from `source`.
pub fn get_reachable(graph: &Graph, source: usize) -> (seen: Vec<bool>)
    requires
        graph@.wf(),
        source < graph@.names.len(),
    ensures
        seen@.len() == graph@.names.len(),
        forall|v: int| 0 <= v < seen@.len() ==> (#[trigger] seen@[v] <==> connected(graph@.successors, source, v as usize)),
{
    reachable_in(&graph.successors, source)
}

/// A cut of the components into two parts, and the number of wires it cuts.
pub struct MinCutInfo {
    pub min_cut_size: usize,
    pub partition_a: Vec<usize>,
    pub partition_b: Vec<usize>,
}

/// The number of components below `m` on the other side that `x` is wired
/// to, if `x` is on the marked side.
pub open spec fn row_cut(g: GraphView, side: Seq<bool>, x: int, m: int) -> nat
    decreases m,
{
    if m <= 0 {
        0
    } else if g.wired(x, m - 1) && side[x] && !side[m - 1] {
        row_cut(g, side, x, m - 1) + 1
    } else {
        row_cut(g, side, x, m - 1)
    }
}

/// The number of wired pairs `(x, y)` with `x` below `k` on the marked side
/// and `y` on the other.
pub open spec fn cut_upto(g: GraphView, side: Seq<bool>, k: int) -> nat
    decreases k,
{
    if k <= 0 {
        0
    } else {
        cut_upto(g, side, k - 1) + row_cut(g, side, k - 1, g.names.len() as int)
    }
}

/// The number of wires between the marked side and the other: the wired
/// pairs with the first component on the marked side and the second on the
/// other.
pub open spec fn cut_weight(g: GraphView, side: Seq<bool>) -> nat {
    cut_upto(g, side, g.names.len() as int)
}

/// The marks of the components that are in `part`, among `n` components.
pub open spec fn side_of(part: Seq<usize>, n: nat) -> Seq<bool> {
    Seq::new(n, |x: int| part.contains(x as usize))
}

/// For each pair of components, whether the first is wired to the second.
fn adjacency_matrix(graph: &Graph) -> (matrix: Vec<Vec<bool>>)
    requires
        graph@.wf(),
    ensures
        matrix@.len() == graph@.names.len(),
        forall|x: int|
            0 <= x < matrix@.len() ==> (#[trigger] matrix@[x])@.len() == graph@.names.len() && forall|y: int|
                0 <= y < graph@.names.len() ==> (#[trigger] matrix@[x]@[y] <==> graph@.wired(x, y)),
{
    let n = graph.successors.len();
    let ghost g = graph@;
    let mut matrix: Vec<Vec<bool>> = Vec::new();
    let mut x: usize = 0;
    while x < n
        invariant
            x <= n,
            n == graph@.names.len(),
            g == graph@,
            g.wf(),
            matrix@.len() == x,
            forall|a: int|
                0 <= a < x ==> (#[trigger] matrix@[a])@.len() == n && forall|y: int|
                    0 <= y < n ==> (#[trigger] matrix@[a]@[y] <==> g.wired(a, y)),
        decreases n - x,
    {
        let mut row: Vec<bool> = Vec::new();
        let mut y: usize = 0;
        while y < n
            invariant
                y <= n,
                row@.len() == y,
                forall|j: int| 0 <= j < y ==> !(#[trigger] row@[j]),
            decreases n - y,
        {
            row.push(false);
            y = y + 1;
        }
        let list = &graph.successors[x];
        assert(g.successors[x as int] == list@);
        let mut k: usize = 0;
        while k < list.len()
            invariant
                k <= list@.len(),
                x < n,
                n == g.names.len(),
                g.wf(),
                g.successors[x as int] == list@,
                row@.len() == n,
                forall|j: int| 0 <= j < n ==> (#[trigger] row@[j] <==> list@.take(k as int).contains(j as usize)),
            decreases list@.len() - k,
        {
            let target = list[k];
            assert(g.successors[x as int][k as int] < n);
            let ghost before = row@;
            row.set(target, true);
            proof {
                let longer = list@.take(k + 1);
                let shorter = list@.take(k as int);
                assert(longer =~= shorter.push(target));
                assert forall|j: int| 0 <= j < n implies (#[trigger] row@[j] <==> longer.contains(j as usize)) by {
                    if j == target {
                        assert(longer[k as int] == target);
                    } else {
                        if longer.contains(j as usize) {
                            let t = choose|t: int| 0 <= t < longer.len() && longer[t] == j as usize;
                            assert(shorter[t] == j as usize);
                        }
                        if shorter.contains(j as usize) {
                            let t = choose|t: int| 0 <= t < shorter.len() && shorter[t] == j as usize;
                            assert(longer[t] == j as usize);
                        }
                    }
                }
            }
            k = k + 1;
        }
        assert(list@.take(k as int) =~= list@);
        matrix.push(row);
        x = x + 1;
    }
    matrix
}

/// Counts the wires between the marked side and the other, as far as the
/// count fits in `usize`.
fn count_cut(matrix: &Vec<Vec<bool>>, side: &Vec<bool>, Ghost(g): Ghost<GraphView>) -> (r: Option<usize>)
    requires
        matrix@.len() == g.names.len(),
        side@.len() == g.names.len(),
        forall|x: int|
            0 <= x < matrix@.len() ==> (#[trigger] matrix@[x])@.len() == g.names.len() && forall|y: int|
                0 <= y < g.names.len() ==> (#[trigger] matrix@[x]@[y] <==> g.wired(x, y)),
    ensures
        r == (if cut_weight(g, side@) <= usize::MAX {
            Some(cut_weight(g, side@) as usize)
        } else {
            None
        }),
{
    let n = side.len();
    let mut count: usize = 0;
    let mut x: usize = 0;
    while x < n
        invariant
            x <= n,
            n == g.names.len(),
            matrix@.len() == n,
            side@.len() == n,
            forall|a: int|
                0 <= a < matrix@.len() ==> (#[trigger] matrix@[a])@.len() == n && forall|y: int|
                    0 <= y < n ==> (#[trigger] matrix@[a]@[y] <==> g.wired(a, y)),
            count == cut_upto(g, side@, x as int),
        decreases n - x,
    {
        let mut in_row: usize = 0;
        let mut y: usize = 0;
        while y < n
            invariant
                y <= n,
                x < n,
                n == g.names.len(),
                matrix@.len() == n,
                side@.len() == n,
                matrix@[x as int]@.len() == n,
                forall|j: int| 0 <= j < n ==> (#[trigger] matrix@[x as int]@[j] <==> g.wired(x as int, j)),
                in_row == row_cut(g, side@, x as int, y as int),
                in_row <= y,
            decreases n - y,
        {
            if matrix[x][y] && side[x] && !side[y] {
                in_row = in_row + 1;
            }
            y = y + 1;
        }
        count = match count.checked_add(in_row) {
            Some(sum) => sum,
            None => {
                proof {
                    lemma_cut_upto_grows(g, side@, x + 1, n as int);
                }
                return None;
            },
        };
        x = x + 1;
    }
    Some(count)
}

/// The wires counted up to a component are no more than those counted up
/// to a later one.
pub proof fn lemma_cut_upto_grows(g: GraphView, side: Seq<bool>, i: int, k: int)
    requires
        0 <= i <= k,
    ensures
        cut_upto(g, side, i) <= cut_upto(g, side, k),
    decreases k - i,
{
    if i < k {
        lemma_cut_upto_grows(g, side, i, k - 1);
    }
}

/// Whether the numbers come in ascending order, none of them twice.
pub open spec fn ascending(list: Seq<usize>) -> bool {
    forall|a: int, b: int| 0 <= a < b < list.len() ==> #[trigger] list[a] < #[trigger] list[b]
}

/// A list in ascending order holds no number twice.
pub proof fn lemma_ascending_distinct(list: Seq<usize>)
    requires
        ascending(list),
    ensures
        list.no_duplicates(),
{
    assert forall|a: int, b: int| 0 <= a < list.len() && 0 <= b < list.len() && a != b implies list[a] != list[b] by {
        if a < b {
            assert(list[a] < list[b]);
        } else {
            assert(list[b] < list[a]);
        }
    }
}

/// The components that are marked, and those that are not, each in
/// ascending order.
fn split_marks(marks: &Vec<bool>) -> (r: (Vec<usize>, Vec<usize>))
    ensures
        forall|x: usize| #[trigger] r.0@.contains(x) <==> x < marks@.len() && marks@[x as int],
        forall|x: usize| #[trigger] r.1@.contains(x) <==> x < marks@.len() && !marks@[x as int],
        ascending(r.0@),
        ascending(r.1@),
        r.0@.len() + r.1@.len() == marks@.len(),
{
    let mut marked: Vec<usize> = Vec::new();
    let mut others: Vec<usize> = Vec::new();
    let mut i: usize = 0;
    while i < marks.len()
        invariant
            i <= marks.len(),
            forall|x: usize| #[trigger] marked@.contains(x) <==> x < i && marks@[x as int],
            forall|x: usize| #[trigger] others@.contains(x) <==> x < i && !marks@[x as int],
            ascending(marked@),
            ascending(others@),
            marked@.len() + others@.len() == i,
            forall|k: int| 0 <= k < marked@.len() ==> #[trigger] marked@[k] < i,
            forall|k: int| 0 <= k < others@.len() ==> #[trigger] others@[k] < i,
        decreases marks.len() - i,
    {
        let ghost old_marked = marked@;
        let ghost old_others = others@;
        if marks[i] {
            marked.push(i);
            proof {
                assert forall|x: usize| #[trigger] marked@.contains(x) <==> x < i + 1 && marks@[x as int] by {
                    if old_marked.contains(x) {
                        let t = choose|t: int| 0 <= t < old_marked.len() && old_marked[t] == x;
                        assert(marked@[t] == x);
                    }
                    if x == i {
                        assert(marked@[marked@.len() - 1] == x);
                    }
                }
            }
        } else {
            others.push(i);
            proof {
                assert forall|x: usize| #[trigger] others@.contains(x) <==> x < i + 1 && !marks@[x as int] by {
                    if old_others.contains(x) {
                        let t = choose|t: int| 0 <= t < old_others.len() && old_others[t] == x;
                        assert(others@[t] == x);
                    }
                    if x == i {
                        assert(others@[others@.len() - 1] == x);
                    }
                }
            }
        }
        i = i + 1;
    }
    (marked, others)
}

/// The index of the first mark that is set from `i` on, or the number of
/// marks.
pub open spec fn first_set(alive: Seq<bool>, i: int) -> int
    decreases alive.len() - i,
{
    if i < 0 || i >= alive.len() {
        alive.len() as int
    } else if alive[i] {
        i
    } else {
        first_set(alive, i + 1)
    }
}

/// The first mark that is set from `i` on lies at or after `i`.
pub proof fn lemma_first_set_range(alive: Seq<bool>, i: int)
    requires
        0 <= i <= alive.len(),
    ensures
        i <= first_set(alive, i) <= alive.len(),
    decreases alive.len() - i,
{
    if i < alive.len() && !alive[i] {
        lemma_first_set_range(alive, i + 1);
    }
}

/// The first component that is still there.
fn first_alive(alive: &Vec<bool>) -> (r: Option<usize>)
    ensures
        r == (if first_set(alive@, 0) < alive@.len() {
            Some(first_set(alive@, 0) as usize)
        } else {
            None
        }),
        match r {
            Some(i) => i < alive@.len() && alive@[i as int] && forall|k: int| 0 <= k < i ==> !alive@[k],
            None => forall|k: int| 0 <= k < alive@.len() ==> !alive@[k],
        },
{
    let mut i: usize = 0;
    while i < alive.len()
        invariant
            i <= alive.len(),
            forall|k: int| 0 <= k < i ==> !alive@[k],
            first_set(alive@, 0) == first_set(alive@, i as int),
        decreases alive.len() - i,
    {
        if alive[i] {
            return Some(i);
        }
        i = i + 1;
    }
    None
}

/// The priorities after the weight of the wires from `u` to each of the
/// first `t` components that is still there, not yet taken up and wired to
/// `u` is put onto that component's priority; nothing when a sum does not
/// fit.
pub open spec fn raised(
    entries: Map<u64, u128>,
    weights: Seq<u128>,
    alive: Seq<bool>,
    in_a: Seq<bool>,
    u: int,
    t: int,
) -> Option<Map<u64, u128>>
    decreases t,
{
    let n = alive.len() as int;
    if t <= 0 {
        Some(entries)
    } else {
        match raised(entries, weights, alive, in_a, u, t - 1) {
            None => None,
            Some(m) => if alive[t - 1] && !in_a[t - 1] && weights[u * n + (t - 1)] > 0 {
                if m.contains_key((t - 1) as u64) {
                    if m[(t - 1) as u64] + weights[u * n + (t - 1)] <= u128::MAX {
                        Some(m.insert((t - 1) as u64, (m[(t - 1) as u64] + weights[u * n + (t - 1)]) as u128))
                    } else {
                        None
                    }
                } else {
                    Some(m.insert((t - 1) as u64, weights[u * n + (t - 1)]))
                }
            } else {
                Some(m)
            },
        }
    }
}

/// If the priorities cannot be raised for the first `i` components, they
/// cannot for the first `k`.
pub proof fn lemma_raised_prefix(
    entries: Map<u64, u128>,
    weights: Seq<u128>,
    alive: Seq<bool>,
    in_a: Seq<bool>,
    u: int,
    i: int,
    k: int,
)
    requires
        0 <= i <= k,
        raised(entries, weights, alive, in_a, u, i) is None,
    ensures
        raised(entries, weights, alive, in_a, u, k) is None,
    decreases k - i,
{
    if i < k {
        lemma_raised_prefix(entries, weights, alive, in_a, u, i, k - 1);
    }
}

/// Puts the weight of the wires from `u` to each component that is still
/// there and not yet taken up onto that component's priority.
fn add_weights(
    heap: &mut PriorityQueue<u64, u128, RandomState>,
    weights: &Vec<u128>,
    alive: &Vec<bool>,
    in_a: &Vec<bool>,
    u: usize,
) -> (ok: bool)
    requires
        alive@.len() * alive@.len() == weights@.len(),
        in_a@.len() == alive@.len(),
        u < alive@.len(),
        forall|k: u64| queue_entries(*old(heap)).contains_key(k) ==> k < alive@.len(),
    ensures
        forall|k: u64| queue_entries(*final(heap)).contains_key(k) ==> k < alive@.len(),
        match raised(queue_entries(*old(heap)), weights@, alive@, in_a@, u as int, alive@.len() as int) {
            Some(m) => ok && queue_entries(*final(heap)) == m,
            None => !ok,
        },
{
    let n = alive.len();
    let cells = weights.len();
    let ghost first = queue_entries(*heap);
    let mut t: usize = 0;
    while t < n
        invariant
            t <= n,
            n == alive@.len(),
            n * n == cells,
            cells == weights@.len(),
            in_a@.len() == n,
            u < n,
            first == queue_entries(*old(heap)),
            forall|k: u64| queue_entries(*heap).contains_key(k) ==> k < n,
            raised(first, weights@, alive@, in_a@, u as int, t as int) == Some(queue_entries(*heap)),
        decreases n - t,
    {
        proof {
            lemma_cell_bound(u as int, t as int, n as int, n as int);
            lemma_cell_bound(u as int, 0, n as int, n as int);
        }
        let weight = weights[u * n + t];
        if alive[t] && !in_a[t] && weight > 0 {
            match queue_get_priority(heap, t as u64) {
                Some(priority) => match priority.checked_add(weight) {
                    Some(sum) => {
                        queue_change_priority(heap, t as u64, sum);
                    },
                    None => {
                        proof {
                            lemma_raised_prefix(first, weights@, alive@, in_a@, u as int, t + 1, n as int);
                        }
                        return false;
                    },
                },
                None => {
                    queue_push(heap, t as u64, weight);
                },
            }
        }
        t = t + 1;
    }
    true
}

/// The weight of the wires to `t` from those of the first `m` components
/// that are marked in `side`.
pub open spec fn pull(weights: Seq<u128>, side: Seq<bool>, n: int, t: int, m: int) -> int
    decreases m,
{
    if m <= 0 {
        0
    } else if side[m - 1] {
        pull(weights, side, n, t, m - 1) + weights[(m - 1) * n + t]
    } else {
        pull(weights, side, n, t, m - 1)
    }
}

/// Marking one more component adds the weight of its wires to `t`.
pub proof fn lemma_pull_update(weights: Seq<u128>, side: Seq<bool>, n: int, t: int, m: int, u: int)
    requires
        0 <= u < side.len(),
        0 <= m <= side.len(),
        !side[u],
    ensures
        pull(weights, side.update(u, true), n, t, m) == pull(weights, side, n, t, m) + (if u < m {
            weights[u * n + t] as int
        } else {
            0
        }),
    decreases m,
{
    if m > 0 {
        lemma_pull_update(weights, side, n, t, m - 1, u);
    }
}

/// The components of a part pull no more than those of a part that holds
/// them all, and nothing pulls less than nothing.
pub proof fn lemma_pull_subset(weights: Seq<u128>, part: Seq<bool>, all: Seq<bool>, n: int, t: int, m: int)
    requires
        0 <= m <= part.len(),
        part.len() == all.len(),
        forall|k: int| 0 <= k < part.len() && part[k] ==> all[k],
    ensures
        0 <= pull(weights, part, n, t, m) <= pull(weights, all, n, t, m),
    decreases m,
{
    if m > 0 {
        lemma_pull_subset(weights, part, all, n, t, m - 1);
    }
}

/// No component marked pulls nothing.
pub proof fn lemma_pull_none(weights: Seq<u128>, side: Seq<bool>, n: int, t: int, m: int)
    requires
        0 <= m <= side.len(),
        forall|k: int| 0 <= k < side.len() ==> !side[k],
    ensures
        pull(weights, side, n, t, m) == 0,
    decreases m,
{
    if m > 0 {
        lemma_pull_none(weights, side, n, t, m - 1);
    }
}

/// A part of the marked components has no more marks than there are, and
/// fewer exactly when a marked component is missing from it.
pub proof fn lemma_missing(part: Seq<bool>, all: Seq<bool>, m: int)
    requires
        0 <= m <= part.len(),
        part.len() == all.len(),
        forall|k: int| 0 <= k < part.len() && part[k] ==> all[k],
    ensures
        0 <= count_set(part, m) <= count_set(all, m) <= m,
        count_set(part, m) < count_set(all, m) <==> exists|t: int| 0 <= t < m && all[t] && !part[t],
    decreases m,
{
    if m > 0 {
        lemma_missing(part, all, m - 1);
        if exists|t: int| 0 <= t < m - 1 && all[t] && !part[t] {
            let t = choose|t: int| 0 <= t < m - 1 && all[t] && !part[t];
            assert(0 <= t < m && all[t] && !part[t]);
        }
        if all[m - 1] && !part[m - 1] {
            assert(0 <= m - 1 < m && all[m - 1] && !part[m - 1]);
        }
        if exists|t: int| 0 <= t < m && all[t] && !part[t] {
            let t = choose|t: int| 0 <= t < m && all[t] && !part[t];
            if t < m - 1 {
                assert(0 <= t < m - 1 && all[t] && !part[t]);
            }
        }
    }
}

/// Marking a component that was not marked adds one to the count of the
/// marks, and taking a mark away takes one off.
pub proof fn lemma_count_changes(marks: Seq<bool>, u: int, m: int)
    requires
        0 <= u < marks.len(),
        0 <= m <= marks.len(),
    ensures
        count_set(marks.update(u, !marks[u]), m) == count_set(marks, m) + (if u < m {
            if marks[u] {
                -1int
            } else {
                1int
            }
        } else {
            0int
        }),
    decreases m,
{
    if m > 0 {
        lemma_count_changes(marks, u, m - 1);
    }
}

/// What the priority of the component `k` is due to be while the wires of
/// a component newly taken up are added: the pull of the components taken
/// up with the new one for the first `t` components, and without it for
/// the others.
pub open spec fn due(weights: Seq<u128>, before: Seq<bool>, after: Seq<bool>, k: int, t: int) -> int {
    if k < t {
        pull(weights, after, after.len() as int, k, after.len() as int)
    } else {
        pull(weights, before, before.len() as int, k, before.len() as int)
    }
}

/// Whether the queue holds exactly the components that are still there,
/// not taken up and pulled at, each with what its priority is due to be.
pub open spec fn drawn(
    entries: Map<u64, u128>,
    weights: Seq<u128>,
    alive: Seq<bool>,
    before: Seq<bool>,
    after: Seq<bool>,
    t: int,
) -> bool {
    &&& forall|key: u64| #[trigger]
        entries.contains_key(key) ==> key < alive.len() && alive[key as int] && !after[key as int] && entries[key] > 0
            && entries[key] == due(weights, before, after, key as int, t)
    &&& forall|k: int|
        0 <= k < alive.len() && alive[k] && !after[k] && #[trigger] due(weights, before, after, k, t) > 0
            ==> entries.contains_key(k as u64)
}

/// Adding the wires of a component newly taken up keeps the queue drawn,
/// and succeeds where every pull fits.
pub proof fn lemma_raise(
    entries: Map<u64, u128>,
    weights: Seq<u128>,
    alive: Seq<bool>,
    before: Seq<bool>,
    u: int,
    t: int,
)
    requires
        alive.len() <= usize::MAX,
        before.len() == alive.len(),
        0 <= u < alive.len(),
        !before[u],
        0 <= t <= alive.len(),
        drawn(entries, weights, alive, before, before.update(u, true), 0),
    ensures
        raised(entries, weights, alive, before.update(u, true), u, t) matches Some(m) ==> drawn(
            m,
            weights,
            alive,
            before,
            before.update(u, true),
            t,
        ),
        (forall|k: int|
            0 <= k < alive.len() && alive[k] ==> #[trigger] pull(
                weights,
                before.update(u, true),
                alive.len() as int,
                k,
                alive.len() as int,
            ) <= u128::MAX) ==> raised(entries, weights, alive, before.update(u, true), u, t) is Some,
    decreases t,
{
    let after = before.update(u, true);
    let n = alive.len() as int;
    if t > 0 {
        lemma_raise(entries, weights, alive, before, u, t - 1);
        let k = t - 1;
        match raised(entries, weights, alive, after, u, t - 1) {
            None => {},
            Some(prev) => {
                lemma_pull_update(weights, before, n, k, n, u);
                lemma_pull_subset(weights, before, before, n, k, n);
                assert(due(weights, before, after, k, t) == due(weights, before, after, k, t - 1) + weights[u * n + k]);
                assert forall|j: int| 0 <= j < n && j != k implies due(weights, before, after, j, t) == due(
                    weights,
                    before,
                    after,
                    j,
                    t - 1,
                ) by {}
                match raised(entries, weights, alive, after, u, t) {
                    None => {},
                    Some(m) => {
                        assert forall|key: u64| #[trigger] m.contains_key(key) implies key < alive.len()
                            && alive[key as int] && !after[key as int] && m[key] > 0 && m[key] == due(
                            weights,
                            before,
                            after,
                            key as int,
                            t,
                        ) by {
                            if key as int != k {
                                assert(prev.contains_key(key));
                            } else if !(alive[k] && !after[k] && weights[u * n + k] > 0) {
                                assert(prev.contains_key(key));
                            } else if !prev.contains_key(key) {
                                assert(due(weights, before, after, k, t - 1) == 0);
                            }
                        }
                        assert forall|j: int|
                            0 <= j < alive.len() && alive[j] && !after[j] && #[trigger] due(
                                weights,
                                before,
                                after,
                                j,
                                t,
                            ) > 0 implies m.contains_key(j as u64) by {
                            if j != k {
                                assert(due(weights, before, after, j, t - 1) > 0);
                                assert(prev.contains_key(j as u64));
                            } else if weights[u * n + k] == 0 {
                                assert(due(weights, before, after, j, t - 1) > 0);
                                assert(prev.contains_key(j as u64));
                            }
                        }
                    },
                }
            },
        }
    }
}

/// Whether the components that are there hang together: whatever part of
/// them is taken up with `start`, short of all, pulls at another.
pub open spec fn hangs_together(weights: Seq<u128>, alive: Seq<bool>, start: int) -> bool {
    forall|part: Seq<bool>| #[trigger]
        proper(alive, part, start) ==> exists|t: int|
            0 <= t < alive.len() && alive[t] && !part[t] && pull(
                weights,
                part,
                alive.len() as int,
                t,
                alive.len() as int,
            ) > 0
}

/// Whether `part` holds `start` and only components that are there, but
/// not all of them.
pub open spec fn proper(alive: Seq<bool>, part: Seq<bool>, start: int) -> bool {
    &&& part.len() == alive.len()
    &&& 0 <= start < part.len() && part[start]
    &&& forall|k: int| 0 <= k < part.len() && part[k] ==> alive[k]
    &&& exists|k: int| 0 <= k < part.len() && alive[k] && !part[k]
}

/// Whether the wires to each component that is there from all that are
/// there weigh no more than `u128` holds.
pub open spec fn sums_fit(weights: Seq<u128>, alive: Seq<bool>) -> bool {
    forall|t: int|
        0 <= t < alive.len() && alive[t] ==> #[trigger] pull(weights, alive, alive.len() as int, t, alive.len() as int)
            <= u128::MAX
}

/// Once the wires of the component newly taken up are added for all
/// components, the queue is drawn for the components taken up with it.
pub proof fn lemma_drawn_settled(
    entries: Map<u64, u128>,
    weights: Seq<u128>,
    alive: Seq<bool>,
    before: Seq<bool>,
    after: Seq<bool>,
)
    requires
        before.len() == alive.len(),
        after.len() == alive.len(),
        drawn(entries, weights, alive, before, after, alive.len() as int),
    ensures
        drawn(entries, weights, alive, after, after, 0),
{
    let n = alive.len() as int;
    assert forall|key: u64| #[trigger] entries.contains_key(key) implies key < alive.len() && alive[key as int]
        && !after[key as int] && entries[key] > 0 && entries[key] == due(weights, after, after, key as int, 0) by {
        assert(entries[key] == due(weights, before, after, key as int, n));
    }
    assert forall|k: int|
        0 <= k < alive.len() && alive[k] && !after[k] && #[trigger] due(weights, after, after, k, 0)
            > 0 implies entries.contains_key(k as u64) by {
        assert(due(weights, before, after, k, n) > 0);
    }
}

/// Marks that are all alike count as none, or as many as there are.
pub proof fn lemma_count_all(marks: Seq<bool>, m: int, value: bool)
    requires
        0 <= m <= marks.len(),
        forall|k: int| 0 <= k < marks.len() ==> marks[k] == value,
    ensures
        count_set(marks, m) == (if value {
            m
        } else {
            0
        }),
    decreases m,
{
    if m > 0 {
        lemma_count_all(marks, m - 1, value);
    }
}

/// Where the components hang together and the sums fit, a queue that is
/// drawn holds a component as long as one is not taken up.
pub proof fn lemma_queue_holds(
    entries: Map<u64, u128>,
    weights: Seq<u128>,
    alive: Seq<bool>,
    in_a: Seq<bool>,
    start: int,
)
    requires
        hangs_together(weights, alive, start),
        in_a.len() == alive.len(),
        0 <= start < in_a.len(),
        in_a[start],
        forall|k: int| 0 <= k < in_a.len() && in_a[k] ==> alive[k],
        count_set(in_a, in_a.len() as int) < count_set(alive, alive.len() as int),
        drawn(entries, weights, alive, in_a, in_a, 0),
    ensures
        entries.dom() != Set::<u64>::empty(),
{
    lemma_missing(in_a, alive, in_a.len() as int);
    assert(proper(alive, in_a, start));
    let t = choose|t: int|
        0 <= t < alive.len() && alive[t] && !in_a[t] && pull(weights, in_a, alive.len() as int, t, alive.len() as int)
            > 0;
    assert(due(weights, in_a, in_a, t, 0) > 0);
    assert(entries.contains_key(t as u64));
    assert(entries.dom().contains(t as u64));
}

/// Where the sums fit, so does the pull of every part of the components
/// that are there.
pub proof fn lemma_part_fits(weights: Seq<u128>, alive: Seq<bool>, part: Seq<bool>)
    requires
        sums_fit(weights, alive),
        part.len() == alive.len(),
        forall|k: int| 0 <= k < part.len() && part[k] ==> alive[k],
    ensures
        forall|k: int|
            0 <= k < alive.len() && alive[k] ==> #[trigger] pull(weights, part, alive.len() as int, k, alive.len() as int)
                <= u128::MAX,
{
    assert forall|k: int| 0 <= k < alive.len() && alive[k] implies #[trigger] pull(
        weights,
        part,
        alive.len() as int,
        k,
        alive.len() as int,
    ) <= u128::MAX by {
        lemma_pull_subset(weights, part, alive, alive.len() as int, k, alive.len() as int);
        assert(pull(weights, alive, alive.len() as int, k, alive.len() as int) <= u128::MAX);
    }
}

/// One phase: takes the components up one after the other, from `start`,
/// always one of those wired most strongly to the ones already taken up,
/// and returns the last two with the weight of the wires from all others to
/// the last. `count` is the number of components that are there.
///
/// The phase succeeds where the components hang together and the sums fit;
/// it fails when no component is left that is wired to those taken up.
fn min_cut_phase(weights: &Vec<u128>, alive: &Vec<bool>, start: usize, count: usize) -> (found: (
    Option<(usize, usize, u128)>,
    Ghost<(Seq<usize>, Seq<Seq<bool>>)>,
))
    requires
        alive@.len() * alive@.len() == weights@.len(),
        start < alive@.len(),
        alive@[start as int],
        count >= 2,
        count == count_set(alive@, alive@.len() as int),
    ensures
        found.0 matches Some((u, v, w)) ==> {
            &&& u < alive@.len() && v < alive@.len() && u != v && v != start
            &&& alive@[u as int] && alive@[v as int]
            &&& w > 0
            &&& w == pull(weights@, alive@.update(v as int, false), alive@.len() as int, v as int, alive@.len() as int)
            &&& adjacency_order(weights@, alive@, found.1@.0, found.1@.1)
            &&& found.1@.0[found.1@.0.len() - 2] == u
            &&& found.1@.0[found.1@.0.len() - 1] == v
            &&& found.1@.1[found.1@.0.len() - 1] == alive@.update(v as int, false)
        },
        hangs_together(weights@, alive@, start as int) && sums_fit(weights@, alive@) ==> found.0 is Some,
{
    let n = alive.len();
    let mut in_a: Vec<bool> = Vec::new();
    let mut a: usize = 0;
    while a < n
        invariant
            a <= n,
            in_a@.len() == a,
            forall|k: int| 0 <= k < a ==> !in_a@[k],
        decreases n - a,
    {
        in_a.push(false);
        a = a + 1;
    }
    let ghost none = in_a@;
    in_a.set(start, true);
    let mut heap = queue_new();
    let ghost empty = queue_entries(heap);
    proof {
        assert forall|k: int| 0 <= k < n implies due(weights@, none, in_a@, k, 0) == 0 by {
            lemma_pull_none(weights@, none, n as int, k, n as int);
        }
        assert(drawn(empty, weights@, alive@, none, in_a@, 0));
        lemma_raise(empty, weights@, alive@, none, start as int, n as int);
        lemma_count_all(none, n as int, false);
        lemma_count_changes(none, start as int, n as int);
        if sums_fit(weights@, alive@) {
            lemma_part_fits(weights@, alive@, in_a@);
        }
    }
    let ghost mut order: Seq<usize> = seq![start];
    let ghost mut stages: Seq<Seq<bool>> = seq![none, in_a@];
    proof {
        assert(order_so_far(weights@, alive@, order, stages));
    }
    if !add_weights(&mut heap, weights, alive, &in_a, start) {
        return (None, Ghost((order, stages)));
    }
    let mut u: usize = start;
    let mut taken: usize = 0;
    proof {
        lemma_drawn_settled(queue_entries(heap), weights@, alive@, none, in_a@);
    }
    while taken < count - 2
        invariant
            taken <= count - 2,
            n == alive@.len(),
            n * n == weights@.len(),
            in_a@.len() == n,
            u < n,
            start < n,
            in_a@[u as int],
            in_a@[start as int],
            alive@[u as int],
            u != start ==> taken > 0,
            forall|k: int| 0 <= k < n && in_a@[k] ==> alive@[k],
            count == count_set(alive@, n as int),
            count_set(in_a@, n as int) == taken + 1,
            drawn(queue_entries(heap), weights@, alive@, in_a@, in_a@, 0),
            order_so_far(weights@, alive@, order, stages),
            order.len() == taken + 1,
            order[taken as int] == u,
            stages[taken + 1] == in_a@,
        decreases count - 2 - taken,
    {
        let ghost waiting = queue_entries(heap);
        let ghost before = in_a@;
        let item = match queue_pop(&mut heap) {
            Some((item, _)) => item,
            None => {
                proof {
                    if hangs_together(weights@, alive@, start as int) && sums_fit(weights@, alive@) {
                        lemma_queue_holds(waiting, weights@, alive@, before, start as int);
                    }
                }
                return (None, Ghost((order, stages)));
            },
        };
        assert(waiting.contains_key(item));
        u = item as usize;
        proof {
            assert forall|t: int| 0 <= t < n && alive@[t] && !before[t] implies #[trigger] pull(
                weights@,
                before,
                n as int,
                t,
                n as int,
            ) <= pull(weights@, before, n as int, u as int, n as int) by {
                lemma_pull_subset(weights@, before, before, n as int, t, n as int);
                if due(weights@, before, before, t, 0) > 0 {
                    assert(waiting.contains_key(t as u64));
                    assert(waiting[t as u64] <= waiting[item]);
                }
                assert(waiting[item] == due(weights@, before, before, u as int, 0));
            }
            lemma_order_next(weights@, alive@, order, stages, u);
            order = order.push(u);
            stages = stages.push(before.update(u as int, true));
        }
        in_a.set(u, true);
        let ghost left = queue_entries(heap);
        proof {
            assert(in_a@ == before.update(u as int, true));
            assert forall|key: u64| #[trigger] left.contains_key(key) implies key < alive@.len() && alive@[key as int]
                && !in_a@[key as int] && left[key] > 0 && left[key] == due(weights@, before, in_a@, key as int, 0) by {
                assert(waiting.contains_key(key));
            }
            assert forall|k: int|
                0 <= k < alive@.len() && alive@[k] && !in_a@[k] && #[trigger] due(weights@, before, in_a@, k, 0)
                    > 0 implies left.contains_key(k as u64) by {
                assert(due(weights@, before, before, k, 0) > 0);
                assert(waiting.contains_key(k as u64));
            }
            assert(drawn(left, weights@, alive@, before, in_a@, 0));
            lemma_raise(left, weights@, alive@, before, u as int, n as int);
            lemma_count_changes(before, u as int, n as int);
            if sums_fit(weights@, alive@) {
                lemma_part_fits(weights@, alive@, in_a@);
            }
        }
        if !add_weights(&mut heap, weights, alive, &in_a, u) {
            return (None, Ghost((order, stages)));
        }
        proof {
            lemma_drawn_settled(queue_entries(heap), weights@, alive@, before, in_a@);
        }
        taken = taken + 1;
    }
    let ghost waiting = queue_entries(heap);
    let (last, w) = match queue_pop(&mut heap) {
        Some(top) => top,
        None => {
            proof {
                if hangs_together(weights@, alive@, start as int) && sums_fit(weights@, alive@) {
                    lemma_queue_holds(waiting, weights@, alive@, in_a@, start as int);
                }
            }
            return (None, Ghost((order, stages)));
        },
    };
    let v = last as usize;
    proof {
        assert(waiting.contains_key(last));
        assert(w == due(weights@, in_a@, in_a@, v as int, 0));
        let full = in_a@.update(v as int, true);
        lemma_count_changes(in_a@, v as int, n as int);
        lemma_missing(full, alive@, n as int);
        assert forall|t: int| 0 <= t < n implies in_a@[t] == alive@.update(v as int, false)[t] by {
            if t != v && alive@[t] && !in_a@[t] {
                assert(0 <= t < n && alive@[t] && !full[t]);
            }
        }
        assert(in_a@ =~= alive@.update(v as int, false));
        assert forall|t: int| 0 <= t < n && alive@[t] && !in_a@[t] implies #[trigger] pull(
            weights@,
            in_a@,
            n as int,
            t,
            n as int,
        ) <= pull(weights@, in_a@, n as int, v as int, n as int) by {
            assert(t == v);
        }
        lemma_order_next(weights@, alive@, order, stages, v);
        order = order.push(v);
        stages = stages.push(in_a@.update(v as int, true));
        assert(in_a@.update(v as int, true) =~= alive@);
    }
    (Some((u, v, w)), Ghost((order, stages)))
}

/// The weights after the wires of `v` to the first `s` components are added
/// to those of `u`, both ways, for the components that are still there and
/// neither `u` nor `v`; nothing when a sum does not fit.
pub open spec fn merged_upto(weights: Seq<u128>, alive: Seq<bool>, u: int, v: int, s: int) -> Option<Seq<u128>>
    decreases s,
{
    let n = alive.len() as int;
    if s <= 0 {
        Some(weights)
    } else {
        match merged_upto(weights, alive, u, v, s - 1) {
            None => None,
            Some(ws) => if alive[s - 1] && s - 1 != u && s - 1 != v {
                if ws[u * n + (s - 1)] + ws[v * n + (s - 1)] <= u128::MAX {
                    Some(
                        ws.update(u * n + (s - 1), (ws[u * n + (s - 1)] + ws[v * n + (s - 1)]) as u128).update(
                            (s - 1) * n + u,
                            (ws[u * n + (s - 1)] + ws[v * n + (s - 1)]) as u128,
                        ),
                    )
                } else {
                    None
                }
            } else {
                Some(ws)
            },
        }
    }
}

/// If the wires to the first `i` components cannot be merged, neither can
/// those to the first `k`.
pub proof fn lemma_merged_upto_prefix(weights: Seq<u128>, alive: Seq<bool>, u: int, v: int, i: int, k: int)
    requires
        0 <= i <= k,
        merged_upto(weights, alive, u, v, i) is None,
    ensures
        merged_upto(weights, alive, u, v, k) is None,
    decreases k - i,
{
    if i < k {
        lemma_merged_upto_prefix(weights, alive, u, v, i, k - 1);
    }
}

/// Merges the component `v` into `u`: the wires of `v` become wires of `u`,
/// and `v` is no longer there. When a sum does not fit, `v` stays.
fn contract(weights: &mut Vec<u128>, alive: &mut Vec<bool>, u: usize, v: usize) -> (ok: bool)
    requires
        old(alive)@.len() * old(alive)@.len() == old(weights)@.len(),
        u < old(alive)@.len(),
        v < old(alive)@.len(),
    ensures
        final(alive)@.len() == old(alive)@.len(),
        final(weights)@.len() == old(weights)@.len(),
        match merged_upto(old(weights)@, old(alive)@, u as int, v as int, old(alive)@.len() as int) {
            Some(ws) => ok && final(weights)@ == ws && final(alive)@ == old(alive)@.update(v as int, false),
            None => !ok && final(alive)@ == old(alive)@,
        },
{
    let n = alive.len();
    let cells = weights.len();
    let ghost first = weights@;
    let mut s: usize = 0;
    while s < n
        invariant
            s <= n,
            n == alive@.len(),
            alive@ == old(alive)@,
            first == old(weights)@,
            weights@.len() == old(weights)@.len(),
            n * n == cells,
            cells == weights@.len(),
            u < n,
            v < n,
            merged_upto(first, alive@, u as int, v as int, s as int) == Some(weights@),
        decreases n - s,
    {
        if alive[s] && s != u && s != v {
            proof {
                lemma_cell_bound(u as int, s as int, n as int, n as int);
                lemma_cell_bound(v as int, s as int, n as int, n as int);
                lemma_cell_bound(s as int, u as int, n as int, n as int);
                lemma_cell_bound(u as int, 0, n as int, n as int);
                lemma_cell_bound(v as int, 0, n as int, n as int);
                lemma_cell_bound(s as int, 0, n as int, n as int);
            }
            let combined = match weights[u * n + s].checked_add(weights[v * n + s]) {
                Some(sum) => sum,
                None => {
                    proof {
                        lemma_merged_upto_prefix(first, alive@, u as int, v as int, s + 1, n as int);
                    }
                    return false;
                },
            };
            weights.set(u * n + s, combined);
            weights.set(s * n + u, combined);
        }
        s = s + 1;
    }
    alive.set(v, false);
    true
}

/// The weights at the outset, row by row: 1 for a wire from the row's
/// component to the column's, 0 where there is none.
pub open spec fn wire_weights(g: GraphView) -> Seq<u128> {
    Seq::new(
        g.names.len() * g.names.len(),
        |cell: int|
            if g.wired(cell / (g.names.len() as int), cell % (g.names.len() as int)) {
                1u128
            } else {
                0u128
            },
    )
}

/// The marks of `n` components that are all there.
pub open spec fn all_there(n: nat) -> Seq<bool> {
    Seq::new(n, |x: int| true)
}

/// Whether `phases` more phases are sure to go through: the components
/// that are there hang together and the sums fit, and if a phase is to
/// follow, then whichever two components this one merges, the sums fit
/// and the same holds of what is left.
pub open spec fn settles(weights: Seq<u128>, alive: Seq<bool>, phases: nat) -> bool
    decreases phases,
{
    phases == 0 || {
        &&& hangs_together(weights, alive, first_set(alive, 0))
        &&& sums_fit(weights, alive)
        &&& phases >= 2 ==> forall|u: int, v: int|
            #![trigger merged_upto(weights, alive, u, v, alive.len() as int)]
            0 <= u < alive.len() && 0 <= v < alive.len() && u != v && alive[u] && alive[v] ==> match merged_upto(
                weights,
                alive,
                u,
                v,
                alive.len() as int,
            ) {
                Some(merged) => settles(merged, alive.update(v, false), (phases - 1) as nat),
                None => false,
            }
    }
}

/// Every component as its own owner.
pub open spec fn own_start(n: nat) -> Seq<usize> {
    Seq::new(n, |x: int| x as usize)
}

/// The owners after `v` is merged into `u`: what `v` owned, `u` owns.
pub open spec fn moved_owner(owner: Seq<usize>, u: usize, v: usize) -> Seq<usize> {
    Seq::new(
        owner.len(),
        |x: int|
            if owner[x] == v {
                u
            } else {
                owner[x]
            },
    )
}

/// The marks of the components that `v` owns.
pub open spec fn owned_by(owner: Seq<usize>, v: usize) -> Seq<bool> {
    Seq::new(owner.len(), |x: int| owner[x] == v)
}

/// Whether every link joins components of one owner.
pub open spec fn links_owned(lists: Seq<Seq<usize>>, owner: Seq<usize>) -> bool {
    forall|x: int, k: int|
        0 <= x < lists.len() && 0 <= k < lists[x].len() ==> (#[trigger] lists[x][k]) < owner.len() && owner[lists[x][k] as int]
            == owner[x]
}

/// Where every link joins components of one owner, links lead only to
/// components of the owner of the component they start from.
pub proof fn lemma_links_stay(lists: Seq<Seq<usize>>, owner: Seq<usize>, a: usize, b: usize)
    requires
        lists.len() == owner.len(),
        a < owner.len(),
        links_owned(lists, owner),
        connected(lists, a, b),
    ensures
        b < owner.len(),
        owner[b as int] == owner[a as int],
{
    let path = choose|path: Seq<usize>| #[trigger] follows_edges(lists, path) && path[0] == a && path.last() == b;
    let marks = owned_by(owner, owner[a as int]);
    lemma_closed_holds_path(lists, marks, path, path.len() - 1);
}

/// No more wires are cut than there are pairs of components.
pub proof fn lemma_cut_bound(g: GraphView, side: Seq<bool>, k: int)
    requires
        0 <= k,
    ensures
        cut_upto(g, side, k) <= k * g.names.len(),
    decreases k,
{
    if k > 0 {
        lemma_cut_bound(g, side, k - 1);
        lemma_row_cut_bound(g, side, k - 1, g.names.len() as int);
        assert(k * g.names.len() == (k - 1) * g.names.len() + g.names.len()) by (nonlinear_arith);
    } else {
        assert(0 * g.names.len() == 0) by (nonlinear_arith);
    }
}

/// No more wires of a component are cut than there are components.
pub proof fn lemma_row_cut_bound(g: GraphView, side: Seq<bool>, x: int, m: int)
    requires
        0 <= m,
    ensures
        row_cut(g, side, x, m) <= m,
    decreases m,
{
    if m > 0 {
        lemma_row_cut_bound(g, side, x, m - 1);
    }
}

/// Looks for a cut of the components into two parts through as few wires as
/// possible, by merging the two components that a phase takes up last until
/// only two are left, and keeping the lightest cut that a phase ends with.
///
/// The cut that is returned has two parts that are not empty, each in
/// ascending order, and its size is the number of wires between them,
/// counted at the end. Where every wire leads both ways, no cut into two
/// parts that are not empty goes through fewer wires. Nothing is returned
/// for fewer than two components, when a phase finds the components that
/// are left not hanging together, or when a number does not fit; a cut is
/// returned for two components or more whose wires lead both ways and join
/// them all, if the square of their number fits in `usize`.
pub fn stoer_wagner(graph: &Graph) -> (r: Option<MinCutInfo>)
    requires
        graph@.wf(),
    ensures
        r matches Some(info) ==> {
            &&& info.partition_a@.len() > 0
            &&& info.partition_b@.len() > 0
            &&& forall|x: usize|
                x < graph@.names.len() ==> (#[trigger] info.partition_a@.contains(x)
                    <==> !info.partition_b@.contains(x))
            &&& forall|x: usize| #[trigger] info.partition_a@.contains(x) ==> x < graph@.names.len()
            &&& forall|x: usize| #[trigger] info.partition_b@.contains(x) ==> x < graph@.names.len()
            &&& info.min_cut_size == cut_weight(graph@, side_of(info.partition_a@, graph@.names.len()))
            &&& ascending(info.partition_a@) && info.partition_a@.no_duplicates()
            &&& ascending(info.partition_b@) && info.partition_b@.no_duplicates()
            &&& info.partition_a@.len() + info.partition_b@.len() == graph@.names.len()
        },
        graph@.names.len() < 2 ==> r is None,
        graph@.names.len() >= 2 && graph@.names.len() * graph@.names.len() <= usize::MAX && settles(
            wire_weights(graph@),
            all_there(graph@.names.len()),
            (graph@.names.len() - 1) as nat,
        ) ==> r is Some,
        graph@.names.len() >= 2 && graph@.names.len() * graph@.names.len() <= usize::MAX && both_ways(graph@)
            && all_joined(graph@) ==> r is Some,
        r is Some && both_ways(graph@) ==> forall|side: Seq<bool>|
            side.len() == graph@.names.len() && #[trigger] two_sided(side) ==> r.unwrap().min_cut_size <= cut_weight(
                graph@,
                side,
            ),
{
    proof {
        if graph@.names.len() * graph@.names.len() <= usize::MAX && both_ways(graph@) && all_joined(graph@) {
            lemma_joined_settles(graph@);
        }
    }
    let n = graph.names.len();
    if n < 2 {
        return None;
    }
    let cells = n.checked_mul(n)?;
    let ghost promised = settles(wire_weights(graph@), all_there(n as nat), (n - 1) as nat);
    let matrix = adjacency_matrix(graph);
    let mut weights: Vec<u128> = Vec::new();
    let mut x: usize = 0;
    while x < n
        invariant
            x <= n,
            n == graph@.names.len(),
            cells == n * n,
            matrix@.len() == n,
            forall|a: int|
                0 <= a < n ==> (#[trigger] matrix@[a])@.len() == n && forall|y: int|
                    0 <= y < n ==> (#[trigger] matrix@[a]@[y] <==> graph@.wired(a, y)),
            weights@.len() == x * n,
            forall|c: int| 0 <= c < weights@.len() ==> #[trigger] weights@[c] == wire_weights(graph@)[c],
        decreases n - x,
    {
        let mut y: usize = 0;
        while y < n
            invariant
                y <= n,
                x < n,
                n == graph@.names.len(),
                cells == n * n,
                matrix@.len() == n,
                matrix@[x as int]@.len() == n,
                forall|j: int| 0 <= j < n ==> (#[trigger] matrix@[x as int]@[j] <==> graph@.wired(x as int, j)),
                weights@.len() == x * n + y,
                forall|c: int| 0 <= c < weights@.len() ==> #[trigger] weights@[c] == wire_weights(graph@)[c],
            decreases n - y,
        {
            proof {
                vstd::arithmetic::div_mod::lemma_fundamental_div_mod_converse(
                    x * n + y,
                    n as int,
                    x as int,
                    y as int,
                );
                lemma_cell_bound(x as int, y as int, n as int, n as int);
            }
            weights.push(if matrix[x][y] { 1 } else { 0 });
            y = y + 1;
        }
        assert((x + 1) * n == x * n + n) by (nonlinear_arith);
        x = x + 1;
    }
    let mut alive: Vec<bool> = Vec::new();
    let mut a: usize = 0;
    while a < n
        invariant
            a <= n,
            alive@.len() == a,
            forall|k: int| 0 <= k < a ==> alive@[k],
        decreases n - a,
    {
        alive.push(true);
        a = a + 1;
    }
    proof {
        lemma_count_all(alive@, n as int, true);
        assert(weights@ =~= wire_weights(graph@));
        assert(alive@ =~= all_there(n as nat));
    }
    let mut min_cut_size: u128 = u128::MAX;
    let mut contractions: Vec<(usize, usize)> = Vec::new();
    let mut best_phase: usize = 0;
    let mut i: usize = 0;
    let ghost mut owners: Seq<Seq<usize>> = seq![own_start(n as nat)];
    let ghost mut best_side: Seq<bool> = Seq::empty();
    let ghost mut last_rep: usize = 0;
    proof {
        assert(owner_sound(own_start(n as nat), alive@));
        if both_ways(graph@) {
            lemma_known_start(graph@, u128::MAX as int);
        }
    }
    while i < n - 1
        invariant
            i <= n - 1,
            n >= 2,
            i == 0 ==> min_cut_size == u128::MAX,
            owners.len() == i + 1,
            owners[0] == own_start(n as nat),
            forall|k: int|
                0 <= k < i ==> #[trigger] owners[k + 1] == moved_owner(
                    owners[k],
                    contractions@[k].0,
                    contractions@[k].1,
                ),
            forall|k: int| 0 <= k <= i ==> (#[trigger] owners[k]).len() == n,
            i < n - 1 ==> owner_sound(owners[i as int], alive@),
            both_ways(graph@) && i < n - 1 ==> cuts_known(graph@, weights@, alive@, owners[i as int]),
            both_ways(graph@) ==> light(graph@, owners[i as int], min_cut_size as int),
            both_ways(graph@) && i > 0 ==> cut_weight(graph@, best_side) == min_cut_size && best_side == owned_by(
                owners[best_phase as int],
                contractions@[best_phase as int].1,
            ),
            i == n - 1 ==> last_rep < n && forall|x: int| 0 <= x < n ==> owners[i as int][x] == last_rep,
            alive@.len() == n,
            weights@.len() == n * n,
            contractions@.len() == i,
            best_phase < n,
            i == 0 ==> best_phase == 0,
            i > 0 ==> best_phase < i,
            forall|k: int| 0 <= k < i ==> (#[trigger] contractions@[k]).0 < n && contractions@[k].1 < n,
            i < n - 1 ==> count_set(alive@, n as int) == n - i,
            n == graph@.names.len(),
            promised == settles(wire_weights(graph@), all_there(n as nat), (n - 1) as nat),
            both_ways(graph@) && all_joined(graph@) ==> promised,
            promised ==> settles(weights@, alive@, (n - 1 - i) as nat),
            forall|j: int| 0 <= j < i && j < n - 2 ==> !alive@[(#[trigger] contractions@[j]).1 as int],
            forall|j: int| 0 <= j < i ==> (#[trigger] contractions@[j]).0 != contractions@[j].1,
            forall|j: int, k: int|
                0 <= j < k < i ==> (#[trigger] contractions@[j]).1 != (#[trigger] contractions@[k]).0
                    && contractions@[j].1 != contractions@[k].1,
        decreases n - 1 - i,
    {
        let start = match first_alive(&alive) {
            Some(start) => start,
            None => {
                proof {
                    lemma_count_all(alive@, n as int, false);
                }
                return None;
            },
        };
        proof {
            if promised {
                assert(settles(weights@, alive@, (n - 1 - i) as nat));
                lemma_first_set_range(alive@, 0);
                assert(start == first_set(alive@, 0));
                assert(hangs_together(weights@, alive@, start as int));
                assert(sums_fit(weights@, alive@));
            }
        }
        let (found, Ghost(taken_up)) = min_cut_phase(&weights, &alive, start, n - i);
        let (u, v, w) = found?;
        proof {
            lemma_count_changes(alive@, v as int, n as int);
        }
        let ghost weights_then = weights@;
        let ghost alive_then = alive@;
        let ghost owner = owners[i as int];
        let ghost moved = moved_owner(owner, u, v);
        proof {
            if both_ways(graph@) {
                lemma_known_cut(graph@, weights@, alive@, owner, v);
                assert(cut_weight(graph@, owned_by(owner, v)) == w);
                let lighter = if w < min_cut_size {
                    w as int
                } else {
                    min_cut_size as int
                };
                lemma_light_phase(
                    graph@,
                    weights@,
                    alive@,
                    owner,
                    min_cut_size as int,
                    taken_up.0,
                    taken_up.1,
                    lighter,
                );
            }
            if w < min_cut_size || i == 0 {
                best_side = owned_by(owner, v);
            }
            if both_ways(graph@) {
                assert(w < min_cut_size || i == 0 ==> cut_weight(graph@, best_side) == w);
                assert(!(w < min_cut_size) && i > 0 ==> cut_weight(graph@, best_side) == min_cut_size);
            }
        }
        if w < min_cut_size {
            min_cut_size = w;
            best_phase = i;
        }
        let ghost owners_then = owners;
        let ghost pairs_then = contractions@;
        contractions.push((u, v));
        proof {
            owners = owners.push(moved);
            assert(owners[i as int] == owner);
            assert(contractions@[i as int] == (u, v));
            if best_phase < i {
                assert(owners[best_phase as int] == owners_then[best_phase as int]);
                assert(contractions@[best_phase as int] == pairs_then[best_phase as int]);
            }
            if both_ways(graph@) {
                assert(cut_weight(graph@, best_side) == min_cut_size);
                assert(best_side == owned_by(owners[best_phase as int], contractions@[best_phase as int].1));
            }
            if i < n - 2 {
                lemma_owner_moved(owner, alive_then, u, v);
            } else {
                lemma_only_two(alive_then, u as int, v as int);
                lemma_owner_last(owner, alive_then, u, v);
                last_rep = u;
            }
        }
        if i < n - 2 {
            proof {
                if promised {
                    assert(settles(weights_then, alive_then, (n - 1 - i) as nat));
                    assert((n - 1 - i) as nat >= 2);
                    assert(merged_upto(weights_then, alive_then, u as int, v as int, alive_then.len() as int) is Some);
                    assert(settles(
                        merged_upto(weights_then, alive_then, u as int, v as int, n as int).unwrap(),
                        alive_then.update(v as int, false),
                        ((n - 1 - i) as nat - 1) as nat,
                    ));
                }
            }
            if !contract(&mut weights, &mut alive, u, v) {
                return None;
            }
            proof {
                if both_ways(graph@) {
                    lemma_merged_cells(weights_then, alive_then, u as int, v as int, n as int);
                    assert(merged_as(weights@, weights_then, alive_then, u as int, v as int));
                    lemma_known_merge(graph@, weights_then, alive_then, owner, weights@, u, v);
                }
            }
        }
        i = i + 1;
    }
    let mut merged: Vec<Vec<usize>> = Vec::new();
    let mut b: usize = 0;
    while b < n
        invariant
            b <= n,
            merged@.len() == b,
            lists_wf_below(list_views(merged@), n as int),
            forall|x: int| 0 <= x < b ==> (#[trigger] list_views(merged@)[x]).len() == 0,
        decreases n - b,
    {
        let ghost before = list_views(merged@);
        let empty: Vec<usize> = Vec::new();
        merged.push(empty);
        assert(list_views(merged@) =~= before.push(Seq::empty()));
        b = b + 1;
    }
    proof {
        if both_ways(graph@) {
            lemma_light_all(graph@, owners[n - 1], min_cut_size as int, last_rep);
        }
    }
    let ghost mut owner = own_start(n as nat);
    let mut k: usize = 0;
    proof {
        assert forall|x: int| 0 <= x < n implies connected(list_views(merged@), #[trigger] owner[x], x as usize) by {
            lemma_connected_self(list_views(merged@), x as usize);
        }
    }
    while k < best_phase
        invariant
            owners.len() == n,
            owner == owners[k as int],
            forall|t: int|
                0 <= t < n - 1 ==> #[trigger] owners[t + 1] == moved_owner(
                    owners[t],
                    contractions@[t].0,
                    contractions@[t].1,
                ),
            forall|x: int| 0 <= x < n ==> (#[trigger] owner[x]) < n && connected(
                list_views(merged@),
                owner[x],
                x as usize,
            ),
            k <= best_phase < contractions@.len(),
            contractions@.len() == n - 1,
            merged@.len() == n,
            lists_wf_below(list_views(merged@), n as int),
            forall|t: int| 0 <= t < n - 1 ==> (#[trigger] contractions@[t]).0 < n && contractions@[t].1 < n,
            forall|j: int| 0 <= j < n - 1 ==> (#[trigger] contractions@[j]).0 != contractions@[j].1,
            forall|j: int, t: int|
                0 <= j < t < n - 1 ==> (#[trigger] contractions@[j]).1 != (#[trigger] contractions@[t]).0
                    && contractions@[j].1 != contractions@[t].1,
            owner.len() == n,
            links_owned(list_views(merged@), owner),
            forall|x: int|
                0 <= x < n && (forall|j: int| 0 <= j < k ==> (#[trigger] contractions@[j]).1 != x) ==> #[trigger] owner[x]
                    == x,
        decreases best_phase - k,
    {
        let (u, v) = contractions[k];
        let ghost before = list_views(merged@);
        let ghost was = owner;
        add_link(&mut merged, u, v, Ghost(n as int));
        let ghost between = list_views(merged@);
        add_link(&mut merged, v, u, Ghost(n as int));
        proof {
            owner = moved_owner(was, u, v);
            let after = list_views(merged@);
            assert(was[u as int] == u);
            assert(was[v as int] == v);
            assert forall|x: int, e: int| 0 <= x < after.len() && 0 <= e < after[x].len() implies (#[trigger] after[x][e])
                < owner.len() && owner[after[x][e] as int] == owner[x] by {
                if x == v && e == after[x].len() - 1 {
                } else if x == v {
                    assert(after[x][e] == between[x][e]);
                    if v == u {
                    } else {
                        assert(between[x][e] == before[x][e]);
                    }
                } else if x == u {
                    assert(after[x] == between[x]);
                    if e < before[x].len() {
                        assert(between[x][e] == before[x][e]);
                    }
                } else {
                    assert(after[x][e] == before[x][e]);
                }
            }
            assert forall|x: int|
                0 <= x < n && (forall|j: int| 0 <= j < k + 1 ==> (#[trigger] contractions@[j]).1 != x) implies #[trigger] owner[x]
                == x by {
                assert(contractions@[k as int].1 != x);
                assert(was[x] == x);
            }
            assert(owner == owners[k + 1]);
            assert forall|x: int, e: int| 0 <= x < before.len() && 0 <= e < before[x].len() implies after[x].contains(
                #[trigger] before[x][e],
            ) by {
                if x == u {
                    assert(between[x][e] == before[x][e]);
                }
                if x == v {
                    assert(after[x][e] == between[x][e]);
                } else {
                    assert(after[x] == between[x]);
                }
                if x != u {
                    assert(between[x] == before[x]);
                }
            }
            lemma_connected_self(after, u);
            assert(after[u as int].contains(v)) by {
                if u == v {
                } else {
                    assert(after[u as int] == between[u as int]);
                    assert(between[u as int][before[u as int].len() as int] == v);
                }
            }
            lemma_connected_step(after, u, u, v);
            assert forall|x: int| 0 <= x < n implies (#[trigger] owner[x]) < n && connected(
                after,
                owner[x],
                x as usize,
            ) by {
                lemma_connected_grow(before, after, was[x], x as usize);
                if was[x] == v {
                    lemma_connected_trans(after, u, v, x as usize);
                }
            }
        }
        k = k + 1;
    }
    let source = contractions[best_phase].1;
    let side = reachable_in(&merged, source);
    let (partition_a, partition_b) = split_marks(&side);
    let ghost other = contractions@[best_phase as int].0;
    proof {
        lemma_connected_self(list_views(merged@), source);
        assert(side@[source as int]);
        assert(partition_a@.contains(source));
        assert(owner[source as int] == source);
        assert(owner[other as int] == other);
        if connected(list_views(merged@), source, other) {
            lemma_links_stay(list_views(merged@), owner, source, other);
        }
        assert(!side@[other as int]);
        assert(partition_b@.contains(other));
        lemma_cut_bound(graph@, side@, n as int);
        if both_ways(graph@) {
            assert forall|x: int| 0 <= x < n implies side@[x] == best_side[x] by {
                if connected(list_views(merged@), source, x as usize) {
                    lemma_links_stay(list_views(merged@), owner, source, x as usize);
                }
            }
            assert(side@ =~= best_side);
        }
    }
    let counted = match count_cut(&matrix, &side, Ghost(graph@)) {
        Some(counted) => counted,
        None => {
            return None;
        },
    };
    proof {
        lemma_ascending_distinct(partition_a@);
        lemma_ascending_distinct(partition_b@);
        assert(graph@.names.len() == n);
        assert(side@.len() == n);
        assert forall|x: int| 0 <= x < n implies side@[x] == side_of(partition_a@, graph@.names.len())[x] by {
            assert(partition_a@.contains(x as usize) <==> (x as usize) < side@.len() && side@[x]);
        }
        assert(side@ =~= side_of(partition_a@, graph@.names.len()));
        assert forall|x: usize| x < graph@.names.len() implies (#[trigger] partition_a@.contains(x)
            <==> !partition_b@.contains(x)) by {
            assert(partition_b@.contains(x) <==> x < side@.len() && !side@[x as int]);
        }
    }
    Some(MinCutInfo { min_cut_size: counted, partition_a, partition_b })
}

/// Whether every number in a list is below `n`.
pub open spec fn lists_wf_below(lists: Seq<Seq<usize>>, n: int) -> bool {
    forall|x: int, k: int| 0 <= x < lists.len() && 0 <= k < lists[x].len() ==> #[trigger] lists[x][k] < n
}

/// Adds `to` to the list of `from`.
fn add_link(lists: &mut Vec<Vec<usize>>, from: usize, to: usize, Ghost(n): Ghost<int>)
    requires
        from < old(lists)@.len(),
        to < n,
        lists_wf_below(list_views(old(lists)@), n),
    ensures
        final(lists)@.len() == old(lists)@.len(),
        lists_wf_below(list_views(final(lists)@), n),
        list_views(final(lists)@) == list_views(old(lists)@).update(
            from as int,
            list_views(old(lists)@)[from as int].push(to),
        ),
{
    let ghost before = list_views(lists@);
    let ghost old_lists = lists@;
    let mut list = lists.remove(from);
    list.push(to);
    lists.insert(from, list);
    proof {
        assert(lists@ =~= old_lists.update(from as int, list));
        assert(list_views(lists@) =~= before.update(from as int, before[from as int].push(to)));
        assert forall|x: int, k: int|
            0 <= x < list_views(lists@).len() && 0 <= k < list_views(lists@)[x].len() implies #[trigger] list_views(
            lists@,
        )[x][k] < n by {
            if x == from {
                if k < before[from as int].len() {
                    assert(list_views(lists@)[x][k] == before[x][k]);
                }
            } else {
                assert(list_views(lists@)[x][k] == before[x][k]);
            }
        }
    }
}

/// Two cells of a square of side `n` with one number are one cell.
pub proof fn lemma_cell_unique(a: int, t: int, b: int, r: int, n: int)
    requires
        0 <= t < n,
        0 <= r < n,
        0 <= a,
        0 <= b,
        a * n + t == b * n + r,
    ensures
        a == b,
        t == r,
{
    vstd::arithmetic::div_mod::lemma_fundamental_div_mod_converse(a * n + t, n, a, t);
    vstd::arithmetic::div_mod::lemma_fundamental_div_mod_converse(b * n + r, n, b, r);
}

/// The weight between `a` and `t` once `v` is merged into `u` for the
/// first `s` components: the wires of `u` and of `v` to a component that
/// is there, and neither of the two, are added up, both ways.
pub open spec fn merged_cell(weights: Seq<u128>, alive: Seq<bool>, u: int, v: int, s: int, a: int, t: int) -> int {
    let n = alive.len() as int;
    if a == u && t < s && alive[t] && t != u && t != v {
        weights[u * n + t] + weights[v * n + t]
    } else if t == u && a < s && alive[a] && a != u && a != v {
        weights[u * n + a] + weights[v * n + a]
    } else {
        weights[a * n + t] as int
    }
}

/// Merging goes through where the sums fit, and gives the merged cells.
pub proof fn lemma_merged(weights: Seq<u128>, alive: Seq<bool>, u: int, v: int, s: int)
    requires
        weights.len() == alive.len() * alive.len(),
        0 <= u < alive.len(),
        0 <= v < alive.len(),
        u != v,
        0 <= s <= alive.len(),
        forall|t: int|
            0 <= t < alive.len() && alive[t] && t != u && t != v ==> #[trigger] weights[u * alive.len() + t]
                + weights[v * alive.len() + t] <= u128::MAX,
    ensures
        merged_upto(weights, alive, u, v, s) is Some,
        merged_upto(weights, alive, u, v, s).unwrap().len() == weights.len(),
        forall|a: int, t: int|
            0 <= a < alive.len() && 0 <= t < alive.len() ==> #[trigger] merged_upto(weights, alive, u, v, s).unwrap()[a
                * alive.len() + t] == merged_cell(weights, alive, u, v, s, a, t),
    decreases s,
{
    let n = alive.len() as int;
    if s > 0 {
        lemma_merged(weights, alive, u, v, s - 1);
        let prev = merged_upto(weights, alive, u, v, s - 1).unwrap();
        let k = s - 1;
        lemma_cell_bound(u, k, n, n);
        lemma_cell_bound(v, k, n, n);
        lemma_cell_bound(k, u, n, n);
        assert(prev[u * n + k] == merged_cell(weights, alive, u, v, s - 1, u, k));
        assert(prev[v * n + k] == merged_cell(weights, alive, u, v, s - 1, v, k));
        if alive[k] && k != u && k != v {
            assert(prev[u * n + k] == weights[u * n + k]);
            assert(prev[v * n + k] == weights[v * n + k]);
            let sum = (prev[u * n + k] + prev[v * n + k]) as u128;
            let next = prev.update(u * n + k, sum).update(k * n + u, sum);
            assert(merged_upto(weights, alive, u, v, s) == Some(next));
            assert forall|a: int, t: int| 0 <= a < n && 0 <= t < n implies #[trigger] next[a * n + t] == merged_cell(
                weights,
                alive,
                u,
                v,
                s,
                a,
                t,
            ) by {
                lemma_cell_bound(a, t, n, n);
                assert(prev[a * n + t] == merged_cell(weights, alive, u, v, s - 1, a, t));
                if a * n + t == k * n + u {
                    lemma_cell_unique(a, t, k, u, n);
                } else if a * n + t == u * n + k {
                    lemma_cell_unique(a, t, u, k, n);
                } else {
                    if a == u && t == k {
                        assert(false);
                    }
                    if a == k && t == u {
                        assert(false);
                    }
                }
            }
        } else {
            assert(merged_upto(weights, alive, u, v, s) == Some(prev));
            assert forall|a: int, t: int| 0 <= a < n && 0 <= t < n implies #[trigger] prev[a * n + t] == merged_cell(
                weights,
                alive,
                u,
                v,
                s,
                a,
                t,
            ) by {
                assert(prev[a * n + t] == merged_cell(weights, alive, u, v, s - 1, a, t));
            }
        }
    }
}

/// Whether `after` holds the weights of `weights` with `v` merged into
/// `u`.
pub open spec fn merged_as(after: Seq<u128>, weights: Seq<u128>, alive: Seq<bool>, u: int, v: int) -> bool {
    &&& after.len() == weights.len()
    &&& forall|a: int, t: int|
        0 <= a < alive.len() && 0 <= t < alive.len() ==> #[trigger] after[a * alive.len() + t] == merged_cell(
            weights,
            alive,
            u,
            v,
            alive.len() as int,
            a,
            t,
        )
}

/// Whether the weight from `a` to `t` is that from `t` to `a`, for all
/// components.
pub open spec fn even_handed(weights: Seq<u128>, n: int) -> bool {
    forall|a: int, t: int| 0 <= a < n && 0 <= t < n ==> #[trigger] weights[a * n + t] == weights[t * n + a]
}

/// The pull at `t` is at least the weight of the wires from one component
/// of the side, or from two.
pub proof fn lemma_pull_terms(weights: Seq<u128>, side: Seq<bool>, n: int, t: int, m: int, u: int, v: int)
    requires
        0 <= m <= side.len(),
        0 <= u < side.len(),
        0 <= v < side.len(),
        u != v,
        side[u],
    ensures
        pull(weights, side, n, t, m) >= (if u < m {
            weights[u * n + t] as int
        } else {
            0
        }) + (if v < m && side[v] {
            weights[v * n + t] as int
        } else {
            0
        }),
        pull(weights, side, n, t, m) >= 0,
    decreases m,
{
    if m > 0 {
        lemma_pull_terms(weights, side, n, t, m - 1, u, v);
    }
}

/// The sum of the pulls at the first `m` components that are there.
pub open spec fn phi(weights: Seq<u128>, alive: Seq<bool>, m: int) -> int
    decreases m,
{
    if m <= 0 {
        0
    } else if alive[m - 1] {
        phi(weights, alive, m - 1) + pull(weights, alive, alive.len() as int, m - 1, alive.len() as int)
    } else {
        phi(weights, alive, m - 1)
    }
}

/// The sum of the pulls is at least the pull at one component that is
/// there.
pub proof fn lemma_phi_term(weights: Seq<u128>, alive: Seq<bool>, m: int, t: int)
    requires
        0 <= m <= alive.len(),
        0 <= t < alive.len(),
    ensures
        phi(weights, alive, m) >= (if t < m && alive[t] {
            pull(weights, alive, alive.len() as int, t, alive.len() as int)
        } else {
            0
        }),
        phi(weights, alive, m) >= 0,
    decreases m,
{
    if m > 0 {
        lemma_phi_term(weights, alive, m - 1, t);
        lemma_pull_subset(weights, alive, alive, alive.len() as int, m - 1, alive.len() as int);
    }
}

/// After a merge, the pull at a component other than the two is as it
/// was: what `v` pulled, `u` pulls.
pub proof fn lemma_pull_kept(
    after: Seq<u128>,
    weights: Seq<u128>,
    alive: Seq<bool>,
    u: int,
    v: int,
    t: int,
    m: int,
)
    requires
        merged_as(after, weights, alive, u, v),
        0 <= u < alive.len(),
        0 <= v < alive.len(),
        u != v,
        alive[u],
        alive[v],
        0 <= t < alive.len(),
        alive[t],
        t != u,
        t != v,
        0 <= m <= alive.len(),
    ensures
        pull(after, alive.update(v, false), alive.len() as int, t, m) == pull(
            weights,
            alive,
            alive.len() as int,
            t,
            m,
        ) + (if u < m {
            weights[v * alive.len() + t] as int
        } else {
            0
        }) - (if v < m {
            weights[v * alive.len() + t] as int
        } else {
            0
        }),
    decreases m,
{
    let n = alive.len() as int;
    if m > 0 {
        lemma_pull_kept(after, weights, alive, u, v, t, m - 1);
        assert(after[(m - 1) * n + t] == merged_cell(weights, alive, u, v, n, m - 1, t));
    }
}

/// After a merge, `u` is pulled at no more than `u` and `v` were together.
pub proof fn lemma_pull_joined(after: Seq<u128>, weights: Seq<u128>, alive: Seq<bool>, u: int, v: int, m: int)
    requires
        merged_as(after, weights, alive, u, v),
        even_handed(weights, alive.len() as int),
        0 <= u < alive.len(),
        0 <= v < alive.len(),
        u != v,
        alive[u],
        alive[v],
        0 <= m <= alive.len(),
    ensures
        pull(after, alive.update(v, false), alive.len() as int, u, m) <= pull(
            weights,
            alive,
            alive.len() as int,
            u,
            m,
        ) + pull(weights, alive, alive.len() as int, v, m),
    decreases m,
{
    let n = alive.len() as int;
    if m > 0 {
        lemma_pull_joined(after, weights, alive, u, v, m - 1);
        let a = m - 1;
        assert(after[a * n + u] == merged_cell(weights, alive, u, v, n, a, u));
        assert(weights[a * n + u] == weights[u * n + a]);
        assert(weights[a * n + v] == weights[v * n + a]);
    }
}

/// A merge does not raise the sum of the pulls.
pub proof fn lemma_phi_merge(after: Seq<u128>, weights: Seq<u128>, alive: Seq<bool>, u: int, v: int, m: int)
    requires
        merged_as(after, weights, alive, u, v),
        even_handed(weights, alive.len() as int),
        0 <= u < alive.len(),
        0 <= v < alive.len(),
        u != v,
        alive[u],
        alive[v],
        0 <= m <= alive.len(),
    ensures
        phi(after, alive.update(v, false), m) <= phi(weights, alive, m) + (if u < m {
            pull(weights, alive, alive.len() as int, v, alive.len() as int)
        } else {
            0
        }) - (if v < m {
            pull(weights, alive, alive.len() as int, v, alive.len() as int)
        } else {
            0
        }),
    decreases m,
{
    let n = alive.len() as int;
    if m > 0 {
        lemma_phi_merge(after, weights, alive, u, v, m - 1);
        let t = m - 1;
        if t == u {
            lemma_pull_joined(after, weights, alive, u, v, n);
        } else if t != v && alive[t] {
            lemma_pull_kept(after, weights, alive, u, v, t, n);
        }
    }
}

/// Whether `part` holds some but not all of the components that are there,
/// and no others.
pub open spec fn splits(alive: Seq<bool>, part: Seq<bool>) -> bool {
    &&& part.len() == alive.len()
    &&& forall|k: int| 0 <= k < part.len() && part[k] ==> alive[k]
    &&& exists|k: int| 0 <= k < part.len() && part[k]
    &&& exists|k: int| 0 <= k < part.len() && alive[k] && !part[k]
}

/// Whether a wire leads from a component of `part` to one that is there
/// and not of the part.
pub open spec fn crossing(weights: Seq<u128>, alive: Seq<bool>, part: Seq<bool>) -> bool {
    exists|a: int, t: int|
        0 <= a < alive.len() && 0 <= t < alive.len() && part[a] && alive[t] && !part[t] && #[trigger] weights[a
            * alive.len() + t] > 0
}

/// Whether the components that are there are linked: a wire leads out of
/// every part of them.
pub open spec fn linked(weights: Seq<u128>, alive: Seq<bool>) -> bool {
    forall|part: Seq<bool>| #[trigger] splits(alive, part) ==> crossing(weights, alive, part)
}

/// Whether the weights are sound: there is one for each pair of
/// components, both ways alike; the components that are there are linked;
/// and the pulls sum up to no more than `u128` holds.
pub open spec fn sound(weights: Seq<u128>, alive: Seq<bool>) -> bool {
    &&& weights.len() == alive.len() * alive.len()
    &&& even_handed(weights, alive.len() as int)
    &&& linked(weights, alive)
    &&& phi(weights, alive, alive.len() as int) <= u128::MAX
}

/// Merging two components that are there goes through on sound weights
/// and leaves sound weights.
pub proof fn lemma_sound_merge(weights: Seq<u128>, alive: Seq<bool>, u: int, v: int)
    requires
        sound(weights, alive),
        0 <= u < alive.len(),
        0 <= v < alive.len(),
        u != v,
        alive[u],
        alive[v],
    ensures
        merged_upto(weights, alive, u, v, alive.len() as int) is Some,
        sound(merged_upto(weights, alive, u, v, alive.len() as int).unwrap(), alive.update(v, false)),
{
    let n = alive.len() as int;
    assert forall|t: int| 0 <= t < alive.len() && alive[t] && t != u && t != v implies #[trigger] weights[u
        * alive.len() + t] + weights[v * alive.len() + t] <= u128::MAX by {
        lemma_pull_terms(weights, alive, n, t, n, u, v);
        lemma_phi_term(weights, alive, n, t);
    }
    lemma_merged(weights, alive, u, v, n);
    let after = merged_upto(weights, alive, u, v, n).unwrap();
    let left = alive.update(v, false);
    assert(merged_as(after, weights, alive, u, v));
    assert forall|a: int, t: int| 0 <= a < n && 0 <= t < n implies #[trigger] after[a * n + t] == after[t * n + a] by {
        assert(after[a * n + t] == merged_cell(weights, alive, u, v, n, a, t));
        assert(after[t * n + a] == merged_cell(weights, alive, u, v, n, t, a));
        assert(weights[a * n + t] == weights[t * n + a]);
    }
    lemma_phi_merge(after, weights, alive, u, v, n);
    assert forall|part: Seq<bool>| #[trigger] splits(left, part) implies crossing(after, left, part) by {
        let wider = if part[u] {
            part.update(v, true)
        } else {
            part
        };
        let inside = choose|k: int| 0 <= k < part.len() && part[k];
        let outside = choose|k: int| 0 <= k < part.len() && left[k] && !part[k];
        assert(wider[inside]);
        assert(alive[outside] && !wider[outside]);
        assert(splits(alive, wider));
        let (a, t) = choose|a: int, t: int|
            0 <= a < alive.len() && 0 <= t < alive.len() && wider[a] && alive[t] && !wider[t] && #[trigger] weights[a
                * alive.len() + t] > 0;
        let from = if a == v {
            u
        } else {
            a
        };
        let to = if t == v {
            u
        } else {
            t
        };
        assert(after[from * n + to] == merged_cell(weights, alive, u, v, n, from, to));
        assert(weights[a * n + t] == weights[t * n + a]);
        assert(weights[from * n + to] == weights[to * n + from]);
        assert(part[from] && left[to] && !part[to] && after[from * n + to] > 0);
    }
}

/// Where the components are linked, they hang together from any start.
pub proof fn lemma_hangs(weights: Seq<u128>, alive: Seq<bool>, start: int)
    requires
        linked(weights, alive),
    ensures
        hangs_together(weights, alive, start),
{
    let n = alive.len() as int;
    assert forall|part: Seq<bool>| #[trigger] proper(alive, part, start) implies exists|t: int|
        0 <= t < alive.len() && alive[t] && !part[t] && pull(weights, part, n, t, n) > 0 by {
        assert(splits(alive, part));
        let (a, t) = choose|a: int, t: int|
            0 <= a < alive.len() && 0 <= t < alive.len() && part[a] && alive[t] && !part[t] && #[trigger] weights[a
                * alive.len() + t] > 0;
        lemma_pull_terms(weights, part, n, t, n, a, t);
        assert(0 <= t < alive.len() && alive[t] && !part[t] && pull(weights, part, n, t, n) > 0);
    }
}

/// Sound weights let any number of phases go through.
pub proof fn lemma_sound_settles(weights: Seq<u128>, alive: Seq<bool>, phases: nat)
    requires
        sound(weights, alive),
    ensures
        settles(weights, alive, phases),
    decreases phases,
{
    let n = alive.len() as int;
    if phases > 0 {
        lemma_hangs(weights, alive, first_set(alive, 0));
        assert forall|t: int| 0 <= t < alive.len() && alive[t] implies #[trigger] pull(weights, alive, n, t, n)
            <= u128::MAX by {
            lemma_phi_term(weights, alive, n, t);
        }
        if phases >= 2 {
            assert forall|u: int, v: int|
                #![trigger merged_upto(weights, alive, u, v, alive.len() as int)]
                0 <= u < alive.len() && 0 <= v < alive.len() && u != v && alive[u] && alive[v] implies match merged_upto(
                weights,
                alive,
                u,
                v,
                alive.len() as int,
            ) {
                Some(merged) => settles(merged, alive.update(v, false), (phases - 1) as nat),
                None => false,
            } by {
                lemma_sound_merge(weights, alive, u, v);
                lemma_sound_settles(
                    merged_upto(weights, alive, u, v, n).unwrap(),
                    alive.update(v, false),
                    (phases - 1) as nat,
                );
            }
        }
    }
}

/// Whether every wire leads both ways.
pub open spec fn both_ways(g: GraphView) -> bool {
    forall|x: int, y: int|
        0 <= x < g.names.len() && 0 <= y < g.names.len() ==> (#[trigger] g.wired(x, y) <==> g.wired(y, x))
}

/// Whether wires lead from every component to every other.
pub open spec fn all_joined(g: GraphView) -> bool {
    forall|x: int, y: int|
        0 <= x < g.names.len() && 0 <= y < g.names.len() ==> #[trigger] connected(
            g.successors,
            x as usize,
            y as usize,
        )
}

/// The weight at the outset between two components is 1 for a wire and 0
/// for none.
pub proof fn lemma_wire_cell(g: GraphView, a: int, t: int)
    requires
        0 <= a < g.names.len(),
        0 <= t < g.names.len(),
    ensures
        0 <= a * g.names.len() + t < wire_weights(g).len(),
        wire_weights(g)[a * g.names.len() + t] == (if g.wired(a, t) {
            1u128
        } else {
            0u128
        }),
{
    let n = g.names.len() as int;
    lemma_cell_bound(a, t, n, n);
    vstd::arithmetic::div_mod::lemma_fundamental_div_mod_converse(a * n + t, n, a, t);
}

/// At the outset no component is pulled at by more than the components
/// counted.
pub proof fn lemma_wire_pull(g: GraphView, side: Seq<bool>, t: int, m: int)
    requires
        side.len() == g.names.len(),
        0 <= t < g.names.len(),
        0 <= m <= g.names.len(),
    ensures
        0 <= pull(wire_weights(g), side, g.names.len() as int, t, m) <= m,
    decreases m,
{
    if m > 0 {
        lemma_wire_pull(g, side, t, m - 1);
        lemma_wire_cell(g, m - 1, t);
    }
}

/// At the outset the pulls sum up to no more than there are pairs of
/// components.
pub proof fn lemma_wire_phi(g: GraphView, m: int)
    requires
        0 <= m <= g.names.len(),
    ensures
        0 <= phi(wire_weights(g), all_there(g.names.len()), m) <= m * g.names.len(),
    decreases m,
{
    let n = g.names.len() as int;
    if m > 0 {
        lemma_wire_phi(g, m - 1);
        lemma_wire_pull(g, all_there(g.names.len()), m - 1, n);
        assert(m * n == (m - 1) * n + n) by (nonlinear_arith);
    } else {
        assert(0 * n == 0) by (nonlinear_arith);
    }
}

/// The weights at the outset of a graph whose wires lead both ways and
/// join all components are sound.
pub proof fn lemma_wire_sound(g: GraphView)
    requires
        g.wf(),
        g.names.len() * g.names.len() <= usize::MAX,
        both_ways(g),
        all_joined(g),
    ensures
        sound(wire_weights(g), all_there(g.names.len())),
{
    let n = g.names.len() as int;
    let weights = wire_weights(g);
    let alive = all_there(g.names.len());
    assert forall|a: int, t: int| 0 <= a < n && 0 <= t < n implies #[trigger] weights[a * n + t] == weights[t * n
        + a] by {
        lemma_wire_cell(g, a, t);
        lemma_wire_cell(g, t, a);
        assert(g.wired(a, t) <==> g.wired(t, a));
    }
    lemma_wire_phi(g, n);
    assert forall|part: Seq<bool>| #[trigger] splits(alive, part) implies crossing(weights, alive, part) by {
        let inside = choose|k: int| 0 <= k < part.len() && part[k];
        let outside = choose|k: int| 0 <= k < part.len() && alive[k] && !part[k];
        assert(n <= n * n) by (nonlinear_arith)
            requires
                n >= 1,
        ;
        assert(inside as usize == inside && outside as usize == outside);
        assert(connected(g.successors, inside as usize, outside as usize));
        let path = choose|path: Seq<usize>| #[trigger]
            follows_edges(g.successors, path) && path[0] == inside as usize && path.last() == outside as usize;
        if !crossing(weights, alive, part) {
            assert forall|x: int, k: int|
                0 <= x < g.successors.len() && part[x] && 0 <= k < g.successors[x].len() implies (#[trigger] g.successors[x][k])
                < part.len() && part[g.successors[x][k] as int] by {
                let y = g.successors[x][k] as int;
                assert(g.wired(x, y));
                lemma_wire_cell(g, x, y);
                if !part[y] {
                    assert(0 <= x < alive.len() && 0 <= y < alive.len() && part[x] && alive[y] && !part[y]
                        && weights[x * alive.len() + y] > 0);
                }
            }
            lemma_closed_holds_path(g.successors, part, path, path.len() - 1);
        }
    }
}

/// In a graph of two components or more whose wires lead both ways and
/// join all components, every phase is sure to go through.
pub proof fn lemma_joined_settles(g: GraphView)
    requires
        g.wf(),
        g.names.len() * g.names.len() <= usize::MAX,
        both_ways(g),
        all_joined(g),
    ensures
        settles(wire_weights(g), all_there(g.names.len()), (g.names.len() - 1) as nat),
{
    lemma_wire_sound(g);
    lemma_sound_settles(wire_weights(g), all_there(g.names.len()), (g.names.len() - 1) as nat);
}

/// Merging that goes through gives the merged cells.
pub proof fn lemma_merged_cells(weights: Seq<u128>, alive: Seq<bool>, u: int, v: int, s: int)
    requires
        weights.len() == alive.len() * alive.len(),
        0 <= u < alive.len(),
        0 <= v < alive.len(),
        u != v,
        0 <= s <= alive.len(),
        merged_upto(weights, alive, u, v, s) is Some,
    ensures
        merged_upto(weights, alive, u, v, s).unwrap().len() == weights.len(),
        forall|a: int, t: int|
            0 <= a < alive.len() && 0 <= t < alive.len() ==> #[trigger] merged_upto(weights, alive, u, v, s).unwrap()[a
                * alive.len() + t] == merged_cell(weights, alive, u, v, s, a, t),
    decreases s,
{
    let n = alive.len() as int;
    if s > 0 {
        lemma_merged_cells(weights, alive, u, v, s - 1);
        let prev = merged_upto(weights, alive, u, v, s - 1).unwrap();
        let k = s - 1;
        lemma_cell_bound(u, k, n, n);
        lemma_cell_bound(v, k, n, n);
        lemma_cell_bound(k, u, n, n);
        assert(prev[u * n + k] == merged_cell(weights, alive, u, v, s - 1, u, k));
        assert(prev[v * n + k] == merged_cell(weights, alive, u, v, s - 1, v, k));
        if alive[k] && k != u && k != v {
            assert(prev[u * n + k] == weights[u * n + k]);
            assert(prev[v * n + k] == weights[v * n + k]);
            let sum = (prev[u * n + k] + prev[v * n + k]) as u128;
            let next = prev.update(u * n + k, sum).update(k * n + u, sum);
            assert(merged_upto(weights, alive, u, v, s) == Some(next));
            assert forall|a: int, t: int| 0 <= a < n && 0 <= t < n implies #[trigger] next[a * n + t] == merged_cell(
                weights,
                alive,
                u,
                v,
                s,
                a,
                t,
            ) by {
                lemma_cell_bound(a, t, n, n);
                assert(prev[a * n + t] == merged_cell(weights, alive, u, v, s - 1, a, t));
                if a * n + t == k * n + u {
                    lemma_cell_unique(a, t, k, u, n);
                } else if a * n + t == u * n + k {
                    lemma_cell_unique(a, t, u, k, n);
                }
            }
        } else {
            assert(merged_upto(weights, alive, u, v, s) == Some(prev));
            assert forall|a: int, t: int| 0 <= a < n && 0 <= t < n implies #[trigger] prev[a * n + t] == merged_cell(
                weights,
                alive,
                u,
                v,
                s,
                a,
                t,
            ) by {
                assert(prev[a * n + t] == merged_cell(weights, alive, u, v, s - 1, a, t));
            }
        }
    }
}

/// Where two components are there and no more, any that is there is one of
/// the two.
pub proof fn lemma_only_two(alive: Seq<bool>, u: int, v: int)
    requires
        0 <= u < alive.len(),
        0 <= v < alive.len(),
        u != v,
        alive[u],
        alive[v],
        count_set(alive, alive.len() as int) == 2,
    ensures
        forall|x: int| 0 <= x < alive.len() && alive[x] ==> x == u || x == v,
{
    let n = alive.len() as int;
    let none = Seq::new(alive.len(), |x: int| false);
    let one = none.update(u, true);
    let two = one.update(v, true);
    lemma_count_all(none, n, false);
    lemma_count_changes(none, u, n);
    assert(none.update(u, !none[u]) =~= one);
    lemma_count_changes(one, v, n);
    assert(one.update(v, !one[v]) =~= two);
    lemma_missing(two, alive, n);
    assert forall|x: int| 0 <= x < alive.len() && alive[x] implies x == u || x == v by {
        if x != u && x != v {
            assert(0 <= x < n && alive[x] && !two[x]);
        }
    }
}

/// A component without wires leaves every wire leading both ways.
pub proof fn lemma_node_both_ways(g: GraphView, name: Seq<u8>)
    requires
        g.wf(),
        both_ways(g),
        with_node(g, name).names.len() <= usize::MAX,
    ensures
        both_ways(with_node(g, name)),
{
    let h = with_node(g, name);
    if index_of(g.names, name, 0) >= g.names.len() {
        assert forall|x: int, y: int| 0 <= x < h.names.len() && 0 <= y < h.names.len() implies (#[trigger] h.wired(x, y)
            <==> h.wired(y, x)) by {
            let n = g.names.len() as int;
            if x < n {
                assert(h.successors[x] == g.successors[x]);
            }
            if y < n {
                assert(h.successors[y] == g.successors[y]);
            }
            if x < n && y < n {
                assert(g.wired(x, y) <==> g.wired(y, x));
            } else if x < n {
                if g.successors[x].contains(y as usize) {
                    let k = choose|k: int| 0 <= k < g.successors[x].len() && g.successors[x][k] == y as usize;
                    assert(g.successors[x][k] < g.names.len());
                }
            } else if y < n {
                if g.successors[y].contains(x as usize) {
                    let k = choose|k: int| 0 <= k < g.successors[y].len() && g.successors[y][k] == x as usize;
                    assert(g.successors[y][k] < g.names.len());
                }
            }
        }
    }
}

/// A wire with one back leaves every wire leading both ways.
pub proof fn lemma_wire_both_ways(g: GraphView, x: int, y: int)
    requires
        g.wf(),
        both_ways(g),
        0 <= x < g.names.len(),
        0 <= y < g.names.len(),
        g.names.len() <= usize::MAX,
    ensures
        both_ways(with_wire(g, x, y)),
{
    let h = with_wire(g, x, y);
    let there = g.successors.update(x, g.successors[x].push(y as usize));
    assert forall|a: int, b: int| 0 <= a < h.names.len() && 0 <= b < h.names.len() implies (#[trigger] h.wired(a, b)
        <==> g.wired(a, b) || (a == x && b == y) || (a == y && b == x)) by {
        let before = g.successors[a];
        let middle = there[a];
        let after = h.successors[a];
        assert(middle == (if a == x {
            before.push(y as usize)
        } else {
            before
        }));
        assert(after == (if a == y {
            middle.push(x as usize)
        } else {
            middle
        }));
        if after.contains(b as usize) {
            let k = choose|k: int| 0 <= k < after.len() && after[k] == b as usize;
            if k < before.len() {
                assert(before[k] == b as usize);
            }
        }
        if before.contains(b as usize) {
            let k = choose|k: int| 0 <= k < before.len() && before[k] == b as usize;
            assert(after[k] == b as usize);
        }
        if a == x && b == y {
            assert(after[before.len() as int] == y as usize);
        }
        if a == y && b == x {
            assert(after[after.len() - 1] == x as usize);
        }
    }
    assert forall|a: int, b: int| 0 <= a < h.names.len() && 0 <= b < h.names.len() implies (#[trigger] h.wired(a, b)
        <==> h.wired(b, a)) by {
        assert(g.wired(a, b) <==> g.wired(b, a));
        assert(h.wired(b, a) <==> g.wired(b, a) || (b == x && a == y) || (b == y && a == x));
    }
}

} // verus!
