//! Which nodes of a graph can be reached from a node, for graphs given by
//! lists of neighbours.

use vstd::prelude::*;

verus! {

/// The views of the lists of neighbours.
pub open spec fn list_views(lists: Seq<Vec<usize>>) -> Seq<Seq<usize>> {
    lists.map_values(|l: Vec<usize>| l@)
}

/// Whether `path` follows edges: each node has an edge to the next.
pub open spec fn follows_edges(lists: Seq<Seq<usize>>, path: Seq<usize>) -> bool {
    path.len() > 0 && forall|i: int|
        0 <= i < path.len() - 1 ==> 0 <= #[trigger] path[i] < lists.len() && lists[path[i] as int].contains(
            path[i + 1],
        )
}

/// Whether edges lead from `a` to `b`.
pub open spec fn connected(lists: Seq<Seq<usize>>, a: usize, b: usize) -> bool {
    exists|path: Seq<usize>| #[trigger] follows_edges(lists, path) && path[0] == a && path.last() == b
}

/// The number of marks that are set among the first `n`.
pub open spec fn count_set(marks: Seq<bool>, n: int) -> int
    decreases n,
{
    if n <= 0 {
        0
    } else if marks[n - 1] {
        count_set(marks, n - 1) + 1
    } else {
        count_set(marks, n - 1)
    }
}

/// There are at most as many marks set as there are marks.
pub proof fn lemma_count_set_bound(marks: Seq<bool>, n: int)
    requires
        0 <= n,
    ensures
        0 <= count_set(marks, n) <= n,
    decreases n,
{
    if n > 0 {
        lemma_count_set_bound(marks, n - 1);
    }
}

/// Setting a mark that was not set adds one to the count.
pub proof fn lemma_count_set_update(marks: Seq<bool>, i: int, n: int)
    requires
        0 <= i < marks.len(),
        0 <= n <= marks.len(),
        !marks[i],
    ensures
        count_set(marks.update(i, true), n) == count_set(marks, n) + (if i < n { 1int } else { 0int }),
    decreases n,
{
    if n > 0 {
        lemma_count_set_update(marks, i, n - 1);
    }
}

/// Edges lead from a node to itself.
pub proof fn lemma_connected_self(lists: Seq<Seq<usize>>, a: usize)
    ensures
        connected(lists, a, a),
{
    let path = seq![a];
    assert(follows_edges(lists, path));
    assert(path[0] == a);
}

/// Where edges lead to a node, they lead on to those it has an edge to.
pub proof fn lemma_connected_step(lists: Seq<Seq<usize>>, a: usize, b: usize, c: usize)
    requires
        connected(lists, a, b),
        b < lists.len(),
        lists[b as int].contains(c),
    ensures
        connected(lists, a, c),
{
    let path = choose|path: Seq<usize>| #[trigger] follows_edges(lists, path) && path[0] == a && path.last() == b;
    let longer = path.push(c);
    assert forall|i: int| 0 <= i < longer.len() - 1 implies 0 <= #[trigger] longer[i] < lists.len()
        && lists[longer[i] as int].contains(longer[i + 1]) by {
        if i < path.len() - 1 {
            assert(longer[i] == path[i]);
            assert(longer[i + 1] == path[i + 1]);
        }
    }
    assert(follows_edges(lists, longer));
    assert(longer[0] == a);
}

/// Where edges lead from `a` to `b` and from `b` to `c`, they lead from `a`
/// to `c`.
pub proof fn lemma_connected_trans(lists: Seq<Seq<usize>>, a: usize, b: usize, c: usize)
    requires
        connected(lists, a, b),
        connected(lists, b, c),
    ensures
        connected(lists, a, c),
{
    let first = choose|path: Seq<usize>| #[trigger] follows_edges(lists, path) && path[0] == a && path.last() == b;
    let second = choose|path: Seq<usize>| #[trigger] follows_edges(lists, path) && path[0] == b && path.last() == c;
    let whole = first.drop_last() + second;
    assert forall|i: int| 0 <= i < whole.len() - 1 implies 0 <= #[trigger] whole[i] < lists.len()
        && lists[whole[i] as int].contains(whole[i + 1]) by {
        if i < first.len() - 2 {
            assert(whole[i] == first[i]);
            assert(whole[i + 1] == first[i + 1]);
        } else if i == first.len() - 2 {
            assert(whole[i] == first[i]);
            assert(whole[i + 1] == second[0]);
            assert(first[i + 1] == b);
        } else {
            let k = i - (first.len() - 1);
            assert(whole[i] == second[k]);
            assert(whole[i + 1] == second[k + 1]);
        }
    }
    assert(follows_edges(lists, whole));
    if first.len() == 1 {
        assert(whole[0] == second[0]);
    } else {
        assert(whole[0] == first[0]);
    }
    assert(whole.last() == second.last());
}

/// Edges that lead from `a` to `b` still do when every list has grown.
pub proof fn lemma_connected_grow(lists: Seq<Seq<usize>>, wider: Seq<Seq<usize>>, a: usize, b: usize)
    requires
        lists.len() == wider.len(),
        forall|x: int, k: int|
            0 <= x < lists.len() && 0 <= k < lists[x].len() ==> wider[x].contains(#[trigger] lists[x][k]),
        connected(lists, a, b),
    ensures
        connected(wider, a, b),
{
    let path = choose|path: Seq<usize>| #[trigger] follows_edges(lists, path) && path[0] == a && path.last() == b;
    assert forall|i: int| 0 <= i < path.len() - 1 implies 0 <= #[trigger] path[i] < wider.len()
        && wider[path[i] as int].contains(path[i + 1]) by {
        let x = path[i] as int;
        let k = choose|k: int| 0 <= k < lists[x].len() && lists[x][k] == path[i + 1];
        assert(wider[x].contains(lists[x][k]));
    }
    assert(follows_edges(wider, path));
}

/// A set of nodes that holds `path[0]` and, with each node, those
/// it has an edge to, holds all of the path.
pub proof fn lemma_closed_holds_path(lists: Seq<Seq<usize>>, marks: Seq<bool>, path: Seq<usize>, i: int)
    requires
        follows_edges(lists, path),
        marks.len() == lists.len(),
        path[0] < marks.len() && marks[path[0] as int],
        forall|x: int, k: int|
            0 <= x < lists.len() && marks[x] && 0 <= k < lists[x].len() ==> (#[trigger] lists[x][k]) < marks.len()
                && marks[lists[x][k] as int],
        0 <= i < path.len(),
    ensures
        path[i] < marks.len() && marks[path[i] as int],
    decreases i,
{
    if i > 0 {
        lemma_closed_holds_path(lists, marks, path, i - 1);
        let x = path[i - 1] as int;
        let k = choose|k: int| 0 <= k < lists[x].len() && lists[x][k] == path[i];
        assert(lists[x][k] < marks.len());
    }
}

/// Whether every number in a list is below the number of lists.
pub open spec fn lists_wf(lists: Seq<Seq<usize>>) -> bool {
    forall|x: int, k: int|
        0 <= x < lists.len() && 0 <= k < lists[x].len() ==> #[trigger] lists[x][k] < lists.len()
}

/// Marks the nodes that edges lead to from `source`.
pub fn reachable_in(lists: &Vec<Vec<usize>>, source: usize) -> (seen: Vec<bool>)
    requires
        lists_wf(list_views(lists@)),
        source < lists@.len(),
    ensures
        seen@.len() == lists@.len(),
        forall|v: int| 0 <= v < seen@.len() ==> (#[trigger] seen@[v] <==> connected(list_views(lists@), source, v as usize)),
        forall|v: usize| connected(list_views(lists@), source, v) ==> v < seen@.len(),
{
    let n = lists.len();
    let ghost adj = list_views(lists@);
    let mut seen: Vec<bool> = Vec::new();
    let mut a: usize = 0;
    while a < n
        invariant
            a <= n,
            seen@.len() == a,
            forall|j: int| 0 <= j < a ==> !(#[trigger] seen@[j]),
        decreases n - a,
    {
        seen.push(false);
        a = a + 1;
    }
    proof {
        lemma_count_set_update(seen@, source as int, n as int);
        lemma_count_set_bound(seen@, n as int);
        lemma_connected_self(adj, source);
    }
    seen.set(source, true);
    let mut stack: Vec<usize> = Vec::new();
    stack.push(source);
    proof {
        lemma_count_set_bound(seen@, n as int);
        assert(stack@[0] == source);
        assert forall|v: int| 0 <= v < n && #[trigger] seen@[v] implies stack@.contains(v as usize) by {
            assert(v == source);
        }
    }
    loop
        invariant
            n == lists@.len(),
            adj == list_views(lists@),
            lists_wf(adj),
            source < n,
            seen@.len() == n,
            seen@[source as int],
            forall|t: int| 0 <= t < stack@.len() ==> (#[trigger] stack@[t]) < n && seen@[stack@[t] as int],
            forall|v: int| 0 <= v < n && #[trigger] seen@[v] ==> connected(adj, source, v as usize),
            forall|v: int|
                0 <= v < n && #[trigger] seen@[v] ==> stack@.contains(v as usize) || forall|k: int|
                    0 <= k < adj[v].len() ==> seen@[#[trigger] adj[v][k] as int],
            count_set(seen@, n as int) <= n,
        decreases 2 * (n - count_set(seen@, n as int)) + stack@.len(),
    {
        let ghost before = stack@;
        let node = match stack.pop() {
            Some(node) => node,
            None => {
                proof {
                    assert forall|v: usize| connected(adj, source, v) implies v < n && seen@[v as int] by {
                        let path = choose|path: Seq<usize>| #[trigger]
                            follows_edges(adj, path) && path[0] == source && path.last() == v;
                        assert forall|x: int, k: int|
                            0 <= x < adj.len() && seen@[x] && 0 <= k < adj[x].len() implies (#[trigger] adj[x][k])
                            < seen@.len() && seen@[adj[x][k] as int] by {
                            assert(!stack@.contains(x as usize));
                        }
                        lemma_closed_holds_path(adj, seen@, path, path.len() - 1);
                    }
                }
                return seen;
            },
        };
        assert(before[before.len() - 1] == node);
        assert(adj[node as int] == lists@[node as int]@);
        proof {
            assert forall|v: int| 0 <= v < n && #[trigger] seen@[v] && v != node implies stack@.contains(
                v as usize,
            ) || forall|j: int| 0 <= j < adj[v].len() ==> seen@[#[trigger] adj[v][j] as int] by {
                if before.contains(v as usize) {
                    let t = choose|t: int| 0 <= t < before.len() && before[t] == v as usize;
                    assert(stack@[t] == v as usize);
                }
            }
        }
        let ghost measure = 2 * (n - count_set(seen@, n as int)) + before.len();
        let mut k: usize = 0;
        while k < lists[node].len()
            invariant
                k <= lists@[node as int]@.len(),
                n == lists@.len(),
                adj == list_views(lists@),
                lists_wf(adj),
                source < n,
                node < n,
                seen@.len() == n,
                seen@[source as int],
                seen@[node as int],
                forall|t: int| 0 <= t < stack@.len() ==> (#[trigger] stack@[t]) < n && seen@[stack@[t] as int],
                forall|v: int| 0 <= v < n && #[trigger] seen@[v] ==> connected(adj, source, v as usize),
                forall|v: int|
                    0 <= v < n && #[trigger] seen@[v] && v != node ==> stack@.contains(v as usize) || forall|j: int|
                        0 <= j < adj[v].len() ==> seen@[#[trigger] adj[v][j] as int],
                forall|j: int| 0 <= j < k ==> seen@[#[trigger] adj[node as int][j] as int],
                count_set(seen@, n as int) <= n,
                2 * (n - count_set(seen@, n as int)) + stack@.len() < measure,
            decreases lists@[node as int]@.len() - k,
        {
            let successor = lists[node][k];
            assert(adj[node as int][k as int] == successor);
            if !seen[successor] {
                let ghost old_seen = seen@;
                let ghost old_stack = stack@;
                proof {
                    lemma_count_set_update(seen@, successor as int, n as int);
                    lemma_count_set_bound(seen@.update(successor as int, true), n as int);
                    assert(adj[node as int].contains(successor));
                    lemma_connected_step(adj, source, node, successor);
                }
                stack.push(successor);
                seen.set(successor, true);
                proof {
                    assert forall|v: int|
                        0 <= v < n && #[trigger] seen@[v] && v != node implies stack@.contains(v as usize) || forall|
                        j: int,
                    |
                        0 <= j < adj[v].len() ==> seen@[#[trigger] adj[v][j] as int] by {
                        if v == successor {
                            assert(stack@[stack@.len() - 1] == successor);
                        } else if old_stack.contains(v as usize) {
                            let t = choose|t: int| 0 <= t < old_stack.len() && old_stack[t] == v as usize;
                            assert(stack@[t] == v as usize);
                        }
                    }
                }
            }
            k = k + 1;
        }
        proof {
            assert forall|v: int| 0 <= v < n && #[trigger] seen@[v] implies stack@.contains(v as usize) || forall|
                j: int,
            |
                0 <= j < adj[v].len() ==> seen@[#[trigger] adj[v][j] as int] by {}
        }
    }
}

} // verus!
