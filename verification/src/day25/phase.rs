//! The weight of a cut of weighted components, and why the cut that a
//! phase ends with is a lightest one between its last two components.

use super::{
    all_there, both_ways, cut_upto, cut_weight, even_handed, lemma_wire_cell, merged_as, merged_cell, moved_owner,
    own_start, owned_by, pull, row_cut, wire_weights, GraphView,
};
use crate::day25::lemma_pull_subset;
use vstd::prelude::*;

verus! {

/// The weight of the wires to `t` from those of the first `m` components
/// of `part` that are on the side `flag`.
pub open spec fn xpull(weights: Seq<u128>, part: Seq<bool>, side: Seq<bool>, flag: bool, t: int, m: int) -> int
    decreases m,
{
    if m <= 0 {
        0
    } else if part[m - 1] && side[m - 1] == flag {
        xpull(weights, part, side, flag, t, m - 1) + weights[(m - 1) * part.len() + t]
    } else {
        xpull(weights, part, side, flag, t, m - 1)
    }
}

/// The weight of the wires from `a` to those of the first `m` components
/// of `part` that are not on the marked side.
pub open spec fn spill(weights: Seq<u128>, part: Seq<bool>, side: Seq<bool>, a: int, m: int) -> int
    decreases m,
{
    if m <= 0 {
        0
    } else if part[m - 1] && !side[m - 1] {
        spill(weights, part, side, a, m - 1) + weights[a * part.len() + (m - 1)]
    } else {
        spill(weights, part, side, a, m - 1)
    }
}

/// The weight of the cut of `part` by `side`, counted for the first `m`
/// components: the wires from components of the part on the marked side to
/// components of the part on the other.
pub open spec fn vcut(weights: Seq<u128>, part: Seq<bool>, side: Seq<bool>, m: int) -> int
    decreases m,
{
    if m <= 0 {
        0
    } else if part[m - 1] && side[m - 1] {
        vcut(weights, part, side, m - 1) + spill(weights, part, side, m - 1, part.len() as int)
    } else {
        vcut(weights, part, side, m - 1)
    }
}

/// The pull is that from the one side and that from the other.
pub proof fn lemma_pull_split(weights: Seq<u128>, part: Seq<bool>, side: Seq<bool>, t: int, m: int)
    requires
        0 <= m <= part.len(),
        part.len() == side.len(),
    ensures
        pull(weights, part, part.len() as int, t, m) == xpull(weights, part, side, true, t, m) + xpull(
            weights,
            part,
            side,
            false,
            t,
            m,
        ),
        xpull(weights, part, side, true, t, m) >= 0,
        xpull(weights, part, side, false, t, m) >= 0,
    decreases m,
{
    if m > 0 {
        lemma_pull_split(weights, part, side, t, m - 1);
    }
}

/// The pull from one side of a part is no more than the pull of a part
/// that holds that side.
pub proof fn lemma_xpull_within(
    weights: Seq<u128>,
    part: Seq<bool>,
    side: Seq<bool>,
    flag: bool,
    wider: Seq<bool>,
    t: int,
    m: int,
)
    requires
        0 <= m <= part.len(),
        part.len() == side.len(),
        part.len() == wider.len(),
        forall|a: int| 0 <= a < part.len() && part[a] && side[a] == flag ==> wider[a],
    ensures
        xpull(weights, part, side, flag, t, m) <= pull(weights, wider, part.len() as int, t, m),
    decreases m,
{
    if m > 0 {
        lemma_xpull_within(weights, part, side, flag, wider, t, m - 1);
        lemma_pull_subset(weights, wider, wider, part.len() as int, t, m - 1);
    }
}

/// Taking `x` into the part adds its wire from `a`, if `x` is not on the
/// marked side.
pub proof fn lemma_spill_update(weights: Seq<u128>, part: Seq<bool>, side: Seq<bool>, a: int, m: int, x: int)
    requires
        0 <= m <= part.len(),
        0 <= x < part.len(),
        !part[x],
    ensures
        spill(weights, part.update(x, true), side, a, m) == spill(weights, part, side, a, m) + (if x < m && !side[x] {
            weights[a * part.len() + x] as int
        } else {
            0
        }),
        spill(weights, part, side, a, m) >= 0,
    decreases m,
{
    if m > 0 {
        lemma_spill_update(weights, part, side, a, m - 1, x);
    }
}

/// Where weights are alike both ways, what spills from `x` is what pulls
/// at it from the other side.
pub proof fn lemma_spill_sym(weights: Seq<u128>, part: Seq<bool>, side: Seq<bool>, x: int, m: int)
    requires
        0 <= m <= part.len(),
        0 <= x < part.len(),
        even_handed(weights, part.len() as int),
    ensures
        spill(weights, part, side, x, m) == xpull(weights, part, side, false, x, m),
    decreases m,
{
    if m > 0 {
        lemma_spill_sym(weights, part, side, x, m - 1);
        assert(weights[x * part.len() + (m - 1)] == weights[(m - 1) * part.len() + x]);
    }
}

/// Taking `x` into the part adds to the cut, counted for the first `m`
/// components, the wires between `x` and the components of the part on
/// the other side.
pub proof fn lemma_vcut_update(weights: Seq<u128>, part: Seq<bool>, side: Seq<bool>, x: int, m: int)
    requires
        0 <= m <= part.len(),
        part.len() == side.len(),
        0 <= x < part.len(),
        !part[x],
        even_handed(weights, part.len() as int),
    ensures
        vcut(weights, part.update(x, true), side, m) == vcut(weights, part, side, m) + (if side[x] {
            if x < m {
                xpull(weights, part, side, false, x, part.len() as int)
            } else {
                0
            }
        } else {
            xpull(weights, part, side, true, x, m)
        }),
        vcut(weights, part, side, m) >= 0,
    decreases m,
{
    let n = part.len() as int;
    if m > 0 {
        lemma_vcut_update(weights, part, side, x, m - 1);
        lemma_spill_update(weights, part, side, m - 1, n, x);
        if m - 1 == x {
            lemma_spill_sym(weights, part, side, x, n);
        }
    }
}

/// Taking `x` into the part adds to the cut the wires between `x` and the
/// components of the part on the other side.
pub proof fn lemma_vcut_grows(weights: Seq<u128>, part: Seq<bool>, side: Seq<bool>, x: int)
    requires
        part.len() == side.len(),
        0 <= x < part.len(),
        !part[x],
        even_handed(weights, part.len() as int),
    ensures
        vcut(weights, part.update(x, true), side, part.len() as int) == vcut(
            weights,
            part,
            side,
            part.len() as int,
        ) + xpull(weights, part, side, !side[x], x, part.len() as int),
        vcut(weights, part, side, part.len() as int) >= 0,
        xpull(weights, part, side, !side[x], x, part.len() as int) >= 0,
{
    lemma_vcut_update(weights, part, side, x, part.len() as int);
    lemma_pull_split(weights, part, side, x, part.len() as int);
}

/// Whether `order` takes up the components that are there one after the
/// other, each one of those pulled at most strongly by the ones taken up
/// before it; `stages` holds the marks of those taken up before each.
pub open spec fn adjacency_order(
    weights: Seq<u128>,
    alive: Seq<bool>,
    order: Seq<usize>,
    stages: Seq<Seq<bool>>,
) -> bool {
    &&& order.len() >= 2
    &&& stages.len() == order.len() + 1
    &&& forall|i: int| 0 <= i <= order.len() ==> (#[trigger] stages[i]).len() == alive.len()
    &&& forall|x: int| 0 <= x < alive.len() ==> !stages[0][x]
    &&& forall|i: int|
        0 <= i < order.len() ==> (#[trigger] order[i]) < alive.len() && alive[order[i] as int] && !stages[i][order[i] as int]
            && stages[i + 1] == stages[i].update(order[i] as int, true)
    &&& stages[order.len() as int] == alive
    &&& forall|i: int, t: int|
        1 <= i < order.len() && 0 <= t < alive.len() && alive[t] && !stages[i][t] ==> #[trigger] pull(
            weights,
            stages[i],
            alive.len() as int,
            t,
            alive.len() as int,
        ) <= pull(weights, stages[i], alive.len() as int, order[i] as int, alive.len() as int)
}

/// Whether `order` begins an adjacency order: as `adjacency_order`, but
/// for the components taken up so far.
pub open spec fn order_so_far(weights: Seq<u128>, alive: Seq<bool>, order: Seq<usize>, stages: Seq<Seq<bool>>) -> bool {
    &&& order.len() >= 1
    &&& stages.len() == order.len() + 1
    &&& forall|i: int| 0 <= i <= order.len() ==> (#[trigger] stages[i]).len() == alive.len()
    &&& forall|x: int| 0 <= x < alive.len() ==> !stages[0][x]
    &&& forall|i: int|
        0 <= i < order.len() ==> (#[trigger] order[i]) < alive.len() && alive[order[i] as int] && !stages[i][order[i] as int]
            && stages[i + 1] == stages[i].update(order[i] as int, true)
    &&& forall|i: int, t: int|
        1 <= i < order.len() && 0 <= t < alive.len() && alive[t] && !stages[i][t] ==> #[trigger] pull(
            weights,
            stages[i],
            alive.len() as int,
            t,
            alive.len() as int,
        ) <= pull(weights, stages[i], alive.len() as int, order[i] as int, alive.len() as int)
}

/// Taking up next a component that is pulled at most strongly goes on with
/// the order.
pub proof fn lemma_order_next(
    weights: Seq<u128>,
    alive: Seq<bool>,
    order: Seq<usize>,
    stages: Seq<Seq<bool>>,
    next: usize,
)
    requires
        order_so_far(weights, alive, order, stages),
        next < alive.len(),
        alive[next as int],
        !stages[order.len() as int][next as int],
        forall|t: int|
            0 <= t < alive.len() && alive[t] && !stages[order.len() as int][t] ==> #[trigger] pull(
                weights,
                stages[order.len() as int],
                alive.len() as int,
                t,
                alive.len() as int,
            ) <= pull(weights, stages[order.len() as int], alive.len() as int, next as int, alive.len() as int),
    ensures
        order_so_far(
            weights,
            alive,
            order.push(next),
            stages.push(stages[order.len() as int].update(next as int, true)),
        ),
{
    let longer = order.push(next);
    let more = stages.push(stages[order.len() as int].update(next as int, true));
    assert forall|i: int| 0 <= i <= longer.len() implies (#[trigger] more[i]).len() == alive.len() by {
        if i <= order.len() {
            assert(more[i] == stages[i]);
        }
    }
    assert forall|i: int| 0 <= i < longer.len() implies (#[trigger] longer[i]) < alive.len() && alive[longer[i] as int]
        && !more[i][longer[i] as int] && more[i + 1] == more[i].update(longer[i] as int, true) by {
        if i < order.len() {
            assert(longer[i] == order[i]);
            assert(more[i] == stages[i]);
            assert(more[i + 1] == stages[i + 1]);
        } else {
            assert(more[i] == stages[i]);
        }
    }
    assert forall|i: int, t: int|
        1 <= i < longer.len() && 0 <= t < alive.len() && alive[t] && !more[i][t] implies #[trigger] pull(
        weights,
        more[i],
        alive.len() as int,
        t,
        alive.len() as int,
    ) <= pull(weights, more[i], alive.len() as int, longer[i] as int, alive.len() as int) by {
        assert(more[i] == stages[i]);
        if i < order.len() {
            assert(longer[i] == order[i]);
        }
    }
    assert(more[0] == stages[0]);
}

/// A component taken up by stage `j` but not by stage `i` is one of those
/// taken up in between.
pub proof fn lemma_stage_member(
    weights: Seq<u128>,
    alive: Seq<bool>,
    order: Seq<usize>,
    stages: Seq<Seq<bool>>,
    i: int,
    j: int,
    a: int,
)
    requires
        adjacency_order(weights, alive, order, stages),
        0 <= i <= j <= order.len(),
        0 <= a < alive.len(),
        stages[j][a],
        !stages[i][a],
    ensures
        exists|p: int| i <= p < j && order[p] == a,
    decreases j - i,
{
    if i < j {
        assert(stages[j] == stages[j - 1].update(order[j - 1] as int, true));
        if order[j - 1] == a {
            assert(i <= j - 1 < j && order[j - 1] == a);
        } else {
            lemma_stage_member(weights, alive, order, stages, i, j - 1, a);
            let p = choose|p: int| i <= p < j - 1 && order[p] == a;
            assert(i <= p < j && order[p] == a);
        }
    }
}

/// What is taken up by a stage stays taken up.
pub proof fn lemma_stage_keeps(
    weights: Seq<u128>,
    alive: Seq<bool>,
    order: Seq<usize>,
    stages: Seq<Seq<bool>>,
    i: int,
    j: int,
    a: int,
)
    requires
        adjacency_order(weights, alive, order, stages),
        0 <= i <= j <= order.len(),
        0 <= a < alive.len(),
        stages[i][a],
    ensures
        stages[j][a],
    decreases j - i,
{
    if i < j {
        lemma_stage_keeps(weights, alive, order, stages, i, j - 1, a);
        assert(stages[j] == stages[j - 1].update(order[j - 1] as int, true));
    }
}

/// Nothing spills less than nothing, and no cut weighs less.
pub proof fn lemma_vcut_least(weights: Seq<u128>, part: Seq<bool>, side: Seq<bool>, a: int, m: int)
    requires
        0 <= m <= part.len(),
    ensures
        spill(weights, part, side, a, m) >= 0,
        vcut(weights, part, side, m) >= 0,
    decreases m,
{
    if m > 0 {
        lemma_vcut_least(weights, part, side, a, m - 1);
        lemma_vcut_least(weights, part, side, m - 1, m - 1);
        lemma_spill_least(weights, part, side, m - 1, part.len() as int);
    }
}

/// Nothing spills less than nothing.
pub proof fn lemma_spill_least(weights: Seq<u128>, part: Seq<bool>, side: Seq<bool>, a: int, m: int)
    requires
        0 <= m <= part.len(),
    ensures
        spill(weights, part, side, a, m) >= 0,
    decreases m,
{
    if m > 0 {
        lemma_spill_least(weights, part, side, a, m - 1);
    }
}

/// The cut of a later stage weighs no less than that of an earlier one.
pub proof fn lemma_vcut_stage(
    weights: Seq<u128>,
    alive: Seq<bool>,
    order: Seq<usize>,
    stages: Seq<Seq<bool>>,
    side: Seq<bool>,
    i: int,
    j: int,
)
    requires
        adjacency_order(weights, alive, order, stages),
        even_handed(weights, alive.len() as int),
        side.len() == alive.len(),
        0 <= i <= j <= order.len(),
    ensures
        0 <= vcut(weights, stages[i], side, alive.len() as int) <= vcut(weights, stages[j], side, alive.len() as int),
    decreases j - i,
{
    if i < j {
        lemma_vcut_stage(weights, alive, order, stages, side, i, j - 1);
        assert(stages[j] == stages[j - 1].update(order[j - 1] as int, true));
        lemma_vcut_grows(weights, stages[j - 1], side, order[j - 1] as int);
    } else {
        lemma_vcut_least(weights, stages[i], side, 0, alive.len() as int);
    }
}

/// What pulls at the `j`-th component from its own side is no more than
/// the cut of the stage before it weighs, where the components from the
/// `i`-th to the one before the `j`-th are all on the other side.
pub proof fn lemma_own_side(
    weights: Seq<u128>,
    alive: Seq<bool>,
    order: Seq<usize>,
    stages: Seq<Seq<bool>>,
    side: Seq<bool>,
    j: int,
    i: int,
)
    requires
        adjacency_order(weights, alive, order, stages),
        even_handed(weights, alive.len() as int),
        side.len() == alive.len(),
        1 <= j < order.len(),
        0 <= i < j,
        forall|p: int| i <= p < j ==> side[#[trigger] order[p] as int] != side[order[j] as int],
    ensures
        xpull(weights, stages[j], side, side[order[j] as int], order[j] as int, alive.len() as int) <= vcut(
            weights,
            stages[j],
            side,
            alive.len() as int,
        ),
    decreases j, i + 1,
{
    let n = alive.len() as int;
    let x = order[j] as int;
    if i >= 1 && side[order[i - 1] as int] != side[x] {
        lemma_own_side(weights, alive, order, stages, side, j, i - 1);
    } else {
        assert forall|a: int| 0 <= a < n && stages[j][a] && side[a] == side[x] implies stages[i][a] by {
            if !stages[i][a] {
                lemma_stage_member(weights, alive, order, stages, i, j, a);
            }
        }
        lemma_xpull_within(weights, stages[j], side, side[x], stages[i], x, n);
        if i == 0 {
            crate::day25::lemma_pull_none(weights, stages[0], n, x, n);
            lemma_vcut_stage(weights, alive, order, stages, side, 0, j);
        } else {
            if stages[i][x] {
                lemma_stage_keeps(weights, alive, order, stages, i, j, x);
            }
            assert(pull(weights, stages[i], n, x, n) <= pull(weights, stages[i], n, order[i] as int, n));
            assert(side[order[i] as int] != side[order[i - 1] as int]);
            lemma_active(weights, alive, order, stages, side, i);
            lemma_vcut_stage(weights, alive, order, stages, side, i + 1, j);
        }
    }
}

/// Where the `j`-th component is on the other side than the one before it,
/// what pulls at it from those taken up before is no more than the cut of
/// the stage with it weighs.
pub proof fn lemma_active(
    weights: Seq<u128>,
    alive: Seq<bool>,
    order: Seq<usize>,
    stages: Seq<Seq<bool>>,
    side: Seq<bool>,
    j: int,
)
    requires
        adjacency_order(weights, alive, order, stages),
        even_handed(weights, alive.len() as int),
        side.len() == alive.len(),
        1 <= j < order.len(),
        side[order[j] as int] != side[order[j - 1] as int],
    ensures
        pull(weights, stages[j], alive.len() as int, order[j] as int, alive.len() as int) <= vcut(
            weights,
            stages[j + 1],
            side,
            alive.len() as int,
        ),
    decreases j, j + 1,
{
    let n = alive.len() as int;
    let x = order[j] as int;
    lemma_own_side(weights, alive, order, stages, side, j, j - 1);
    lemma_pull_split(weights, stages[j], side, x, n);
    assert(stages[j + 1] == stages[j].update(x, true));
    lemma_vcut_grows(weights, stages[j], side, x);
}

/// The cut that a phase ends with is a lightest one between its last two
/// components: what pulls at the last component from all others is no
/// more than any cut weighs that has the last two on different sides.
pub proof fn lemma_phase(
    weights: Seq<u128>,
    alive: Seq<bool>,
    order: Seq<usize>,
    stages: Seq<Seq<bool>>,
    side: Seq<bool>,
)
    requires
        adjacency_order(weights, alive, order, stages),
        even_handed(weights, alive.len() as int),
        side.len() == alive.len(),
        side[order[order.len() - 1] as int] != side[order[order.len() - 2] as int],
    ensures
        pull(
            weights,
            stages[order.len() - 1],
            alive.len() as int,
            order[order.len() - 1] as int,
            alive.len() as int,
        ) <= vcut(weights, alive, side, alive.len() as int),
{
    lemma_active(weights, alive, order, stages, side, order.len() - 1);
}

/// After a merge of two components on the marked side, nothing else
/// spills from any other component than did, and from `u` spills what
/// spilled from the two.
pub proof fn lemma_spill_marked(
    after: Seq<u128>,
    weights: Seq<u128>,
    alive: Seq<bool>,
    side: Seq<bool>,
    u: int,
    v: int,
    a: int,
    m: int,
)
    requires
        merged_as(after, weights, alive, u, v),
        side.len() == alive.len(),
        0 <= u < alive.len(),
        0 <= v < alive.len(),
        u != v,
        alive[u],
        alive[v],
        side[u],
        side[v],
        0 <= a < alive.len(),
        0 <= m <= alive.len(),
    ensures
        spill(after, alive.update(v, false), side, a, m) == spill(weights, alive, side, a, m) + (if a == u {
            spill(weights, alive, side, v, m)
        } else {
            0
        }),
    decreases m,
{
    let n = alive.len() as int;
    if m > 0 {
        lemma_spill_marked(after, weights, alive, side, u, v, a, m - 1);
        assert(after[a * n + (m - 1)] == merged_cell(weights, alive, u, v, n, a, m - 1));
    }
}

/// After a merge of two components on the other side, what spills from a
/// component that is there is what spilled: what went to `v` goes to `u`.
pub proof fn lemma_spill_other(
    after: Seq<u128>,
    weights: Seq<u128>,
    alive: Seq<bool>,
    side: Seq<bool>,
    u: int,
    v: int,
    a: int,
    m: int,
)
    requires
        merged_as(after, weights, alive, u, v),
        even_handed(weights, alive.len() as int),
        side.len() == alive.len(),
        0 <= u < alive.len(),
        0 <= v < alive.len(),
        u != v,
        alive[u],
        alive[v],
        !side[u],
        !side[v],
        0 <= a < alive.len(),
        alive[a],
        a != u,
        a != v,
        0 <= m <= alive.len(),
    ensures
        spill(after, alive.update(v, false), side, a, m) == spill(weights, alive, side, a, m) + (if u < m {
            weights[a * alive.len() + v] as int
        } else {
            0
        }) - (if v < m {
            weights[a * alive.len() + v] as int
        } else {
            0
        }),
    decreases m,
{
    let n = alive.len() as int;
    if m > 0 {
        lemma_spill_other(after, weights, alive, side, u, v, a, m - 1);
        assert(after[a * n + (m - 1)] == merged_cell(weights, alive, u, v, n, a, m - 1));
        assert(weights[a * n + u] == weights[u * n + a]);
        assert(weights[a * n + v] == weights[v * n + a]);
    }
}

/// A merge of two components on one side leaves the weight of the cut,
/// counted for the first `m` components, but for what spilled from `v`.
pub proof fn lemma_vcut_merge_upto(
    after: Seq<u128>,
    weights: Seq<u128>,
    alive: Seq<bool>,
    side: Seq<bool>,
    u: int,
    v: int,
    m: int,
)
    requires
        merged_as(after, weights, alive, u, v),
        even_handed(weights, alive.len() as int),
        side.len() == alive.len(),
        0 <= u < alive.len(),
        0 <= v < alive.len(),
        u != v,
        alive[u],
        alive[v],
        side[u] == side[v],
        0 <= m <= alive.len(),
    ensures
        vcut(after, alive.update(v, false), side, m) == vcut(weights, alive, side, m) + (if side[u] && u < m {
            spill(weights, alive, side, v, alive.len() as int)
        } else {
            0
        }) - (if side[u] && v < m {
            spill(weights, alive, side, v, alive.len() as int)
        } else {
            0
        }),
    decreases m,
{
    let n = alive.len() as int;
    if m > 0 {
        lemma_vcut_merge_upto(after, weights, alive, side, u, v, m - 1);
        let a = m - 1;
        if side[u] {
            lemma_spill_marked(after, weights, alive, side, u, v, a, n);
        } else if alive[a] && side[a] {
            lemma_spill_other(after, weights, alive, side, u, v, a, n);
        }
    }
}

/// At the outset the cut of all components by a side weighs what the side
/// cuts of the wires.
pub proof fn lemma_cut_is_vcut(g: GraphView, side: Seq<bool>, k: int)
    requires
        side.len() == g.names.len(),
        0 <= k <= g.names.len(),
    ensures
        cut_upto(g, side, k) == vcut(wire_weights(g), all_there(g.names.len()), side, k),
    decreases k,
{
    if k > 0 {
        lemma_cut_is_vcut(g, side, k - 1);
        lemma_row_is_spill(g, side, k - 1, g.names.len() as int);
    }
}

/// At the outset what spills from a component on the marked side is the
/// number of its wires that the side cuts.
pub proof fn lemma_row_is_spill(g: GraphView, side: Seq<bool>, x: int, m: int)
    requires
        side.len() == g.names.len(),
        0 <= x < g.names.len(),
        0 <= m <= g.names.len(),
    ensures
        row_cut(g, side, x, m) == (if side[x] {
            spill(wire_weights(g), all_there(g.names.len()), side, x, m)
        } else {
            0
        }),
    decreases m,
{
    if m > 0 {
        lemma_row_is_spill(g, side, x, m - 1);
        lemma_wire_cell(g, x, m - 1);
    }
}

/// The cut by a side that holds `v` alone of the components that are there
/// weighs what pulls at `v` from all the others.
pub proof fn lemma_single_cut(weights: Seq<u128>, alive: Seq<bool>, side: Seq<bool>, v: int, m: int)
    requires
        even_handed(weights, alive.len() as int),
        side.len() == alive.len(),
        0 <= v < alive.len(),
        alive[v],
        forall|x: int| 0 <= x < alive.len() && alive[x] ==> (side[x] <==> x == v),
        0 <= m <= alive.len(),
    ensures
        vcut(weights, alive, side, m) == (if v < m {
            pull(weights, alive.update(v, false), alive.len() as int, v, alive.len() as int)
        } else {
            0
        }),
    decreases m,
{
    let n = alive.len() as int;
    if m > 0 {
        lemma_single_cut(weights, alive, side, v, m - 1);
        if m - 1 == v {
            lemma_spill_sym(weights, alive, side, v, n);
            lemma_others_pull(weights, alive, side, v, n);
        }
    }
}

/// What pulls at `v` from the other side, where `v` alone is on the marked
/// side, is what pulls at it from all the others.
pub proof fn lemma_others_pull(weights: Seq<u128>, alive: Seq<bool>, side: Seq<bool>, v: int, m: int)
    requires
        side.len() == alive.len(),
        0 <= v < alive.len(),
        forall|x: int| 0 <= x < alive.len() && alive[x] ==> (side[x] <==> x == v),
        0 <= m <= alive.len(),
    ensures
        xpull(weights, alive, side, false, v, m) == pull(weights, alive.update(v, false), alive.len() as int, v, m),
    decreases m,
{
    if m > 0 {
        lemma_others_pull(weights, alive, side, v, m - 1);
    }
}

/// Whether the side holds, with each component, its owner: it parts no
/// components that were merged.
pub open spec fn compat(side: Seq<bool>, owner: Seq<usize>) -> bool {
    side.len() == owner.len() && forall|x: int|
        0 <= x < owner.len() ==> (#[trigger] owner[x]) < owner.len() && side[x] == side[owner[x] as int]
}

/// Whether the side holds some component and lacks some.
pub open spec fn two_sided(side: Seq<bool>) -> bool {
    (exists|x: int| 0 <= x < side.len() && side[x]) && (exists|y: int| 0 <= y < side.len() && !side[y])
}

/// Whether every component is owned by one that is there, and every one
/// that is there by itself.
pub open spec fn owner_sound(owner: Seq<usize>, alive: Seq<bool>) -> bool {
    owner.len() == alive.len() && forall|x: int|
        0 <= x < owner.len() ==> (#[trigger] owner[x]) < owner.len() && alive[owner[x] as int] && (alive[x]
            ==> owner[x] == x)
}

/// Whether the weights tell what every side cuts that parts no merged
/// components: it cuts as many wires as its cut of the components that are
/// there weighs.
#[verifier::opaque]
pub open spec fn cuts_known(g: GraphView, weights: Seq<u128>, alive: Seq<bool>, owner: Seq<usize>) -> bool {
    &&& alive.len() == g.names.len()
    &&& even_handed(weights, alive.len() as int)
    &&& forall|side: Seq<bool>| #[trigger]
        compat(side, owner) ==> cut_weight(g, side) == vcut(weights, alive, side, alive.len() as int)
}

/// Whether every side that parts merged components cuts at least `best`
/// wires.
#[verifier::opaque]
pub open spec fn light(g: GraphView, owner: Seq<usize>, best: int) -> bool {
    forall|side: Seq<bool>|
        side.len() == owner.len() && two_sided(side) && !#[trigger] compat(side, owner) ==> best <= cut_weight(
            g,
            side,
        )
}

/// At the outset, with every component its own owner, the weights tell
/// what every side cuts, and no side parts merged components.
pub proof fn lemma_known_start(g: GraphView, best: int)
    requires
        both_ways(g),
        g.names.len() <= usize::MAX,
    ensures
        cuts_known(g, wire_weights(g), all_there(g.names.len()), own_start(g.names.len())),
        light(g, own_start(g.names.len()), best),
        owner_sound(own_start(g.names.len()), all_there(g.names.len())),
{
    reveal(cuts_known);
    reveal(light);
    let n = g.names.len() as int;
    let weights = wire_weights(g);
    assert forall|a: int, t: int| 0 <= a < n && 0 <= t < n implies #[trigger] weights[a * n + t] == weights[t * n
        + a] by {
        lemma_wire_cell(g, a, t);
        lemma_wire_cell(g, t, a);
        assert(g.wired(a, t) <==> g.wired(t, a));
    }
    assert forall|side: Seq<bool>| #[trigger] compat(side, own_start(g.names.len())) implies cut_weight(g, side)
        == vcut(weights, all_there(g.names.len()), side, n) by {
        lemma_cut_is_vcut(g, side, n);
    }
}

/// The side of what `v` owns cuts as many wires as pull at `v` from all
/// other components that are there.
pub proof fn lemma_known_cut(g: GraphView, weights: Seq<u128>, alive: Seq<bool>, owner: Seq<usize>, v: usize)
    requires
        cuts_known(g, weights, alive, owner),
        owner_sound(owner, alive),
        0 <= v < alive.len(),
        alive[v as int],
    ensures
        cut_weight(g, owned_by(owner, v)) == pull(
            weights,
            alive.update(v as int, false),
            alive.len() as int,
            v as int,
            alive.len() as int,
        ),
{
    reveal(cuts_known);
    let side = owned_by(owner, v);
    assert(compat(side, owner)) by {
        assert forall|x: int| 0 <= x < owner.len() implies (#[trigger] owner[x]) < owner.len() && side[x]
            == side[owner[x] as int] by {
            assert(owner[owner[x] as int] == owner[x]);
        }
    }
    assert forall|x: int| 0 <= x < alive.len() && alive[x] implies (side[x] <==> x == v) by {
        assert(owner[x] == x);
    }
    lemma_single_cut(weights, alive, side, v as int, alive.len() as int);
}

/// After a phase, every side that parts components merged by then or the
/// last two of the phase cuts at least as many wires as the lighter of
/// `best` and the cut that the phase ends with.
pub proof fn lemma_light_phase(
    g: GraphView,
    weights: Seq<u128>,
    alive: Seq<bool>,
    owner: Seq<usize>,
    best: int,
    order: Seq<usize>,
    stages: Seq<Seq<bool>>,
    lighter: int,
)
    requires
        cuts_known(g, weights, alive, owner),
        light(g, owner, best),
        owner_sound(owner, alive),
        adjacency_order(weights, alive, order, stages),
        lighter <= best,
        lighter <= pull(
            weights,
            stages[order.len() - 1],
            alive.len() as int,
            order[order.len() - 1] as int,
            alive.len() as int,
        ),
    ensures
        light(g, moved_owner(owner, order[order.len() - 2], order[order.len() - 1]), lighter),
{
    reveal(cuts_known);
    reveal(light);
    let u = order[order.len() - 2];
    let v = order[order.len() - 1];
    let after = moved_owner(owner, u, v);
    assert forall|side: Seq<bool>|
        side.len() == after.len() && two_sided(side) && !#[trigger] compat(side, after) implies lighter <= cut_weight(
        g,
        side,
    ) by {
        if compat(side, owner) {
            if side[u as int] == side[v as int] {
                assert forall|x: int| 0 <= x < after.len() implies (#[trigger] after[x]) < after.len() && side[x]
                    == side[after[x] as int] by {
                    assert(owner[x] < owner.len() && side[x] == side[owner[x] as int]);
                }
                assert(compat(side, after));
            }
            lemma_phase(weights, alive, order, stages, side);
        }
    }
}

/// After a merge of the last two components of a phase, the weights tell
/// again what every side cuts that parts no merged components.
pub proof fn lemma_known_merge(
    g: GraphView,
    weights: Seq<u128>,
    alive: Seq<bool>,
    owner: Seq<usize>,
    after: Seq<u128>,
    first: usize,
    second: usize,
)
    requires
        cuts_known(g, weights, alive, owner),
        owner_sound(owner, alive),
        merged_as(after, weights, alive, first as int, second as int),
        0 <= first < alive.len(),
        0 <= second < alive.len(),
        first != second,
        alive[first as int],
        alive[second as int],
    ensures
        cuts_known(g, after, alive.update(second as int, false), moved_owner(owner, first, second)),
        owner_sound(moved_owner(owner, first, second), alive.update(second as int, false)),
{
    reveal(cuts_known);
    let n = alive.len() as int;
    let u = first as int;
    let v = second as int;
    let moved = moved_owner(owner, first, second);
    assert forall|x: int| 0 <= x < moved.len() implies (#[trigger] moved[x]) < moved.len() && alive.update(
        v,
        false,
    )[moved[x] as int] && (alive.update(v, false)[x] ==> moved[x] == x) by {
        assert(owner[x] < owner.len());
    }
    assert forall|a: int, t: int| 0 <= a < n && 0 <= t < n implies #[trigger] after[a * n + t] == after[t * n + a] by {
        assert(after[a * n + t] == merged_cell(weights, alive, u, v, n, a, t));
        assert(after[t * n + a] == merged_cell(weights, alive, u, v, n, t, a));
        assert(weights[a * n + t] == weights[t * n + a]);
    }
    assert forall|side: Seq<bool>| #[trigger] compat(side, moved) implies cut_weight(g, side) == vcut(
        after,
        alive.update(v, false),
        side,
        n,
    ) by {
        assert(moved[u] == u && moved[v] == u);
        assert(side[v] == side[moved[v] as int]);
        assert forall|x: int| 0 <= x < owner.len() implies (#[trigger] owner[x]) < owner.len() && side[x]
            == side[owner[x] as int] by {
            assert(moved[x] < moved.len() && side[x] == side[moved[x] as int]);
        }
        assert(compat(side, owner));
        lemma_vcut_merge_upto(after, weights, alive, side, u, v, n);
    }
}

/// Once one component owns all, every side that holds some component and
/// lacks some cuts at least `best` wires.
pub proof fn lemma_light_all(g: GraphView, owner: Seq<usize>, best: int, rep: usize)
    requires
        light(g, owner, best),
        rep < owner.len(),
        forall|x: int| 0 <= x < owner.len() ==> owner[x] == rep,
    ensures
        forall|side: Seq<bool>| side.len() == owner.len() && #[trigger] two_sided(side) ==> best <= cut_weight(g, side),
{
    reveal(light);
    assert forall|side: Seq<bool>| side.len() == owner.len() && #[trigger] two_sided(side) implies best <= cut_weight(
        g,
        side,
    ) by {
        if compat(side, owner) {
            let x = choose|x: int| 0 <= x < side.len() && side[x];
            let y = choose|y: int| 0 <= y < side.len() && !side[y];
            assert(side[x] == side[owner[x] as int]);
            assert(side[y] == side[owner[y] as int]);
        }
    }
}

/// After a merge, every component is owned by one that is there, and
/// every one that is there by itself.
pub proof fn lemma_owner_moved(owner: Seq<usize>, alive: Seq<bool>, first: usize, second: usize)
    requires
        owner_sound(owner, alive),
        first < alive.len(),
        second < alive.len(),
        first != second,
        alive[first as int],
        alive[second as int],
    ensures
        owner_sound(moved_owner(owner, first, second), alive.update(second as int, false)),
        moved_owner(owner, first, second).len() == owner.len(),
{
    let moved = moved_owner(owner, first, second);
    assert forall|x: int| 0 <= x < moved.len() implies (#[trigger] moved[x]) < moved.len() && alive.update(
        second as int,
        false,
    )[moved[x] as int] && (alive.update(second as int, false)[x] ==> moved[x] == x) by {
        assert(owner[x] < owner.len());
    }
}

/// Where only the last two components of a phase are there, merging them
/// leaves all components with one owner.
pub proof fn lemma_owner_last(owner: Seq<usize>, alive: Seq<bool>, first: usize, second: usize)
    requires
        owner_sound(owner, alive),
        first < alive.len(),
        second < alive.len(),
        forall|x: int| 0 <= x < alive.len() && alive[x] ==> x == first || x == second,
    ensures
        forall|x: int| 0 <= x < owner.len() ==> moved_owner(owner, first, second)[x] == first,
        moved_owner(owner, first, second).len() == owner.len(),
{
    assert forall|x: int| 0 <= x < owner.len() implies moved_owner(owner, first, second)[x] == first by {
        assert(owner[x] < owner.len() && alive[owner[x] as int]);
    }
}

} // verus!
