//! Best-first search over states that are given by numbers.

use crate::queue::{is_top, queue_change_priority, queue_entries, queue_new, queue_pop, queue_push};
use priority_queue::PriorityQueue;
use std::collections::hash_map::RandomState;
use std::collections::HashMap;
use vstd::prelude::*;

verus! {

/// Whether `successors` can report a step from `from` to `to` at `cost`.
pub open spec fn step<S: Fn(&u64) -> Vec<(u64, u64)>>(successors: S, from: u64, cost: u64, to: u64) -> bool {
    exists|r: Vec<(u64, u64)>| #[trigger] successors.ensures((&from,), r) && r@.contains((cost, to))
}

/// Whether `states` is a walk along steps with the given costs.
pub open spec fn walk<S: Fn(&u64) -> Vec<(u64, u64)>>(successors: S, states: Seq<u64>, costs: Seq<u64>) -> bool {
    states.len() == costs.len() + 1 && forall|i: int|
        0 <= i < costs.len() ==> step(successors, #[trigger] states[i], costs[i], states[i + 1])
}

/// The sum of the costs.
pub open spec fn total(costs: Seq<u64>) -> int
    decreases costs.len(),
{
    if costs.len() == 0 {
        0
    } else {
        total(costs.drop_last()) + costs.last()
    }
}

/// Whether some walk from an initial state ends in `state` and costs `cost`
/// in all.
pub open spec fn reaches<S: Fn(&u64) -> Vec<(u64, u64)>>(
    successors: S,
    initial: Seq<u64>,
    state: u64,
    cost: int,
) -> bool {
    exists|states: Seq<u64>, costs: Seq<u64>| #[trigger]
        walk(successors, states, costs) && initial.contains(states[0]) && states.last() == state && total(
            costs,
        ) == cost
}

/// Whether `successors` cannot but report a step from `from` to `to` at
/// `cost`.
pub open spec fn sure_step<S: Fn(&u64) -> Vec<(u64, u64)>>(successors: S, from: u64, cost: u64, to: u64) -> bool {
    forall|r: Vec<(u64, u64)>| #[trigger] successors.ensures((&from,), r) ==> r@.contains((cost, to))
}

/// Whether `states` is a walk along sure steps with the given costs.
pub open spec fn sure_walk<S: Fn(&u64) -> Vec<(u64, u64)>>(
    successors: S,
    states: Seq<u64>,
    costs: Seq<u64>,
) -> bool {
    states.len() == costs.len() + 1 && forall|i: int|
        0 <= i < costs.len() ==> sure_step(successors, #[trigger] states[i], costs[i], states[i + 1])
}

/// Whether some walk along sure steps from an initial state ends in `state`
/// and costs `cost` in all.
pub open spec fn surely_reaches<S: Fn(&u64) -> Vec<(u64, u64)>>(
    successors: S,
    initial: Seq<u64>,
    state: u64,
    cost: int,
) -> bool {
    exists|states: Seq<u64>, costs: Seq<u64>| #[trigger]
        sure_walk(successors, states, costs) && initial.contains(states[0]) && states.last() == state
            && total(costs) == cost
}

/// An initial state is reached at no cost.
pub proof fn lemma_reaches_initial<S: Fn(&u64) -> Vec<(u64, u64)>>(successors: S, initial: Seq<u64>, state: u64)
    requires
        initial.contains(state),
    ensures
        reaches(successors, initial, state, 0),
{
    let states = seq![state];
    let costs = Seq::<u64>::empty();
    assert(walk(successors, states, costs));
    assert(states[0] == state);
}

/// A step from a state that is reached reaches its end, at the sum of the
/// costs.
pub proof fn lemma_reaches_step<S: Fn(&u64) -> Vec<(u64, u64)>>(
    successors: S,
    initial: Seq<u64>,
    from: u64,
    so_far: int,
    cost: u64,
    to: u64,
)
    requires
        reaches(successors, initial, from, so_far),
        step(successors, from, cost, to),
    ensures
        reaches(successors, initial, to, so_far + cost),
{
    let (states, costs) = choose|states: Seq<u64>, costs: Seq<u64>| #[trigger]
        walk(successors, states, costs) && initial.contains(states[0]) && states.last() == from && total(
            costs,
        ) == so_far;
    let longer = states.push(to);
    let dearer = costs.push(cost);
    assert forall|i: int| 0 <= i < dearer.len() implies step(
        successors,
        #[trigger] longer[i],
        dearer[i],
        longer[i + 1],
    ) by {
        if i < costs.len() {
            assert(longer[i] == states[i]);
            assert(step(successors, states[i], costs[i], states[i + 1]));
        }
    }
    assert(walk(successors, longer, dearer));
    assert(dearer.drop_last() =~= costs);
    assert(longer[0] == states[0]);
}

/// A set of states that holds the initial states and is closed under steps
/// holds every state of a walk.
pub proof fn lemma_closed_holds_walk<S: Fn(&u64) -> Vec<(u64, u64)>>(
    successors: S,
    initial: Seq<u64>,
    seen: Set<u64>,
    states: Seq<u64>,
    costs: Seq<u64>,
    i: int,
)
    requires
        sure_walk(successors, states, costs),
        initial.contains(states[0]),
        forall|s: u64| initial.contains(s) ==> seen.contains(s),
        forall|s: u64, c: u64, t: u64|
            seen.contains(s) && #[trigger] sure_step(successors, s, c, t) ==> seen.contains(t),
        0 <= i < states.len(),
    ensures
        seen.contains(states[i]),
    decreases i,
{
    if i > 0 {
        lemma_closed_holds_walk(successors, initial, seen, states, costs, i - 1);
        assert(sure_step(successors, states[i - 1], costs[i - 1], states[i]));
    }
}

/// The greatest cost of one step.
pub const STEP_MAX: u128 = 0xffff_ffff_ffff_ffff;

/// Whether every cost on record is that of a walk to its state, and small
/// enough to be added to.
pub open spec fn costs_sound<S: Fn(&u64) -> Vec<(u64, u64)>>(
    successors: S,
    initial: Seq<u64>,
    infos: Map<u64, u128>,
) -> bool {
    forall|s: u64| #[trigger]
        infos.contains_key(s) ==> reaches(successors, initial, s, infos[s] as int) && infos[s] <= STEP_MAX * (
        infos.dom().len() - 1)
}

/// Whether the states on record that are no longer in the queue, other than
/// `current`, were found to be no goals and surely step only to states on
/// record.
pub open spec fn closed_done<S: Fn(&u64) -> Vec<(u64, u64)>, G: Fn(&u64) -> bool>(
    successors: S,
    is_goal: G,
    seen: Set<u64>,
    queued: Set<u64>,
    current: Option<u64>,
) -> bool {
    forall|s: u64| #[trigger]
        seen.contains(s) && !queued.contains(s) && current != Some(s) ==> is_goal.ensures((&s,), false)
            && forall|c: u64, t: u64| #[trigger] sure_step(successors, s, c, t) ==> seen.contains(t)
}

/// Searches from the initial states for a goal, always going on from a state
/// that looks cheapest: the cost of getting there plus the estimate that
/// `heuristic` gives for the rest. A state counts as explored once it has
/// been taken up, and is not taken up again.
///
/// A cost that is returned is the cost of a walk from an initial state to a
/// goal, and where the search is well guided, no walk to a goal costs less.
/// When nothing is returned, every state to which a walk along sure steps
/// leads was found to be no goal.
pub fn a_star_search<S, G, H>(initial_states: &[u64], get_successors: S, is_goal: G, heuristic: H) -> (r: Option<
    u128,
>) where S: Fn(&u64) -> Vec<(u64, u64)>, G: Fn(&u64) -> bool, H: Fn(&u64) -> u64
    requires
        forall|s: u64| #[trigger] get_successors.requires((&s,)),
        forall|s: u64| #[trigger] is_goal.requires((&s,)),
        forall|s: u64| #[trigger] heuristic.requires((&s,)),
    ensures
        r matches Some(cost) ==> exists|goal: u64| #[trigger]
            is_goal.ensures((&goal,), true) && reaches(get_successors, initial_states@, goal, cost as int),
        r is None ==> forall|goal: u64, cost: int| #[trigger]
            surely_reaches(get_successors, initial_states@, goal, cost) ==> is_goal.ensures((&goal,), false),
        forall|m: Model, goal: u64, other: int|
            #![trigger fits(m, get_successors, is_goal, heuristic), arrives(m, initial_states@, goal, other)]
            r is Some && fits(m, get_successors, is_goal, heuristic) && (m.goals)(goal) && arrives(
                m,
                initial_states@,
                goal,
                other,
            ) ==> r.unwrap() <= other,
{
    let ghost initial = initial_states@;
    let mut frontier = queue_new();
    let mut state_infos: HashMap<u64, u128> = HashMap::new();
    let mut i: usize = 0;
    while i < initial_states.len()
        invariant
            i <= initial_states.len(),
            initial == initial_states@,
            forall|s: u64| #[trigger] heuristic.requires((&s,)),
            queue_entries(frontier).dom().finite(),
            queue_entries(frontier).dom() =~= state_infos@.dom(),
            forall|k: int| 0 <= k < i ==> state_infos@.contains_key(#[trigger] initial[k]),
            forall|s: u64| #[trigger] state_infos@.contains_key(s) ==> initial.contains(s) && state_infos@[s] == 0,
            forall|m: Model, s: u64|
                #![trigger fits(m, get_successors, is_goal, heuristic), queue_entries(frontier).contains_key(s)]
                fits(m, get_successors, is_goal, heuristic) && queue_entries(frontier).contains_key(s)
                    ==> queue_entries(frontier)[s] == u128::MAX - (m.estimate)(s),
        decreases initial_states.len() - i,
    {
        let state = initial_states[i];
        let h = heuristic(&state);
        queue_push(&mut frontier, state, u128::MAX - (h as u128));
        state_infos.insert(state, 0);
        i = i + 1;
    }
    let discovered = state_infos.len();
    proof {
        assert forall|m: Model| #[trigger] fits(m, get_successors, is_goal, heuristic) implies course(
            m,
            initial,
            state_infos@,
            queue_entries(frontier),
            None,
            Seq::empty(),
        ) by {
            lemma_start(m, initial, state_infos@, queue_entries(frontier));
        }
        assert forall|s: u64| #[trigger] state_infos@.contains_key(s) implies reaches(
            get_successors,
            initial,
            s,
            state_infos@[s] as int,
        ) && state_infos@[s] <= STEP_MAX * (state_infos@.dom().len() - 1) by {
            lemma_reaches_initial(get_successors, initial, s);
            assert(state_infos@.dom().len() >= 1) by {
                if state_infos@.dom().len() == 0 {
                    assert(state_infos@.dom() =~= Set::<u64>::empty());
                }
            }
        }
    }
    loop
        invariant
            initial == initial_states@,
            forall|s: u64| #[trigger] get_successors.requires((&s,)),
            forall|s: u64| #[trigger] is_goal.requires((&s,)),
            forall|s: u64| #[trigger] heuristic.requires((&s,)),
            queue_entries(frontier).dom().finite(),
            queue_entries(frontier).dom().subset_of(state_infos@.dom()),
            state_infos@.dom().len() <= usize::MAX,
            costs_sound(get_successors, initial, state_infos@),
            forall|k: int| 0 <= k < initial.len() ==> state_infos@.contains_key(#[trigger] initial[k]),
            closed_done(get_successors, is_goal, state_infos@.dom(), queue_entries(frontier).dom(), None),
            forall|m: Model| #[trigger]
                fits(m, get_successors, is_goal, heuristic) ==> course(
                    m,
                    initial,
                    state_infos@,
                    queue_entries(frontier),
                    None,
                    Seq::empty(),
                ),
        decreases 2 * (usize::MAX - state_infos@.dom().len()) + queue_entries(frontier).dom().len(),
    {
        let ghost measure = 2 * (usize::MAX - state_infos@.dom().len()) + queue_entries(frontier).dom().len();
        let ghost waiting = queue_entries(frontier);
        let (state, _) = match queue_pop(&mut frontier) {
            None => {
                proof {
                    lemma_nothing_left(
                        get_successors,
                        is_goal,
                        initial,
                        state_infos@.dom(),
                        queue_entries(frontier).dom(),
                    );
                }
                return None;
            },
            Some(top) => top,
        };
        assert(state_infos@.contains_key(state));
        let state_cost: u128 = *state_infos.get(&state).unwrap();
        proof {
            assert forall|p: u64| #[trigger] closed(state_infos@, waiting, p) implies is_goal.ensures((&p,), false) by {
                assert(state_infos@.dom().contains(p) && !waiting.dom().contains(p));
            }
            assert forall|m: Model| #[trigger] fits(m, get_successors, is_goal, heuristic) implies course(
                m,
                initial,
                state_infos@,
                queue_entries(frontier),
                Some(state),
                Seq::empty(),
            ) && (forall|goal: u64, other: int|
                (m.goals)(goal) && #[trigger] arrives(m, initial, goal, other) ==> state_cost <= other) by {
                lemma_goal(m, get_successors, is_goal, heuristic, initial, state_infos@, waiting, state);
                lemma_pop(m, get_successors, is_goal, heuristic, initial, state_infos@, waiting, state);
            }
        }
        if is_goal(&state) {
            return Some(state_cost);
        }
        let successors = get_successors(&state);
        let mut j: usize = 0;
        assert(successors@.take(0) =~= Seq::<(u64, u64)>::empty());
        while j < successors.len()
            invariant
                j <= successors.len(),
                initial == initial_states@,
                    forall|s: u64| #[trigger] heuristic.requires((&s,)),
                get_successors.ensures((&state,), successors),
                is_goal.ensures((&state,), false),
                queue_entries(frontier).dom().finite(),
                queue_entries(frontier).dom().subset_of(state_infos@.dom()),
                !queue_entries(frontier).contains_key(state),
                state_infos@.contains_key(state),
                state_infos@[state] == state_cost,
                forall|s: u64| #[trigger] is_goal.requires((&s,)),
                forall|m: Model| #[trigger]
                    fits(m, get_successors, is_goal, heuristic) ==> course(
                        m,
                        initial,
                        state_infos@,
                        queue_entries(frontier),
                        Some(state),
                        successors@.take(j as int),
                    ),
                reaches(get_successors, initial, state, state_cost as int),
                state_cost <= STEP_MAX * (state_infos@.dom().len() - 1),
                state_infos@.dom().len() <= usize::MAX,
                costs_sound(get_successors, initial, state_infos@),
                forall|k: int| 0 <= k < initial.len() ==> state_infos@.contains_key(#[trigger] initial[k]),
                forall|k: int| 0 <= k < j ==> state_infos@.contains_key((#[trigger] successors@[k]).1),
                closed_done(get_successors, is_goal, state_infos@.dom(), queue_entries(frontier).dom(), Some(state)),
                2 * (usize::MAX - state_infos@.dom().len()) + queue_entries(frontier).dom().len() < measure,
            decreases successors.len() - j,
        {
            let (state_to_succ_cost, successor) = successors[j];
            let tentative_cost: u128 = state_cost + state_to_succ_cost as u128;
            proof {
                assert(successors@.contains((state_to_succ_cost, successor)));
                assert(step(get_successors, state, state_to_succ_cost, successor));
                lemma_reaches_step(
                    get_successors,
                    initial,
                    state,
                    state_cost as int,
                    state_to_succ_cost,
                    successor,
                );
            }
            let known: Option<u128> = match state_infos.get(&successor) {
                Some(cost) => Some(*cost),
                None => None,
            };
            let ghost done = successors@.take(j as int);
            assert(successors@.take(j + 1) =~= done.push((state_to_succ_cost, successor)));
            match known {
                Some(succ_cost) => {
                    if succ_cost > tentative_cost {
                        let ghost before = state_infos@;
                        let ghost queued = queue_entries(frontier);
                        state_infos.insert(successor, tentative_cost);
                        assert(state_infos@.dom() =~= before.dom());
                        let estimate = heuristic(&successor);
                        queue_change_priority(
                            &mut frontier,
                            successor,
                            u128::MAX - (tentative_cost + estimate as u128),
                        );
                        proof {
                            assert forall|m: Model| #[trigger]
                                fits(m, get_successors, is_goal, heuristic) implies course(
                                m,
                                initial,
                                state_infos@,
                                queue_entries(frontier),
                                Some(state),
                                successors@.take(j + 1),
                            ) by {
                                lemma_relax_lower(
                                    m,
                                    initial,
                                    before,
                                    queued,
                                    state,
                                    done,
                                    state_to_succ_cost,
                                    successor,
                                );
                            }
                        }
                    } else {
                        proof {
                            assert forall|m: Model| #[trigger]
                                fits(m, get_successors, is_goal, heuristic) implies course(
                                m,
                                initial,
                                state_infos@,
                                queue_entries(frontier),
                                Some(state),
                                successors@.take(j + 1),
                            ) by {
                                lemma_relax_same(
                                    m,
                                    initial,
                                    state_infos@,
                                    queue_entries(frontier),
                                    state,
                                    done,
                                    state_to_succ_cost,
                                    successor,
                                );
                            }
                        }
                    }
                },
                None => {
                    let ghost before = state_infos@;
                    let ghost queued = queue_entries(frontier);
                    state_infos.insert(successor, tentative_cost);
                    let size = state_infos.len();
                    assert(state_infos@.dom() =~= before.dom().insert(successor));
                    let estimate = heuristic(&successor);
                    queue_push(&mut frontier, successor, u128::MAX - (tentative_cost + estimate as u128));
                    assert(queue_entries(frontier).dom() =~= queued.dom().insert(successor));
                    proof {
                        assert forall|m: Model| #[trigger] fits(m, get_successors, is_goal, heuristic) implies course(
                            m,
                            initial,
                            state_infos@,
                            queue_entries(frontier),
                            Some(state),
                            successors@.take(j + 1),
                        ) by {
                            lemma_relax_new(m, initial, before, queued, state, done, state_to_succ_cost, successor);
                        }
                    }
                },
            }
            j = j + 1;
        }
        proof {
            lemma_all_steps_seen(get_successors, state, successors, state_infos@.dom());
            assert(successors@.take(successors@.len() as int) =~= successors@);
            assert forall|m: Model| #[trigger] fits(m, get_successors, is_goal, heuristic) implies course(
                m,
                initial,
                state_infos@,
                queue_entries(frontier),
                None,
                Seq::empty(),
            ) by {
                assert(successors@ == (m.moves)(state));
                lemma_close(m, initial, state_infos@, queue_entries(frontier), state);
            }
        }
    }
}

/// A description of a search in plain terms: the steps from each state
/// with their costs, which states are goals, and the estimate for each
/// state.
pub ghost struct Model {
    pub moves: spec_fn(u64) -> Seq<(u64, u64)>,
    pub goals: spec_fn(u64) -> bool,
    pub estimate: spec_fn(u64) -> u64,
}

/// Whether the model describes the three closures, and guides the search
/// well: no estimate is more than the cost of a step plus the estimate
/// after it, and the estimate for a goal is 0.
pub open spec fn fits<S: Fn(&u64) -> Vec<(u64, u64)>, G: Fn(&u64) -> bool, H: Fn(&u64) -> u64>(
    m: Model,
    successors: S,
    is_goal: G,
    heuristic: H,
) -> bool {
    &&& forall|s: u64, r: Vec<(u64, u64)>| #[trigger] successors.ensures((&s,), r) ==> r@ == (m.moves)(s)
    &&& forall|s: u64, b: bool| #[trigger] is_goal.ensures((&s,), b) ==> b == (m.goals)(s)
    &&& forall|s: u64, v: u64| #[trigger] heuristic.ensures((&s,), v) ==> v == (m.estimate)(s)
    &&& forall|s: u64, k: int|
        0 <= k < (m.moves)(s).len() ==> (m.estimate)(s) <= (#[trigger] (m.moves)(s)[k]).0 + (m.estimate)(
            (m.moves)(s)[k].1,
        )
    &&& forall|s: u64| #[trigger] (m.goals)(s) ==> (m.estimate)(s) == 0
}

/// Whether `states` is a walk along steps of the model with the given
/// costs.
pub open spec fn model_walk(m: Model, states: Seq<u64>, costs: Seq<u64>) -> bool {
    states.len() == costs.len() + 1 && forall|i: int|
        0 <= i < costs.len() ==> (m.moves)(#[trigger] states[i]).contains((costs[i], states[i + 1]))
}

/// Whether some walk of the model from an initial state ends in `state` and
/// costs `cost` in all.
pub open spec fn arrives(m: Model, initial: Seq<u64>, state: u64, cost: int) -> bool {
    exists|states: Seq<u64>, costs: Seq<u64>| #[trigger]
        model_walk(m, states, costs) && initial.contains(states[0]) && states.last() == state && total(costs)
            == cost
}

/// An initial state is arrived at at no cost.
pub proof fn lemma_arrives_initial(m: Model, initial: Seq<u64>, state: u64)
    requires
        initial.contains(state),
    ensures
        arrives(m, initial, state, 0),
{
    let states = seq![state];
    let costs = Seq::<u64>::empty();
    assert(model_walk(m, states, costs));
    assert(states[0] == state);
}

/// A step from a state that is arrived at arrives at its end, at the sum
/// of the costs.
pub proof fn lemma_arrives_step(m: Model, initial: Seq<u64>, from: u64, so_far: int, cost: u64, to: u64)
    requires
        arrives(m, initial, from, so_far),
        (m.moves)(from).contains((cost, to)),
    ensures
        arrives(m, initial, to, so_far + cost),
{
    let (states, costs) = choose|states: Seq<u64>, costs: Seq<u64>| #[trigger]
        model_walk(m, states, costs) && initial.contains(states[0]) && states.last() == from && total(costs)
            == so_far;
    let longer = states.push(to);
    let dearer = costs.push(cost);
    assert forall|i: int| 0 <= i < dearer.len() implies (m.moves)(#[trigger] longer[i]).contains(
        (dearer[i], longer[i + 1]),
    ) by {
        if i < costs.len() {
            assert(longer[i] == states[i]);
            assert((m.moves)(states[i]).contains((costs[i], states[i + 1])));
        }
    }
    assert(model_walk(m, longer, dearer));
    assert(dearer.drop_last() =~= costs);
    assert(longer[0] == states[0]);
}

/// Whether `s` is on record and no longer in the queue.
pub open spec fn closed(infos: Map<u64, u128>, entries: Map<u64, u128>, s: u64) -> bool {
    infos.contains_key(s) && !entries.contains_key(s)
}

/// Whether the search is on course by the model: initial states are on
/// record at no cost; every cost on record is that of a walk; a state in
/// the queue has as its priority what is left of `u128::MAX` after its cost
/// and its estimate; no walk to a closed state costs less than what is on
/// record for it; every step from a closed state other than `current`
/// leads to a state on record at no more than the cost of the closed state
/// plus that of the step; and so do the steps `done` from `current`.
#[verifier::opaque]
pub open spec fn course(
    m: Model,
    initial: Seq<u64>,
    infos: Map<u64, u128>,
    entries: Map<u64, u128>,
    current: Option<u64>,
    done: Seq<(u64, u64)>,
) -> bool {
    &&& forall|k: int| 0 <= k < initial.len() ==> infos.contains_key(#[trigger] initial[k]) && infos[initial[k]] == 0
    &&& forall|s: u64| #[trigger] infos.contains_key(s) ==> arrives(m, initial, s, infos[s] as int)
    &&& forall|u: u64| #[trigger]
        entries.contains_key(u) ==> infos.contains_key(u) && infos[u] + (m.estimate)(u) <= u128::MAX && entries[u]
            == u128::MAX - (infos[u] + (m.estimate)(u))
    &&& forall|p: u64, cost: int|
        closed(infos, entries, p) && #[trigger] arrives(m, initial, p, cost) ==> infos[p] <= cost
    &&& forall|p: u64, k: int|
        closed(infos, entries, p) && current != Some(p) && 0 <= k < (m.moves)(p).len() ==> infos.contains_key(
            (#[trigger] (m.moves)(p)[k]).1,
        ) && infos[(m.moves)(p)[k].1] <= infos[p] + (m.moves)(p)[k].0
    &&& current matches Some(s) ==> closed(infos, entries, s) && forall|k: int|
        0 <= k < done.len() ==> infos.contains_key((#[trigger] done[k]).1) && infos[done[k].1] <= infos[s]
            + done[k].0
}

/// The costs up to a step, and the step, sum up to the costs with the step.
pub proof fn lemma_total_take(costs: Seq<u64>, k: int)
    requires
        0 <= k < costs.len(),
    ensures
        total(costs.take(k + 1)) == total(costs.take(k)) + costs[k],
        total(costs.take(0)) == 0,
{
    assert(costs.take(k + 1).drop_last() =~= costs.take(k));
    assert(costs.take(k + 1).last() == costs[k]);
}

/// Along a walk, the estimate for a state is at most the cost of the steps
/// that follow up to a later state plus the estimate for that state.
pub proof fn lemma_along<S: Fn(&u64) -> Vec<(u64, u64)>, G: Fn(&u64) -> bool, H: Fn(&u64) -> u64>(
    m: Model,
    successors: S,
    is_goal: G,
    heuristic: H,
    states: Seq<u64>,
    costs: Seq<u64>,
    from: int,
    k: int,
)
    requires
        fits(m, successors, is_goal, heuristic),
        model_walk(m, states, costs),
        0 <= from <= k < states.len(),
    ensures
        (m.estimate)(states[from]) + total(costs.take(from)) <= total(costs.take(k)) + (m.estimate)(states[k]),
    decreases k - from,
{
    if from < k {
        lemma_along(m, successors, is_goal, heuristic, states, costs, from, k - 1);
        lemma_total_take(costs, k - 1);
        let list = (m.moves)(states[k - 1]);
        assert(list.contains((costs[k - 1], states[k])));
        let at = choose|at: int| 0 <= at < list.len() && list[at] == (costs[k - 1], states[k]);
        assert(list[at].0 == costs[k - 1] && list[at].1 == states[k]);
    }
}

/// On a walk from an initial state, either the `k`-th state is closed and
/// costs no more on record than the walk up to it, or a state in the queue
/// comes at or before it that costs no more on record than the walk up to
/// that state. The result is the index of such a state, or -1.
pub proof fn lemma_front(
    m: Model,
    initial: Seq<u64>,
    infos: Map<u64, u128>,
    entries: Map<u64, u128>,
    states: Seq<u64>,
    costs: Seq<u64>,
    k: int,
) -> (at: int)
    requires
        course(m, initial, infos, entries, None, Seq::empty()),
        model_walk(m, states, costs),
        initial.contains(states[0]),
        0 <= k < states.len(),
    ensures
        -1 <= at <= k,
        at == -1 ==> closed(infos, entries, states[k]) && infos[states[k]] <= total(costs.take(k)),
        at >= 0 ==> entries.contains_key(states[at]) && infos.contains_key(states[at]) && infos[states[at]]
            <= total(costs.take(at)),
    decreases k,
{
    reveal(course);
    if k == 0 {
        let first = choose|first: int| 0 <= first < initial.len() && initial[first] == states[0];
        assert(infos.contains_key(initial[first]) && infos[initial[first]] == 0);
        assert(total(costs.take(0)) == 0);
        if entries.contains_key(states[0]) {
            0
        } else {
            -1
        }
    } else {
        let before = lemma_front(m, initial, infos, entries, states, costs, k - 1);
        if before >= 0 {
            before
        } else {
            lemma_total_take(costs, k - 1);
            let list = (m.moves)(states[k - 1]);
            assert(list.contains((costs[k - 1], states[k])));
            let pick = choose|pick: int| 0 <= pick < list.len() && list[pick] == (costs[k - 1], states[k]);
            assert(list[pick].1 == states[k] && list[pick].0 == costs[k - 1]);
            if entries.contains_key(states[k]) {
                k
            } else {
                -1
            }
        }
    }
}

/// When `s` is first in the queue, its cost plus its estimate is at most
/// the cost of any walk to a state that is not closed, plus the estimate
/// for that state.
pub proof fn lemma_bound<S: Fn(&u64) -> Vec<(u64, u64)>, G: Fn(&u64) -> bool, H: Fn(&u64) -> u64>(
    m: Model,
    successors: S,
    is_goal: G,
    heuristic: H,
    initial: Seq<u64>,
    infos: Map<u64, u128>,
    entries: Map<u64, u128>,
    s: u64,
    states: Seq<u64>,
    costs: Seq<u64>,
)
    requires
        fits(m, successors, is_goal, heuristic),
        course(m, initial, infos, entries, None, Seq::empty()),
        is_top(entries, s),
        model_walk(m, states, costs),
        initial.contains(states[0]),
        !closed(infos, entries, states.last()),
    ensures
        infos.contains_key(s),
        infos[s] + (m.estimate)(s) <= total(costs) + (m.estimate)(states.last()),
{
    let last = states.len() - 1;
    let at = lemma_front(m, initial, infos, entries, states, costs, last);
    lemma_along(m, successors, is_goal, heuristic, states, costs, at, last);
    assert(costs.take(last) =~= costs);
    reveal(course);
    assert(entries.contains_key(states[at]));
    assert(entries[states[at]] <= entries[s]);
}

/// A search that has the initial states on record at no cost, and all of
/// them in the queue, is on course.
pub proof fn lemma_start(m: Model, initial: Seq<u64>, infos: Map<u64, u128>, entries: Map<u64, u128>)
    requires
        entries.dom() == infos.dom(),
        forall|k: int| 0 <= k < initial.len() ==> infos.contains_key(#[trigger] initial[k]),
        forall|s: u64| #[trigger] infos.contains_key(s) ==> initial.contains(s) && infos[s] == 0,
        forall|s: u64| #[trigger] entries.contains_key(s) ==> entries[s] == u128::MAX - (m.estimate)(s),
    ensures
        course(m, initial, infos, entries, None, Seq::empty()),
{
    reveal(course);
    assert forall|u: u64| #[trigger] entries.contains_key(u) implies infos.contains_key(u) by {
        assert(entries.dom().contains(u));
    }
    assert forall|s: u64| #[trigger] infos.contains_key(s) implies arrives(m, initial, s, infos[s] as int) by {
        lemma_arrives_initial(m, initial, s);
    }
    assert forall|p: u64| !closed(infos, entries, p) by {
        if infos.contains_key(p) {
            assert(infos.dom().contains(p));
            assert(entries.dom().contains(p));
        }
    }
}

/// When the first state of the queue is taken up, no walk to it costs less
/// than what is on record for it, and the search stays on course.
pub proof fn lemma_pop<S: Fn(&u64) -> Vec<(u64, u64)>, G: Fn(&u64) -> bool, H: Fn(&u64) -> u64>(
    m: Model,
    successors: S,
    is_goal: G,
    heuristic: H,
    initial: Seq<u64>,
    infos: Map<u64, u128>,
    entries: Map<u64, u128>,
    s: u64,
)
    requires
        fits(m, successors, is_goal, heuristic),
        course(m, initial, infos, entries, None, Seq::empty()),
        is_top(entries, s),
    ensures
        course(m, initial, infos, entries.remove(s), Some(s), Seq::empty()),
{
    let left = entries.remove(s);
    assert forall|cost: int| #[trigger] arrives(m, initial, s, cost) implies infos.contains_key(s) && infos[s]
        <= cost by {
        let (states, costs) = choose|states: Seq<u64>, costs: Seq<u64>| #[trigger]
            model_walk(m, states, costs) && initial.contains(states[0]) && states.last() == s && total(costs)
                == cost;
        lemma_bound(m, successors, is_goal, heuristic, initial, infos, entries, s, states, costs);
    }
    reveal(course);
    assert(infos.contains_key(s));
    assert forall|p: u64, cost: int| closed(infos, left, p) && #[trigger] arrives(m, initial, p, cost) implies infos[p]
        <= cost by {
        if p != s {
            assert(closed(infos, entries, p));
        }
    }
    assert forall|p: u64, k: int|
        closed(infos, left, p) && Some(s) != Some(p) && 0 <= k < (m.moves)(p).len() implies infos.contains_key(
        (#[trigger] (m.moves)(p)[k]).1,
    ) && infos[(m.moves)(p)[k].1] <= infos[p] + (m.moves)(p)[k].0 by {
        assert(closed(infos, entries, p));
    }
}

/// When the first state of the queue is taken up and no closed state is a
/// goal, no walk to a goal costs less than what is on record for that
/// state.
pub proof fn lemma_goal<S: Fn(&u64) -> Vec<(u64, u64)>, G: Fn(&u64) -> bool, H: Fn(&u64) -> u64>(
    m: Model,
    successors: S,
    is_goal: G,
    heuristic: H,
    initial: Seq<u64>,
    infos: Map<u64, u128>,
    entries: Map<u64, u128>,
    s: u64,
)
    requires
        fits(m, successors, is_goal, heuristic),
        course(m, initial, infos, entries, None, Seq::empty()),
        is_top(entries, s),
        forall|p: u64| #[trigger] closed(infos, entries, p) ==> is_goal.ensures((&p,), false),
    ensures
        forall|goal: u64, cost: int| (m.goals)(goal) && #[trigger] arrives(m, initial, goal, cost) ==> infos[s] <= cost,
{
    assert forall|goal: u64, cost: int| (m.goals)(goal) && #[trigger] arrives(m, initial, goal, cost) implies infos[s]
        <= cost by {
        let (states, costs) = choose|states: Seq<u64>, costs: Seq<u64>| #[trigger]
            model_walk(m, states, costs) && initial.contains(states[0]) && states.last() == goal && total(costs)
                == cost;
        if closed(infos, entries, goal) {
            assert(is_goal.ensures((&goal,), false));
        }
        lemma_bound(m, successors, is_goal, heuristic, initial, infos, entries, s, states, costs);
    }
}

/// Going on course: a step from the current state to a state that is on
/// record at a greater cost lowers the record, and the priority of the
/// state, which is still in the queue.
pub proof fn lemma_relax_lower(
    m: Model,
    initial: Seq<u64>,
    infos: Map<u64, u128>,
    entries: Map<u64, u128>,
    s: u64,
    done: Seq<(u64, u64)>,
    c: u64,
    t: u64,
)
    requires
        course(m, initial, infos, entries, Some(s), done),
        infos.contains_key(s),
        (m.moves)(s).contains((c, t)),
        infos.contains_key(t),
        infos[t] > infos[s] + c,
        infos[s] + c + (m.estimate)(t) <= u128::MAX,
    ensures
        entries.contains_key(t),
        course(
            m,
            initial,
            infos.insert(t, (infos[s] + c) as u128),
            entries.insert(t, (u128::MAX - (infos[s] + c + (m.estimate)(t))) as u128),
            Some(s),
            done.push((c, t)),
        ),
{
    reveal(course);
    let cost = (infos[s] + c) as u128;
    let lower = infos.insert(t, cost);
    let moved = entries.insert(t, (u128::MAX - (cost + (m.estimate)(t))) as u128);
    let more = done.push((c, t));
    lemma_arrives_step(m, initial, s, infos[s] as int, c, t);
    assert(!closed(infos, entries, t));
    assert forall|k: int| 0 <= k < initial.len() implies lower.contains_key(#[trigger] initial[k])
        && lower[initial[k]] == 0 by {
        assert(infos[initial[k]] == 0);
    }
    assert forall|u: u64| #[trigger] lower.contains_key(u) implies arrives(m, initial, u, lower[u] as int) by {
        if u != t {
            assert(infos.contains_key(u));
        }
    }
    assert forall|p: u64, other: int| closed(lower, moved, p) && #[trigger] arrives(m, initial, p, other) implies lower[p]
        <= other by {
        assert(closed(infos, entries, p));
    }
    assert forall|p: u64, k: int|
        closed(lower, moved, p) && Some(s) != Some(p) && 0 <= k < (m.moves)(p).len() implies lower.contains_key(
        (#[trigger] (m.moves)(p)[k]).1,
    ) && lower[(m.moves)(p)[k].1] <= lower[p] + (m.moves)(p)[k].0 by {
        assert(closed(infos, entries, p));
    }
    assert forall|k: int| 0 <= k < more.len() implies lower.contains_key((#[trigger] more[k]).1) && lower[more[k].1]
        <= lower[s] + more[k].0 by {
        if k < done.len() {
            assert(more[k] == done[k]);
        }
    }
}

/// Going on course: a step from the current state to a state that is on
/// record at no greater cost changes nothing.
pub proof fn lemma_relax_same(
    m: Model,
    initial: Seq<u64>,
    infos: Map<u64, u128>,
    entries: Map<u64, u128>,
    s: u64,
    done: Seq<(u64, u64)>,
    c: u64,
    t: u64,
)
    requires
        course(m, initial, infos, entries, Some(s), done),
        infos.contains_key(t),
        infos[t] <= infos[s] + c,
    ensures
        course(m, initial, infos, entries, Some(s), done.push((c, t))),
{
    reveal(course);
    let more = done.push((c, t));
    assert forall|k: int| 0 <= k < more.len() implies infos.contains_key((#[trigger] more[k]).1) && infos[more[k].1]
        <= infos[s] + more[k].0 by {
        if k < done.len() {
            assert(more[k] == done[k]);
        }
    }
}

/// Going on course: a step from the current state to a state that is not
/// on record puts it on record and in the queue.
pub proof fn lemma_relax_new(
    m: Model,
    initial: Seq<u64>,
    infos: Map<u64, u128>,
    entries: Map<u64, u128>,
    s: u64,
    done: Seq<(u64, u64)>,
    c: u64,
    t: u64,
)
    requires
        course(m, initial, infos, entries, Some(s), done),
        infos.contains_key(s),
        (m.moves)(s).contains((c, t)),
        !infos.contains_key(t),
        infos[s] + c + (m.estimate)(t) <= u128::MAX,
    ensures
        course(
            m,
            initial,
            infos.insert(t, (infos[s] + c) as u128),
            entries.insert(t, (u128::MAX - (infos[s] + c + (m.estimate)(t))) as u128),
            Some(s),
            done.push((c, t)),
        ),
{
    reveal(course);
    let cost = (infos[s] + c) as u128;
    let wider = infos.insert(t, cost);
    let longer = entries.insert(t, (u128::MAX - (cost + (m.estimate)(t))) as u128);
    let more = done.push((c, t));
    lemma_arrives_step(m, initial, s, infos[s] as int, c, t);
    assert forall|k: int| 0 <= k < initial.len() implies wider.contains_key(#[trigger] initial[k])
        && wider[initial[k]] == 0 by {
        assert(infos.contains_key(initial[k]));
    }
    assert forall|u: u64| #[trigger] wider.contains_key(u) implies arrives(m, initial, u, wider[u] as int) by {
        if u != t {
            assert(infos.contains_key(u));
        }
    }
    assert forall|p: u64, other: int| closed(wider, longer, p) && #[trigger] arrives(m, initial, p, other) implies wider[p]
        <= other by {
        assert(closed(infos, entries, p));
    }
    assert forall|p: u64, k: int|
        closed(wider, longer, p) && Some(s) != Some(p) && 0 <= k < (m.moves)(p).len() implies wider.contains_key(
        (#[trigger] (m.moves)(p)[k]).1,
    ) && wider[(m.moves)(p)[k].1] <= wider[p] + (m.moves)(p)[k].0 by {
        assert(closed(infos, entries, p));
    }
    assert forall|k: int| 0 <= k < more.len() implies wider.contains_key((#[trigger] more[k]).1) && wider[more[k].1]
        <= wider[s] + more[k].0 by {
        if k < done.len() {
            assert(more[k] == done[k]);
        }
    }
}

/// Going on course: once every step from the current state is done, the
/// state is closed like the others.
pub proof fn lemma_close(
    m: Model,
    initial: Seq<u64>,
    infos: Map<u64, u128>,
    entries: Map<u64, u128>,
    s: u64,
)
    requires
        course(m, initial, infos, entries, Some(s), (m.moves)(s)),
    ensures
        course(m, initial, infos, entries, None, Seq::empty()),
{
    reveal(course);
}

/// What the search has on record for a state: the cost of getting there,
/// and the state it was reached from, if it is no initial state.
pub struct StateInfo {
    pub cost: u128,
    pub parent: Option<u64>,
}

/// Whether `successors` can report a step from `from` to `to`, at any cost.
pub open spec fn follows<S: Fn(&u64) -> Vec<(u64, u64)>>(successors: S, from: u64, to: u64) -> bool {
    exists|c: u64| #[trigger] step(successors, from, c, to)
}

/// Whether each state follows on the one before it by some step.
pub open spec fn linked<S: Fn(&u64) -> Vec<(u64, u64)>>(successors: S, states: Seq<u64>) -> bool {
    forall|i: int| 0 <= i < states.len() - 1 ==> #[trigger] follows(successors, states[i], states[i + 1])
}

/// Whether every cost on record is that of a walk to its state, and small
/// enough to be added to.
pub open spec fn records_sound<S: Fn(&u64) -> Vec<(u64, u64)>>(
    successors: S,
    initial: Seq<u64>,
    infos: Map<u64, StateInfo>,
) -> bool {
    forall|s: u64| #[trigger]
        infos.contains_key(s) ==> reaches(successors, initial, s, infos[s].cost as int) && infos[s].cost
            <= STEP_MAX * (infos.dom().len() - 1)
}

/// Whether `parent` ranks before `child`: it is cheaper, or as cheap and
/// was put on record earlier.
pub open spec fn ranks_before(infos: Map<u64, StateInfo>, stamp: Map<u64, nat>, parent: u64, child: u64) -> bool {
    infos[parent].cost < infos[child].cost || (infos[parent].cost == infos[child].cost && stamp[parent]
        < stamp[child])
}

/// Whether some step leads from `from` to `to` at a cost that, added to
/// the cost on record for `from`, is no more than the cost on record for
/// `to`.
pub open spec fn paid<S: Fn(&u64) -> Vec<(u64, u64)>>(
    successors: S,
    infos: Map<u64, StateInfo>,
    from: u64,
    to: u64,
) -> bool {
    exists|c: u64| #[trigger] step(successors, from, c, to) && infos[from].cost + c <= infos[to].cost
}

/// The sum of the costs with one more cost in front.
pub proof fn lemma_total_front(c: u64, costs: Seq<u64>)
    ensures
        total(seq![c] + costs) == c + total(costs),
    decreases costs.len(),
{
    let all = seq![c] + costs;
    if costs.len() == 0 {
        assert(all.drop_last() =~= Seq::<u64>::empty());
        assert(total(all.drop_last()) == 0);
    } else {
        assert(all.drop_last() =~= seq![c] + costs.drop_last());
        lemma_total_front(c, costs.drop_last());
    }
}

/// Whether every state without a parent is initial, and every other state
/// follows by a step on its parent, which is on record, ranks before it and
/// costs no more with the step than the state itself.
#[verifier::opaque]
pub open spec fn parents_sound<S: Fn(&u64) -> Vec<(u64, u64)>>(
    successors: S,
    initial: Seq<u64>,
    infos: Map<u64, StateInfo>,
    stamp: Map<u64, nat>,
) -> bool {
    forall|s: u64| #[trigger]
        infos.contains_key(s) ==> match infos[s].parent {
            None => initial.contains(s),
            Some(p) => infos.contains_key(p) && ranks_before(infos, stamp, p, s) && follows(successors, p, s) && paid(
                successors,
                infos,
                p,
                s,
            ),
        }
}

/// What sound parents say of one state on record.
pub proof fn lemma_parent_of<S: Fn(&u64) -> Vec<(u64, u64)>>(
    successors: S,
    initial: Seq<u64>,
    infos: Map<u64, StateInfo>,
    stamp: Map<u64, nat>,
    s: u64,
)
    requires
        parents_sound(successors, initial, infos, stamp),
        infos.contains_key(s),
    ensures
        match infos[s].parent {
            None => initial.contains(s),
            Some(p) => infos.contains_key(p) && ranks_before(infos, stamp, p, s) && follows(successors, p, s) && paid(
                successors,
                infos,
                p,
                s,
            ),
        },
{
    reveal(parents_sound);
}

/// Initial states on record without parents are sound.
pub proof fn lemma_parents_initial<S: Fn(&u64) -> Vec<(u64, u64)>>(
    successors: S,
    initial: Seq<u64>,
    infos: Map<u64, StateInfo>,
    stamp: Map<u64, nat>,
)
    requires
        forall|s: u64| #[trigger] infos.contains_key(s) ==> initial.contains(s) && infos[s].parent is None,
    ensures
        parents_sound(successors, initial, infos, stamp),
{
    reveal(parents_sound);
}

/// Putting a state on record under a parent that was just taken up keeps the
/// parents sound.
pub proof fn lemma_record_parent<S: Fn(&u64) -> Vec<(u64, u64)>>(
    successors: S,
    initial: Seq<u64>,
    before: Map<u64, StateInfo>,
    old_stamp: Map<u64, nat>,
    clock: nat,
    state: u64,
    step_cost: u64,
    successor: u64,
    cost: u128,
)
    requires
        parents_sound(successors, initial, before, old_stamp),
        before.contains_key(state),
        before[state].cost + step_cost <= cost,
        forall|s: u64| before.contains_key(s) ==> #[trigger] old_stamp[s] < clock,
        step(successors, state, step_cost, successor),
        successor != state,
        before.contains_key(successor) ==> before[successor].cost > cost,
    ensures
        parents_sound(
            successors,
            initial,
            before.insert(successor, StateInfo { cost, parent: Some(state) }),
            old_stamp.insert(successor, clock),
        ),
{
    reveal(parents_sound);
    let after = before.insert(successor, StateInfo { cost, parent: Some(state) });
    let stamp = old_stamp.insert(successor, clock);
    assert forall|s: u64| #[trigger] after.contains_key(s) implies match after[s].parent {
        None => initial.contains(s),
        Some(p) => after.contains_key(p) && ranks_before(after, stamp, p, s) && follows(successors, p, s) && paid(
            successors,
            after,
            p,
            s,
        ),
    } by {
        if s == successor {
            assert(old_stamp[state] < stamp[successor]);
            assert(follows(successors, state, successor));
            assert(step(successors, state, step_cost, successor) && after[state].cost + step_cost
                <= after[successor].cost);
        } else {
            assert(before.contains_key(s));
            match before[s].parent {
                None => {},
                Some(p) => {
                    assert(ranks_before(before, old_stamp, p, s));
                    if p == successor {
                        assert(before.contains_key(successor));
                    }
                    let c = choose|c: u64| #[trigger] step(successors, p, c, s) && before[p].cost + c <= before[s].cost;
                    assert(step(successors, p, c, s) && after[p].cost + c <= after[s].cost);
                },
            }
        }
    }
}

/// Once the queue is empty, every state that is surely reached was found to
/// be no goal.
pub proof fn lemma_nothing_left<S: Fn(&u64) -> Vec<(u64, u64)>, G: Fn(&u64) -> bool>(
    successors: S,
    is_goal: G,
    initial: Seq<u64>,
    seen: Set<u64>,
    queued: Set<u64>,
)
    requires
        closed_done(successors, is_goal, seen, queued, None),
        queued == Set::<u64>::empty(),
        forall|k: int| 0 <= k < initial.len() ==> seen.contains(#[trigger] initial[k]),
    ensures
        forall|goal: u64, cost: int| #[trigger]
            surely_reaches(successors, initial, goal, cost) ==> is_goal.ensures((&goal,), false),
{
    assert forall|goal: u64, cost: int| #[trigger]
        surely_reaches(successors, initial, goal, cost) implies is_goal.ensures((&goal,), false) by {
        let (states, costs) = choose|states: Seq<u64>, costs: Seq<u64>| #[trigger]
            sure_walk(successors, states, costs) && initial.contains(states[0]) && states.last() == goal
                && total(costs) == cost;
        assert forall|s: u64| initial.contains(s) implies seen.contains(s) by {
            let k = choose|k: int| 0 <= k < initial.len() && initial[k] == s;
            assert(seen.contains(initial[k]));
        }
        assert forall|s: u64, c: u64, t: u64|
            seen.contains(s) && #[trigger] sure_step(successors, s, c, t) implies seen.contains(t) by {
            assert(!queued.contains(s));
        }
        lemma_closed_holds_walk(successors, initial, seen, states, costs, states.len() - 1);
        assert(seen.contains(goal));
        assert(!queued.contains(goal));
    }
}

/// Every sure step from a state leads to one of the successors that were
/// reported for it.
pub proof fn lemma_all_steps_seen<S: Fn(&u64) -> Vec<(u64, u64)>>(
    successors: S,
    state: u64,
    reported: Vec<(u64, u64)>,
    seen: Set<u64>,
)
    requires
        successors.ensures((&state,), reported),
        forall|k: int| 0 <= k < reported@.len() ==> seen.contains((#[trigger] reported@[k]).1),
    ensures
        forall|c: u64, t: u64| #[trigger] sure_step(successors, state, c, t) ==> seen.contains(t),
{
    assert forall|c: u64, t: u64| #[trigger] sure_step(successors, state, c, t) implies seen.contains(t) by {
        assert(reported@.contains((c, t)));
        let k = choose|k: int| 0 <= k < reported@.len() && reported@[k] == (c, t);
        assert(seen.contains(reported@[k].1));
    }
}

/// Follows the parents on record from `state` back to an initial state, and
/// returns the states passed, the initial state first.
fn trace_back<S: Fn(&u64) -> Vec<(u64, u64)>>(
    state_infos: &HashMap<u64, StateInfo>,
    state: u64,
    successors: &S,
    Ghost(initial): Ghost<Seq<u64>>,
    Ghost(stamp): Ghost<Map<u64, nat>>,
) -> (result: Vec<u64>)
    requires
        state_infos@.contains_key(state),
        parents_sound(*successors, initial, state_infos@, stamp),
    ensures
        result@.len() > 0,
        initial.contains(result@[0]),
        result@.last() == state,
        linked(*successors, result@),
        exists|costs: Seq<u64>| #[trigger] walk(*successors, result@, costs) && total(costs) <= state_infos@[state].cost,
{
    let mut path: Vec<u64> = Vec::new();
    path.push(state);
    let mut current: u64 = state;
    let ghost mut forth: Seq<u64> = seq![state];
    let ghost mut spent: Seq<u64> = Seq::empty();
    proof {
        assert(walk(*successors, forth, spent));
    }
    loop
        invariant
            path@.len() > 0,
            path@[0] == state,
            path@.last() == current,
            state_infos@.contains_key(current),
            state_infos@.contains_key(state),
            parents_sound(*successors, initial, state_infos@, stamp),
            forall|k: int| 0 <= k < path@.len() - 1 ==> #[trigger] follows(*successors, path@[k + 1], path@[k]),
            forth.len() == path@.len(),
            forall|t: int| 0 <= t < forth.len() ==> forth[t] == path@[path@.len() - 1 - t],
            walk(*successors, forth, spent),
            total(spent) + state_infos@[current].cost <= state_infos@[state].cost,
        ensures
            path@.len() > 0,
            path@[0] == state,
            initial.contains(path@.last()),
            forall|k: int| 0 <= k < path@.len() - 1 ==> #[trigger] follows(*successors, path@[k + 1], path@[k]),
            forth.len() == path@.len(),
            forall|t: int| 0 <= t < forth.len() ==> forth[t] == path@[path@.len() - 1 - t],
            walk(*successors, forth, spent),
            total(spent) <= state_infos@[state].cost,
        decreases state_infos@[current].cost, stamp[current],
    {
        let ghost before = path@;
        proof {
            lemma_parent_of(*successors, initial, state_infos@, stamp, current);
        }
        match state_infos.get(&current).unwrap().parent {
            Some(parent) => {
                path.push(parent);
                proof {
                    let c = choose|c: u64| #[trigger]
                        step(*successors, parent, c, current) && state_infos@[parent].cost + c
                            <= state_infos@[current].cost;
                    let longer = seq![parent] + forth;
                    let dearer = seq![c] + spent;
                    lemma_total_front(c, spent);
                    assert forall|i: int| 0 <= i < dearer.len() implies step(
                        *successors,
                        #[trigger] longer[i],
                        dearer[i],
                        longer[i + 1],
                    ) by {
                        if i == 0 {
                            assert(longer[1] == forth[0]);
                        } else {
                            assert(longer[i] == forth[i - 1]);
                            assert(longer[i + 1] == forth[i]);
                            assert(dearer[i] == spent[i - 1]);
                            assert(step(*successors, forth[i - 1], spent[i - 1], forth[i]));
                        }
                    }
                    assert(walk(*successors, longer, dearer));
                    forth = longer;
                    spent = dearer;
                }
                proof {
                    assert forall|k: int| 0 <= k < path@.len() - 1 implies #[trigger] follows(
                        *successors,
                        path@[k + 1],
                        path@[k],
                    ) by {
                        if k < before.len() - 1 {
                            assert(path@[k] == before[k]);
                            assert(path@[k + 1] == before[k + 1]);
                        }
                    }
                }
                current = parent;
            },
            None => {
                break ;
            },
        }
    }
    let ghost back = path@;
    let mut result: Vec<u64> = Vec::new();
    let mut k: usize = path.len();
    while k > 0
        invariant
            k <= path.len(),
            back == path@,
            result@.len() == path.len() - k,
            forall|t: int| 0 <= t < result@.len() ==> result@[t] == back[back.len() - 1 - t],
        decreases k,
    {
        result.push(path[k - 1]);
        k = k - 1;
    }
    proof {
        assert forall|t: int| 0 <= t < result@.len() - 1 implies #[trigger] follows(
            *successors,
            result@[t],
            result@[t + 1],
        ) by {
            let m = back.len() - 2 - t;
            assert(result@[t] == back[m + 1]);
            assert(result@[t + 1] == back[m]);
            assert(follows(*successors, back[m + 1], back[m]));
        }
        assert(result@.last() == state);
        assert(result@[0] == back.last());
        assert(result@ =~= forth);
        assert(walk(*successors, result@, spent) && total(spent) <= state_infos@[state].cost);
    }
    result
}

/// Whether the states are a walk along reported steps whose costs sum up
/// to `cost`.
pub open spec fn walked_for<S: Fn(&u64) -> Vec<(u64, u64)>>(successors: S, path: Seq<u64>, cost: int) -> bool {
    exists|costs: Seq<u64>| #[trigger] walk(successors, path, costs) && total(costs) == cost
}

/// Whether the states are a walk along reported steps whose costs sum up
/// to no more than `cost`.
pub open spec fn walked_within<S: Fn(&u64) -> Vec<(u64, u64)>>(successors: S, path: Seq<u64>, cost: int) -> bool {
    exists|costs: Seq<u64>| #[trigger] walk(successors, path, costs) && total(costs) <= cost
}

/// The costs on record.
pub open spec fn cost_map(infos: Map<u64, StateInfo>) -> Map<u64, u128> {
    Map::new(|s: u64| infos.contains_key(s), |s: u64| infos[s].cost)
}

/// A walk along steps that the closure reports is a walk of a model that
/// fits.
pub proof fn lemma_walk_in_model<S: Fn(&u64) -> Vec<(u64, u64)>, G: Fn(&u64) -> bool, H: Fn(&u64) -> u64>(
    m: Model,
    successors: S,
    is_goal: G,
    heuristic: H,
    states: Seq<u64>,
    costs: Seq<u64>,
)
    requires
        fits(m, successors, is_goal, heuristic),
        walk(successors, states, costs),
    ensures
        model_walk(m, states, costs),
{
    assert forall|i: int| 0 <= i < costs.len() implies (m.moves)(#[trigger] states[i]).contains(
        (costs[i], states[i + 1]),
    ) by {
        assert(step(successors, states[i], costs[i], states[i + 1]));
        let r = choose|r: Vec<(u64, u64)>| #[trigger]
            successors.ensures((&states[i],), r) && r@.contains((costs[i], states[i + 1]));
        assert(r@ == (m.moves)(states[i]));
    }
}

/// Where the model fits and no walk of it to a goal costs less than
/// `cost`, a walk along reported steps to a goal that costs no more than
/// `cost` costs just that.
pub proof fn lemma_path_cost<S: Fn(&u64) -> Vec<(u64, u64)>, G: Fn(&u64) -> bool, H: Fn(&u64) -> u64>(
    m: Model,
    successors: S,
    is_goal: G,
    heuristic: H,
    initial: Seq<u64>,
    path: Seq<u64>,
    costs: Seq<u64>,
    cost: u128,
)
    requires
        fits(m, successors, is_goal, heuristic),
        walk(successors, path, costs),
        initial.contains(path[0]),
        is_goal.ensures((&path.last(),), true),
        total(costs) <= cost,
        forall|goal: u64, other: int| (m.goals)(goal) && #[trigger] arrives(m, initial, goal, other) ==> cost <= other,
    ensures
        total(costs) == cost,
{
    lemma_walk_in_model(m, successors, is_goal, heuristic, path, costs);
    assert(arrives(m, initial, path.last(), total(costs)));
    assert((m.goals)(path.last()));
}

/// Searches as `a_star_search` does, and also returns the states from an
/// initial state to the goal that was found, each reached from the one
/// before it.
///
/// The steps of the states returned cost no more in all than the cost
/// returned. Where the search is well guided, they cost just that, and no
/// walk to a goal costs less.
#[verifier::rlimit(100)]
pub fn a_star_search_path<S, G, H>(initial_states: &[u64], get_successors: S, is_goal: G, heuristic: H) -> (r: Option<
    (u128, Vec<u64>),
>) where S: Fn(&u64) -> Vec<(u64, u64)>, G: Fn(&u64) -> bool, H: Fn(&u64) -> u64
    requires
        forall|s: u64| #[trigger] get_successors.requires((&s,)),
        forall|s: u64| #[trigger] is_goal.requires((&s,)),
        forall|s: u64| #[trigger] heuristic.requires((&s,)),
    ensures
        r matches Some((cost, path)) ==> {
            &&& path@.len() > 0
            &&& initial_states@.contains(path@[0])
            &&& is_goal.ensures((&path@.last(),), true)
            &&& linked(get_successors, path@)
            &&& reaches(get_successors, initial_states@, path@.last(), cost as int)
            &&& walked_within(get_successors, path@, cost as int)
        },
        r is None ==> forall|goal: u64, cost: int| #[trigger]
            surely_reaches(get_successors, initial_states@, goal, cost) ==> is_goal.ensures((&goal,), false),
        forall|m: Model, goal: u64, other: int|
            #![trigger fits(m, get_successors, is_goal, heuristic), arrives(m, initial_states@, goal, other)]
            r is Some && fits(m, get_successors, is_goal, heuristic) && (m.goals)(goal) && arrives(
                m,
                initial_states@,
                goal,
                other,
            ) ==> r.unwrap().0 <= other,
        forall|m: Model| #[trigger]
            fits(m, get_successors, is_goal, heuristic) && r is Some ==> walked_for(
                get_successors,
                r.unwrap().1@,
                r.unwrap().0 as int,
            ),
{
    let ghost initial = initial_states@;
    let ghost mut stamp: Map<u64, nat> = Map::empty();
    let ghost mut clock: nat = 1;
    let mut frontier = queue_new();
    let mut state_infos: HashMap<u64, StateInfo> = HashMap::new();
    let mut i: usize = 0;
    while i < initial_states.len()
        invariant
            i <= initial_states.len(),
            initial == initial_states@,
            forall|s: u64| #[trigger] heuristic.requires((&s,)),
            queue_entries(frontier).dom().finite(),
            queue_entries(frontier).dom() =~= state_infos@.dom(),
            forall|k: int| 0 <= k < i ==> state_infos@.contains_key(#[trigger] initial[k]),
            forall|s: u64| #[trigger]
                state_infos@.contains_key(s) ==> initial.contains(s) && state_infos@[s].cost == 0
                    && state_infos@[s].parent is None && stamp[s] == 0,
            clock == 1,
            forall|m: Model, s: u64|
                #![trigger fits(m, get_successors, is_goal, heuristic), queue_entries(frontier).contains_key(s)]
                fits(m, get_successors, is_goal, heuristic) && queue_entries(frontier).contains_key(s)
                    ==> queue_entries(frontier)[s] == u128::MAX - (m.estimate)(s),
        decreases initial_states.len() - i,
    {
        let state = initial_states[i];
        let h = heuristic(&state);
        queue_push(&mut frontier, state, u128::MAX - (h as u128));
        state_infos.insert(state, StateInfo { cost: 0, parent: None });
        proof {
            stamp = stamp.insert(state, 0);
        }
        i = i + 1;
    }
    let discovered = state_infos.len();
    proof {
        assert(cost_map(state_infos@).dom() =~= state_infos@.dom());
        assert forall|m: Model| #[trigger] fits(m, get_successors, is_goal, heuristic) implies course(
            m,
            initial,
            cost_map(state_infos@),
            queue_entries(frontier),
            None,
            Seq::empty(),
        ) by {
            lemma_start(m, initial, cost_map(state_infos@), queue_entries(frontier));
        }
        lemma_parents_initial(get_successors, initial, state_infos@, stamp);
        assert forall|s: u64| #[trigger] state_infos@.contains_key(s) implies reaches(
            get_successors,
            initial,
            s,
            state_infos@[s].cost as int,
        ) && state_infos@[s].cost <= STEP_MAX * (state_infos@.dom().len() - 1) by {
            lemma_reaches_initial(get_successors, initial, s);
            assert(state_infos@.dom().len() >= 1) by {
                if state_infos@.dom().len() == 0 {
                    assert(state_infos@.dom() =~= Set::<u64>::empty());
                }
            }
        }
    }
    loop
        invariant
            initial == initial_states@,
            forall|s: u64| #[trigger] get_successors.requires((&s,)),
            forall|s: u64| #[trigger] is_goal.requires((&s,)),
            forall|s: u64| #[trigger] heuristic.requires((&s,)),
            queue_entries(frontier).dom().finite(),
            queue_entries(frontier).dom().subset_of(state_infos@.dom()),
            state_infos@.dom().len() <= usize::MAX,
            records_sound(get_successors, initial, state_infos@),
            parents_sound(get_successors, initial, state_infos@, stamp),
            forall|s: u64| state_infos@.contains_key(s) ==> #[trigger] stamp[s] < clock,
            forall|k: int| 0 <= k < initial.len() ==> state_infos@.contains_key(#[trigger] initial[k]),
            closed_done(get_successors, is_goal, state_infos@.dom(), queue_entries(frontier).dom(), None),
            forall|m: Model| #[trigger]
                fits(m, get_successors, is_goal, heuristic) ==> course(
                    m,
                    initial,
                    cost_map(state_infos@),
                    queue_entries(frontier),
                    None,
                    Seq::empty(),
                ),
        decreases 2 * (usize::MAX - state_infos@.dom().len()) + queue_entries(frontier).dom().len(),
    {
        let ghost measure = 2 * (usize::MAX - state_infos@.dom().len()) + queue_entries(frontier).dom().len();
        let ghost waiting = queue_entries(frontier);
        let (state, _) = match queue_pop(&mut frontier) {
            None => {
                proof {
                    lemma_nothing_left(
                        get_successors,
                        is_goal,
                        initial,
                        state_infos@.dom(),
                        queue_entries(frontier).dom(),
                    );
                }
                return None;
            },
            Some(top) => top,
        };
        assert(state_infos@.contains_key(state));
        let state_cost: u128 = state_infos.get(&state).unwrap().cost;
        proof {
            assert forall|p: u64| #[trigger] closed(cost_map(state_infos@), waiting, p) implies is_goal.ensures(
                (&p,),
                false,
            ) by {
                assert(state_infos@.dom().contains(p) && !waiting.dom().contains(p));
            }
            assert forall|m: Model| #[trigger] fits(m, get_successors, is_goal, heuristic) implies course(
                m,
                initial,
                cost_map(state_infos@),
                queue_entries(frontier),
                Some(state),
                Seq::empty(),
            ) && (forall|goal: u64, other: int|
                (m.goals)(goal) && #[trigger] arrives(m, initial, goal, other) ==> state_cost <= other) by {
                lemma_goal(m, get_successors, is_goal, heuristic, initial, cost_map(state_infos@), waiting, state);
                lemma_pop(m, get_successors, is_goal, heuristic, initial, cost_map(state_infos@), waiting, state);
            }
        }
        if is_goal(&state) {
            let result = trace_back(&state_infos, state, &get_successors, Ghost(initial), Ghost(stamp));
            proof {
                let costs = choose|costs: Seq<u64>| #[trigger]
                    walk(get_successors, result@, costs) && total(costs) <= state_infos@[state].cost;
                assert(walked_within(get_successors, result@, state_cost as int));
                assert forall|m: Model| #[trigger] fits(m, get_successors, is_goal, heuristic) implies walked_for(
                    get_successors,
                    result@,
                    state_cost as int,
                ) by {
                    lemma_path_cost(m, get_successors, is_goal, heuristic, initial, result@, costs, state_cost);
                    assert(walk(get_successors, result@, costs) && total(costs) == state_cost);
                }
            }
            return Some((state_cost, result));
        }
        let successors = get_successors(&state);
        let mut j: usize = 0;
        assert(successors@.take(0) =~= Seq::<(u64, u64)>::empty());
        while j < successors.len()
            invariant
                j <= successors.len(),
                initial == initial_states@,
                    forall|s: u64| #[trigger] heuristic.requires((&s,)),
                get_successors.ensures((&state,), successors),
                is_goal.ensures((&state,), false),
                queue_entries(frontier).dom().finite(),
                queue_entries(frontier).dom().subset_of(state_infos@.dom()),
                !queue_entries(frontier).contains_key(state),
                state_infos@.contains_key(state),
                state_infos@[state].cost == state_cost,
                forall|s: u64| #[trigger] is_goal.requires((&s,)),
                forall|m: Model| #[trigger]
                    fits(m, get_successors, is_goal, heuristic) ==> course(
                        m,
                        initial,
                        cost_map(state_infos@),
                        queue_entries(frontier),
                        Some(state),
                        successors@.take(j as int),
                    ),
                reaches(get_successors, initial, state, state_cost as int),
                state_cost <= STEP_MAX * (state_infos@.dom().len() - 1),
                state_infos@.dom().len() <= usize::MAX,
                records_sound(get_successors, initial, state_infos@),
                parents_sound(get_successors, initial, state_infos@, stamp),
                forall|s: u64| state_infos@.contains_key(s) ==> #[trigger] stamp[s] < clock,
                forall|k: int| 0 <= k < initial.len() ==> state_infos@.contains_key(#[trigger] initial[k]),
                forall|k: int| 0 <= k < j ==> state_infos@.contains_key((#[trigger] successors@[k]).1),
                closed_done(
                    get_successors,
                    is_goal,
                    state_infos@.dom(),
                    queue_entries(frontier).dom(),
                    Some(state),
                ),
                2 * (usize::MAX - state_infos@.dom().len()) + queue_entries(frontier).dom().len() < measure,
            decreases successors.len() - j,
        {
            let (state_to_succ_cost, successor) = successors[j];
            let tentative_cost: u128 = state_cost + state_to_succ_cost as u128;
            proof {
                assert(successors@.contains((state_to_succ_cost, successor)));
                assert(step(get_successors, state, state_to_succ_cost, successor));
                lemma_reaches_step(
                    get_successors,
                    initial,
                    state,
                    state_cost as int,
                    state_to_succ_cost,
                    successor,
                );
            }
            let known: Option<u128> = match state_infos.get(&successor) {
                Some(info) => Some(info.cost),
                None => None,
            };
            let ghost before = state_infos@;
            let ghost old_stamp = stamp;
            let ghost queued = queue_entries(frontier);
            let improve = match known {
                Some(succ_cost) => succ_cost > tentative_cost,
                None => true,
            };
            let ghost done = successors@.take(j as int);
            let ghost costs_before = cost_map(before);
            proof {
                assert(successors@.take(j + 1) =~= done.push((state_to_succ_cost, successor)));
                if !improve {
                    assert forall|m: Model| #[trigger] fits(m, get_successors, is_goal, heuristic) implies course(
                        m,
                        initial,
                        cost_map(state_infos@),
                        queue_entries(frontier),
                        Some(state),
                        successors@.take(j + 1),
                    ) by {
                        lemma_relax_same(
                            m,
                            initial,
                            costs_before,
                            queued,
                            state,
                            done,
                            state_to_succ_cost,
                            successor,
                        );
                    }
                }
            }
            if improve {
                state_infos.insert(successor, StateInfo { cost: tentative_cost, parent: Some(state) });
                let size = state_infos.len();
                let estimate = heuristic(&successor);
                let priority = u128::MAX - (tentative_cost + estimate as u128);
                if known.is_some() {
                    queue_change_priority(&mut frontier, successor, priority);
                    assert(state_infos@.dom() =~= before.dom());
                } else {
                    queue_push(&mut frontier, successor, priority);
                    assert(state_infos@.dom() =~= before.dom().insert(successor));
                    assert(queue_entries(frontier).dom() =~= queued.dom().insert(successor));
                }
                proof {
                    assert(successor != state);
                    assert(cost_map(state_infos@) =~= costs_before.insert(successor, tentative_cost));
                    assert forall|m: Model| #[trigger] fits(m, get_successors, is_goal, heuristic) implies course(
                        m,
                        initial,
                        cost_map(state_infos@),
                        queue_entries(frontier),
                        Some(state),
                        successors@.take(j + 1),
                    ) by {
                        assert(successors@ == (m.moves)(state));
                        if known.is_some() {
                            lemma_relax_lower(
                                m,
                                initial,
                                costs_before,
                                queued,
                                state,
                                done,
                                state_to_succ_cost,
                                successor,
                            );
                        } else {
                            lemma_relax_new(
                                m,
                                initial,
                                costs_before,
                                queued,
                                state,
                                done,
                                state_to_succ_cost,
                                successor,
                            );
                        }
                    }
                    lemma_record_parent(
                        get_successors,
                        initial,
                        before,
                        old_stamp,
                        clock,
                        state,
                        state_to_succ_cost,
                        successor,
                        tentative_cost,
                    );
                    stamp = stamp.insert(successor, clock);
                    clock = clock + 1;
                }
            }
            j = j + 1;
        }
        proof {
            lemma_all_steps_seen(get_successors, state, successors, state_infos@.dom());
            assert(successors@.take(successors@.len() as int) =~= successors@);
            assert forall|m: Model| #[trigger] fits(m, get_successors, is_goal, heuristic) implies course(
                m,
                initial,
                cost_map(state_infos@),
                queue_entries(frontier),
                None,
                Seq::empty(),
            ) by {
                assert(successors@ == (m.moves)(state));
                lemma_close(m, initial, cost_map(state_infos@), queue_entries(frontier), state);
            }
        }
    }
}

} // verus!
