//! Sorting parts through workflows, and counting the parts that would be
//! accepted.

pub mod utils;

use crate::text::{lines, lines_of, views};
use utils::{
    find_workflow, index_of, parse_part, parse_workflow, part_of, rule_views, split_of, start_name,
    try_accepts, verdict, workflow_of, workflow_views, Part, PartRanges, PartRangesSplitResult, Rule,
    RuleView, Workflow, WorkflowResult, WorkflowResultView, WorkflowView,
};
use vstd::prelude::*;
use vstd::string::StringSliceAdditionalSpecFns;

verus! {

/// The number of lines before the first empty one.
pub open spec fn head_len(ls: Seq<Seq<u8>>, from: int) -> int
    decreases ls.len() - from,
{
    if from >= ls.len() || ls[from].len() == 0 {
        from
    } else {
        head_len(ls, from + 1)
    }
}

/// The index after the last empty line among the first `n`, or 0.
pub open spec fn tail_start(ls: Seq<Seq<u8>>, n: int) -> int
    decreases n,
{
    if n <= 0 || ls[n - 1].len() == 0 {
        if n <= 0 { 0 } else { n }
    } else {
        tail_start(ls, n - 1)
    }
}

/// The texts read as workflows, if all of them can be.
pub open spec fn workflows_of(texts: Seq<Seq<u8>>) -> Option<Seq<WorkflowView>>
    decreases texts.len(),
{
    if texts.len() == 0 {
        Some(Seq::empty())
    } else {
        match (workflows_of(texts.drop_last()), workflow_of(texts.last())) {
            (Some(ws), Some(w)) => Some(ws.push(w)),
            _ => None,
        }
    }
}

/// The texts read as parts, if all of them can be.
pub open spec fn parts_of(texts: Seq<Seq<u8>>) -> Option<Seq<Part>>
    decreases texts.len(),
{
    if texts.len() == 0 {
        Some(Seq::empty())
    } else {
        match (parts_of(texts.drop_last()), part_of(texts.last())) {
            (Some(ps), Some(p)) => Some(ps.push(p)),
            _ => None,
        }
    }
}

/// What a puzzle text describes: the lines up to the first empty one are
/// workflows, the lines after the last empty one are parts.
pub open spec fn input_of(text: Seq<u8>) -> Option<(Seq<WorkflowView>, Seq<Part>)> {
    let ls = lines_of(text);
    let head = ls.take(head_len(ls, 0));
    let tail = ls.skip(tail_start(ls, ls.len() as int));
    match (workflows_of(head), parts_of(tail)) {
        (Some(ws), Some(ps)) => Some((ws, ps)),
        _ => None,
    }
}

/// If a prefix of the texts does not read as workflows, neither does the
/// whole.
pub proof fn lemma_workflows_of_prefix(texts: Seq<Seq<u8>>, i: int)
    requires
        0 <= i <= texts.len(),
        workflows_of(texts.take(i)) is None,
    ensures
        workflows_of(texts) is None,
    decreases texts.len() - i,
{
    if i == texts.len() {
        assert(texts.take(i) =~= texts);
    } else {
        assert(texts.take(i + 1).drop_last() =~= texts.take(i));
        lemma_workflows_of_prefix(texts, i + 1);
    }
}

/// If a prefix of the texts does not read as parts, neither does the whole.
pub proof fn lemma_parts_of_prefix(texts: Seq<Seq<u8>>, i: int)
    requires
        0 <= i <= texts.len(),
        parts_of(texts.take(i)) is None,
    ensures
        parts_of(texts) is None,
    decreases texts.len() - i,
{
    if i == texts.len() {
        assert(texts.take(i) =~= texts);
    } else {
        assert(texts.take(i + 1).drop_last() =~= texts.take(i));
        lemma_parts_of_prefix(texts, i + 1);
    }
}

/// Reads the workflows and the parts of a puzzle text.
pub fn parse_input(input: &str) -> (r: Option<(Vec<Workflow>, Vec<Part>)>)
    ensures
        match r {
            Some((workflows, parts)) => input_of(input.spec_bytes()) == Some(
                (workflow_views(workflows@), parts@),
            ),
            None => input_of(input.spec_bytes()) is None,
        },
{
    let ls = lines(input.as_bytes());
    let ghost all = lines_of(input.spec_bytes());
    assert(all.len() == ls@.len());
    let mut head: usize = 0;
    while head < ls.len() && ls[head].len() != 0
        invariant
            head <= ls.len(),
            all == views(ls@),
            head_len(all, 0) == head_len(all, head as int),
        decreases ls.len() - head,
    {
        assert(all[head as int] == ls@[head as int]@);
        head = head + 1;
    }
    assert(head < ls.len() ==> all[head as int] == ls@[head as int]@);
    assert(head_len(all, 0) == head);
    let mut tail: usize = ls.len();
    while tail > 0 && ls[tail - 1].len() != 0
        invariant
            tail <= ls.len(),
            all == views(ls@),
            tail_start(all, all.len() as int) == tail_start(all, tail as int),
        decreases tail,
    {
        assert(all[tail - 1] == ls@[tail - 1]@);
        tail = tail - 1;
    }
    assert(tail > 0 ==> all[tail - 1] == ls@[tail - 1]@);
    assert(tail_start(all, all.len() as int) == tail);

    let ghost head_texts = all.take(head as int);
    let mut workflows: Vec<Workflow> = Vec::new();
    let mut i: usize = 0;
    assert(head_texts.take(0) =~= Seq::<Seq<u8>>::empty());
    assert(workflow_views(workflows@) =~= Seq::<WorkflowView>::empty());
    while i < head
        invariant
            i <= head <= ls.len(),
            all == views(ls@),
            head_texts == all.take(head as int),
            workflows_of(head_texts.take(i as int)) == Some(workflow_views(workflows@)),
            workflows_of(head_texts) is None ==> input_of(input.spec_bytes()) is None,
        decreases head - i,
    {
        proof {
            assert(head_texts.take(i + 1).drop_last() =~= head_texts.take(i as int));
            assert(head_texts.take(i + 1).last() == ls@[i as int]@);
        }
        match parse_workflow(ls[i]) {
            Some(w) => {
                proof {
                    assert(workflow_views(workflows@.push(w)) =~= workflow_views(workflows@).push(w@));
                }
                workflows.push(w);
            },
            None => {
                proof {
                    assert(workflows_of(head_texts.take(i + 1)) is None);
                    lemma_workflows_of_prefix(head_texts, i + 1);
                }
                return None;
            },
        }
        i = i + 1;
    }
    assert(head_texts.take(head as int) =~= head_texts);

    let ghost tail_texts = all.skip(tail as int);
    let mut parts: Vec<Part> = Vec::new();
    let mut j: usize = tail;
    assert(tail_texts.take(0) =~= Seq::<Seq<u8>>::empty());
    while j < ls.len()
        invariant
            tail <= j <= ls.len(),
            all == views(ls@),
            tail_texts == all.skip(tail as int),
            parts_of(tail_texts.take(j - tail)) == Some(parts@),
            input_of(input.spec_bytes()) == (match parts_of(tail_texts) {
                Some(ps) => Some((workflow_views(workflows@), ps)),
                None => None,
            }),
        decreases ls.len() - j,
    {
        proof {
            assert(tail_texts.take(j - tail + 1).drop_last() =~= tail_texts.take(j - tail));
            assert(tail_texts.take(j - tail + 1).last() == ls@[j as int]@);
        }
        match parse_part(ls[j]) {
            Some(p) => {
                parts.push(p);
            },
            None => {
                proof {
                    assert(parts_of(tail_texts.take(j - tail + 1)) is None);
                    lemma_parts_of_prefix(tail_texts, j - tail + 1);
                }
                return None;
            },
        }
        j = j + 1;
    }
    assert(tail_texts.take(ls.len() - tail) =~= tail_texts);
    Some((workflows, parts))
}

/// The sum of the ratings of the first `n` parts that the workflows accept:
/// nothing when a part gets no verdict or the sum leaves 64 bits.
pub open spec fn accepted_total(map: Seq<WorkflowView>, parts: Seq<Part>, n: int) -> Option<u64>
    decreases n,
{
    if n <= 0 {
        Some(0)
    } else {
        match (accepted_total(map, parts, n - 1), verdict(map, parts[n - 1], start_name(), map.len())) {
            (Some(total), Some(accepted)) => if !accepted {
                Some(total)
            } else if total + parts[n - 1].rating_sum() <= u64::MAX {
                Some((total + parts[n - 1].rating_sum()) as u64)
            } else {
                None
            },
            _ => None,
        }
    }
}

/// If the first `i` parts have no total, neither have all of them.
pub proof fn lemma_accepted_total_prefix(map: Seq<WorkflowView>, parts: Seq<Part>, i: int, n: int)
    requires
        0 <= i <= n,
        accepted_total(map, parts, i) is None,
    ensures
        accepted_total(map, parts, n) is None,
    decreases n - i,
{
    if i < n {
        lemma_accepted_total_prefix(map, parts, i, n - 1);
    }
}

/// Adds up the ratings of the parts that the workflows accept.
pub fn part1(workflow_map: &Vec<Workflow>, parts: &[Part]) -> (r: Option<u64>)
    ensures
        r == accepted_total(workflow_views(workflow_map@), parts@, parts@.len() as int),
{
    let mut total: u64 = 0;
    let mut i: usize = 0;
    let ghost map = workflow_views(workflow_map@);
    while i < parts.len()
        invariant
            i <= parts.len(),
            map == workflow_views(workflow_map@),
            accepted_total(map, parts@, i as int) == Some(total),
        decreases parts.len() - i,
    {
        let step: Option<u64> = match try_accepts(workflow_map, &parts[i]) {
            None => None,
            Some(false) => Some(total),
            Some(true) => match parts[i].checked_sum_rating_nums() {
                None => None,
                Some(sum) => total.checked_add(sum),
            },
        };
        assert(step == accepted_total(map, parts@, i + 1));
        match step {
            Some(t) => {
                total = t;
            },
            None => {
                proof {
                    lemma_accepted_total_prefix(map, parts@, i + 1, parts@.len() as int);
                }
                return None;
            },
        }
        i = i + 1;
    }
    Some(total)
}

/// The sum of two counts, where both exist and the sum fits in 64 bits.
pub open spec fn sum_of(a: Option<u64>, b: Option<u64>) -> Option<u64> {
    match (a, b) {
        (Some(x), Some(y)) => if x + y <= u64::MAX {
            Some((x + y) as u64)
        } else {
            None
        },
        _ => None,
    }
}

/// The number of parts in a box, where its ranges are ordered and the number
/// fits in 64 bits.
pub open spec fn volume_of(b: PartRanges) -> Option<u64> {
    if b.ordered() && b.volume() <= u64::MAX {
        Some(b.volume() as u64)
    } else {
        None
    }
}

/// The number of parts of `b` that are accepted when they enter the workflow
/// called `name`, going through at most `fuel` workflows.
pub open spec fn accepted_from(map: Seq<WorkflowView>, name: Seq<u8>, b: PartRanges, fuel: nat) -> Option<u64>
    decreases fuel, 2nat, 0nat,
{
    let i = index_of(map, name, map.len() as int);
    if fuel == 0 || i < 0 || i >= map.len() {
        None
    } else {
        accepted_by_rules(map, map[i].rules, 0, b, fuel)
    }
}

/// The number of parts of `b` that are accepted when they reach the rule at
/// `from`: the parts that meet its condition follow its destination, the
/// others go on to the next rule. There is no count when the rules run out.
pub open spec fn accepted_by_rules(
    map: Seq<WorkflowView>,
    rules: Seq<RuleView>,
    from: int,
    b: PartRanges,
    fuel: nat,
) -> Option<u64>
    decreases fuel, 1nat, rules.len() - from,
{
    if fuel == 0 || from < 0 || from >= rules.len() {
        None
    } else {
        match split_of(b, rules[from].condition) {
            PartRangesSplitResult::All(passes) => accepted_at(map, rules[from].result, passes, fuel),
            PartRangesSplitResult::Split { passes, fails } => sum_of(
                accepted_at(map, rules[from].result, passes, fuel),
                accepted_by_rules(map, rules, from + 1, fails, fuel),
            ),
            PartRangesSplitResult::NoneOf(fails) => accepted_by_rules(map, rules, from + 1, fails, fuel),
        }
    }
}

/// The number of parts of `b` that are accepted once a rule has sent them to
/// `result`.
pub open spec fn accepted_at(map: Seq<WorkflowView>, result: WorkflowResultView, b: PartRanges, fuel: nat) -> Option<u64>
    decreases fuel, 0nat, 0nat,
{
    if fuel == 0 {
        None
    } else {
        match result {
            WorkflowResultView::Workflow(next) => accepted_from(map, next, b, (fuel - 1) as nat),
            WorkflowResultView::Accept => volume_of(b),
            WorkflowResultView::Reject => Some(0),
        }
    }
}

/// Counts the parts of `passes` that are accepted once a rule has sent them
/// to `result`.
fn count_at(workflow_map: &Vec<Workflow>, result: &WorkflowResult, passes: PartRanges, fuel: usize) -> (r: Option<u64>)
    ensures
        r == accepted_at(workflow_views(workflow_map@), result@, passes, fuel as nat),
    decreases fuel, 0nat,
{
    if fuel == 0 {
        return None;
    }
    match result {
        WorkflowResult::Workflow(next) => num_combinations_satisfying_range(
            workflow_map,
            next.as_slice(),
            passes,
            fuel - 1,
        ),
        WorkflowResult::Accept => passes.checked_num_parts_possible(),
        WorkflowResult::Reject => Some(0),
    }
}

/// Counts the parts of `ranges` that are accepted when they enter the
/// workflow called `current_workflow`, following chains of at most `fuel`
/// workflows.
pub fn num_combinations_satisfying_range(
    workflow_map: &Vec<Workflow>,
    current_workflow: &[u8],
    ranges: PartRanges,
    fuel: usize,
) -> (r: Option<u64>)
    ensures
        r == accepted_from(workflow_views(workflow_map@), current_workflow@, ranges, fuel as nat),
    decreases fuel, 1nat,
{
    if fuel == 0 {
        return None;
    }
    let ghost map = workflow_views(workflow_map@);
    let ghost whole = accepted_from(map, current_workflow@, ranges, fuel as nat);
    let index = find_workflow(workflow_map, current_workflow)?;
    let rules: &Vec<Rule> = &workflow_map[index].rules;
    assert(map[index as int] == workflow_map@[index as int]@);
    let ghost rule_seq = rule_views(rules@);
    let mut rest_box = ranges;
    let mut result: u64 = 0;
    let mut i: usize = 0;
    while i < rules.len()
        invariant
            i <= rules.len(),
            fuel > 0,
            map == workflow_views(workflow_map@),
            rule_seq == rule_views(rules@),
            whole == accepted_from(map, current_workflow@, ranges, fuel as nat),
            whole == sum_of(Some(result), accepted_by_rules(map, rule_seq, i as int, rest_box, fuel as nat)),
        decreases rules.len() - i,
    {
        assert(rule_seq[i as int] == rules@[i as int]@);
        match rest_box.split_on_condition(&rules[i].condition) {
            PartRangesSplitResult::All(passes) => {
                let count = count_at(workflow_map, &rules[i].result, passes, fuel)?;
                return result.checked_add(count);
            },
            PartRangesSplitResult::Split { passes, fails } => {
                let count = count_at(workflow_map, &rules[i].result, passes, fuel)?;
                result = result.checked_add(count)?;
                rest_box = fails;
            },
            PartRangesSplitResult::NoneOf(fails) => {
                rest_box = fails;
            },
        }
        i = i + 1;
    }
    None
}

/// The box of all parts: every rating from 1 to 4000.
pub open spec fn full_box() -> PartRanges {
    PartRanges { x: 1..4001, m: 1..4001, a: 1..4001, s: 1..4001 }
}

/// Counts the parts with ratings from 1 to 4000 that the workflows accept.
/// A chain of more workflows than there are never ends, so the count is then
/// given up.
pub fn part2(workflow_map: &Vec<Workflow>) -> (r: Option<u64>)
    ensures
        r == accepted_from(workflow_views(workflow_map@), start_name(), full_box(), workflow_map@.len() as nat),
{
    let start: [u8; 2] = [105u8, 110u8];
    assert(start@ =~= start_name());
    num_combinations_satisfying_range(
        workflow_map,
        start.as_slice(),
        PartRanges { x: 1..4001, m: 1..4001, a: 1..4001, s: 1..4001 },
        workflow_map.len(),
    )
}

} // verus!
