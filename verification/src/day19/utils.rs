//! Parts, the rules that sort them, and boxes of parts given by one range
//! per rating.

use crate::text::{bytes_eq, parse_unsigned, split, split_once, strip_last, to_vec};
use crate::text::{split_on, split_once_on, unsigned_of, views};
use std::ops::Range;
use vstd::prelude::*;

verus! {

/// One of the four ratings of a part.
#[derive(Debug, Clone, Copy, PartialEq, Eq, Structural)]
pub enum Category {
    X,
    M,
    A,
    S,
}

/// The category that a letter names.
pub open spec fn category_of(s: Seq<u8>) -> Option<Category> {
    if s == seq![120u8] {
        Some(Category::X)
    } else if s == seq![109u8] {
        Some(Category::M)
    } else if s == seq![97u8] {
        Some(Category::A)
    } else if s == seq![115u8] {
        Some(Category::S)
    } else {
        None
    }
}

/// Reads a category from its letter: `x`, `m`, `a` or `s`.
pub fn parse_category(s: &[u8]) -> (r: Option<Category>)
    ensures
        r == category_of(s@),
{
    if s.len() != 1 {
        return None;
    }
    let c = s[0];
    proof {
        assert(s@ =~= seq![c]);
        assert(seq![c] == seq![120u8] ==> seq![c][0] == 120u8);
        assert(seq![c] == seq![109u8] ==> seq![c][0] == 109u8);
        assert(seq![c] == seq![97u8] ==> seq![c][0] == 97u8);
        assert(seq![c] == seq![115u8] ==> seq![c][0] == 115u8);
    }
    if c == 120 {
        Some(Category::X)
    } else if c == 109 {
        Some(Category::M)
    } else if c == 97 {
        Some(Category::A)
    } else if c == 115 {
        Some(Category::S)
    } else {
        None
    }
}

/// A part with its four ratings.
#[derive(Debug)]
pub struct Part {
    pub x: u64,
    pub m: u64,
    pub a: u64,
    pub s: u64,
}

/// A test on one rating of a part.
#[derive(Debug)]
pub enum Condition {
    LessThan(Category, u64),
    GreaterThan(Category, u64),
    Always,
}

impl Part {
    /// The rating of this part in `category`.
    pub open spec fn rating(self, category: Category) -> u64 {
        match category {
            Category::X => self.x,
            Category::M => self.m,
            Category::A => self.a,
            Category::S => self.s,
        }
    }

    /// Whether this part meets `condition`.
    pub open spec fn passes(self, condition: Condition) -> bool {
        match condition {
            Condition::LessThan(category, val) => self.rating(category) < val,
            Condition::GreaterThan(category, val) => self.rating(category) > val,
            Condition::Always => true,
        }
    }

    /// The sum of the four ratings.
    pub open spec fn rating_sum(self) -> int {
        self.x + self.m + self.a + self.s
    }

    pub fn get_category(&self, category: Category) -> (v: u64)
        ensures
            v == self.rating(category),
    {
        match category {
            Category::X => self.x,
            Category::M => self.m,
            Category::A => self.a,
            Category::S => self.s,
        }
    }

    pub fn sum_rating_nums(&self) -> (sum: u64)
        requires
            self.rating_sum() <= u64::MAX,
        ensures
            sum == self.rating_sum(),
    {
        self.x + self.m + self.a + self.s
    }

    /// The sum of the four ratings, or nothing when it does not fit in 64
    /// bits.
    pub fn checked_sum_rating_nums(&self) -> (sum: Option<u64>)
        ensures
            sum == (if self.rating_sum() <= u64::MAX {
                Some(self.rating_sum() as u64)
            } else {
                None
            }),
    {
        let xm = self.x.checked_add(self.m)?;
        let xma = xm.checked_add(self.a)?;
        xma.checked_add(self.s)
    }

    pub fn passes_condition(&self, condition: &Condition) -> (b: bool)
        ensures
            b == self.passes(*condition),
    {
        match *condition {
            Condition::LessThan(category, val) => self.get_category(category) < val,
            Condition::GreaterThan(category, val) => self.get_category(category) > val,
            Condition::Always => true,
        }
    }
}

/// The value of `key=number`, where `key` is the single byte given.
pub open spec fn field_of(s: Seq<u8>, key: u8) -> Option<u64> {
    if s.len() >= 2 && s[0] == key && s[1] == 61u8 {
        unsigned_of(s.skip(2))
    } else {
        None
    }
}

/// The part that a line `{x=..,m=..,a=..,s=..}` describes.
pub open spec fn part_of(line: Seq<u8>) -> Option<Part> {
    if line.len() >= 2 && line[0] == 123u8 && line.last() == 125u8 {
        let fields = split_on(line.subrange(1, line.len() - 1), 44u8);
        if fields.len() == 4 && field_of(fields[0], 120u8) is Some && field_of(fields[1], 109u8) is Some
            && field_of(fields[2], 97u8) is Some && field_of(fields[3], 115u8) is Some {
            Some(
                Part {
                    x: field_of(fields[0], 120u8).unwrap(),
                    m: field_of(fields[1], 109u8).unwrap(),
                    a: field_of(fields[2], 97u8).unwrap(),
                    s: field_of(fields[3], 115u8).unwrap(),
                },
            )
        } else {
            None
        }
    } else {
        None
    }
}

/// Reads `key=number`.
fn parse_field(s: &[u8], key: u8) -> (r: Option<u64>)
    ensures
        r == field_of(s@, key),
{
    if s.len() >= 2 && s[0] == key && s[1] == 61u8 {
        let digits = &s[2..s.len()];
        assert(digits@ =~= s@.skip(2));
        parse_unsigned(digits)
    } else {
        None
    }
}

/// Reads a part from a line of the form `{x=1,m=2,a=3,s=4}`.
pub fn parse_part(line: &[u8]) -> (r: Option<Part>)
    ensures
        r == part_of(line@),
{
    if line.len() < 2 || line[0] != 123u8 || line[line.len() - 1] != 125u8 {
        return None;
    }
    let fields = split(&line[1..line.len() - 1], 44u8);
    assert(views(fields@).len() == fields@.len());
    if fields.len() != 4 {
        return None;
    }
    assert(views(fields@)[0] == fields@[0]@);
    assert(views(fields@)[1] == fields@[1]@);
    assert(views(fields@)[2] == fields@[2]@);
    assert(views(fields@)[3] == fields@[3]@);
    let x = parse_field(fields[0], 120u8)?;
    let m = parse_field(fields[1], 109u8)?;
    let a = parse_field(fields[2], 97u8)?;
    let s = parse_field(fields[3], 115u8)?;
    Some(Part { x, m, a, s })
}

/// Where a rule sends a part.
#[derive(Debug)]
pub enum WorkflowResult {
    Workflow(Vec<u8>),
    Accept,
    Reject,
}

/// The destination that a word names: `A`, `R`, or a workflow.
pub open spec fn result_of(s: Seq<u8>) -> WorkflowResultView {
    if s == seq![65u8] {
        WorkflowResultView::Accept
    } else if s == seq![82u8] {
        WorkflowResultView::Reject
    } else {
        WorkflowResultView::Workflow(s)
    }
}

/// A destination with the workflow's name as a sequence of bytes.
pub enum WorkflowResultView {
    Workflow(Seq<u8>),
    Accept,
    Reject,
}

impl View for WorkflowResult {
    type V = WorkflowResultView;

    open spec fn view(&self) -> WorkflowResultView {
        match self {
            WorkflowResult::Workflow(name) => WorkflowResultView::Workflow(name@),
            WorkflowResult::Accept => WorkflowResultView::Accept,
            WorkflowResult::Reject => WorkflowResultView::Reject,
        }
    }
}

/// Reads a destination: `A` accepts, `R` rejects, anything else names a
/// workflow.
pub fn parse_result(s: &[u8]) -> (r: WorkflowResult)
    ensures
        r@ == result_of(s@),
{
    if s.len() == 1 && s[0] == 65u8 {
        assert(s@ =~= seq![65u8]);
        WorkflowResult::Accept
    } else if s.len() == 1 && s[0] == 82u8 {
        assert(s@ =~= seq![82u8]);
        WorkflowResult::Reject
    } else {
        proof {
            assert(s@ == seq![65u8] ==> s@.len() == 1 && s@[0] == 65u8);
            assert(s@ == seq![82u8] ==> s@.len() == 1 && s@[0] == 82u8);
        }
        WorkflowResult::Workflow(to_vec(s))
    }
}

/// A condition and where the parts that meet it go.
#[derive(Debug)]
pub struct Rule {
    pub condition: Condition,
    pub result: WorkflowResult,
}

/// A rule with its destination viewed.
pub struct RuleView {
    pub condition: Condition,
    pub result: WorkflowResultView,
}

impl View for Rule {
    type V = RuleView;

    open spec fn view(&self) -> RuleView {
        RuleView { condition: self.condition, result: self.result@ }
    }
}

/// The condition that `<category><op><number>` describes, where `<op>` is
/// `<` or `>`.
pub open spec fn condition_of(s: Seq<u8>) -> Option<Condition> {
    if s.len() >= 2 && category_of(s.take(1)) is Some && unsigned_of(s.skip(2)) is Some {
        if s[1] == 60u8 {
            Some(Condition::LessThan(category_of(s.take(1)).unwrap(), unsigned_of(s.skip(2)).unwrap()))
        } else if s[1] == 62u8 {
            Some(Condition::GreaterThan(category_of(s.take(1)).unwrap(), unsigned_of(s.skip(2)).unwrap()))
        } else {
            None
        }
    } else {
        None
    }
}

/// The rule that `<condition>:<destination>` or `<destination>` describes.
pub open spec fn rule_of(s: Seq<u8>) -> Option<RuleView> {
    match split_once_on(s, 58u8) {
        Some((condition, result)) => match condition_of(condition) {
            Some(c) => Some(RuleView { condition: c, result: result_of(result) }),
            None => None,
        },
        None => Some(RuleView { condition: Condition::Always, result: result_of(s) }),
    }
}

/// Reads a condition such as `a<2006`.
pub fn parse_condition(s: &[u8]) -> (r: Option<Condition>)
    ensures
        r == condition_of(s@),
{
    if s.len() < 2 {
        return None;
    }
    let letter = &s[0..1];
    assert(letter@ =~= s@.take(1));
    let digits = &s[2..s.len()];
    assert(digits@ =~= s@.skip(2));
    let category = parse_category(letter)?;
    let value = parse_unsigned(digits)?;
    if s[1] == 60u8 {
        Some(Condition::LessThan(category, value))
    } else if s[1] == 62u8 {
        Some(Condition::GreaterThan(category, value))
    } else {
        None
    }
}

/// Reads a rule such as `a<2006:qkq` or `rfg`.
pub fn parse_rule(s: &[u8]) -> (r: Option<Rule>)
    ensures
        match r {
            Some(rule) => rule_of(s@) == Some(rule@),
            None => rule_of(s@) is None,
        },
{
    match split_once(s, 58u8) {
        Some((condition, result)) => {
            let condition = parse_condition(condition)?;
            Some(Rule { condition, result: parse_result(result) })
        },
        None => Some(Rule { condition: Condition::Always, result: parse_result(s) }),
    }
}

/// A named list of rules, tried in order.
#[derive(Debug)]
pub struct Workflow {
    pub name: Vec<u8>,
    pub rules: Vec<Rule>,
}

/// A workflow with its name and rules viewed.
pub struct WorkflowView {
    pub name: Seq<u8>,
    pub rules: Seq<RuleView>,
}

/// The views of a sequence of rules.
pub open spec fn rule_views(rules: Seq<Rule>) -> Seq<RuleView> {
    rules.map_values(|r: Rule| r@)
}

impl View for Workflow {
    type V = WorkflowView;

    open spec fn view(&self) -> WorkflowView {
        WorkflowView { name: self.name@, rules: rule_views(self.rules@) }
    }
}

/// The index of the first of `rules` from `from` on that `part` meets, or the
/// number of rules when it meets none.
pub open spec fn first_passing(rules: Seq<RuleView>, part: Part, from: int) -> int
    decreases rules.len() - from,
{
    if from >= rules.len() {
        rules.len() as int
    } else if part.passes(rules[from].condition) {
        from
    } else {
        first_passing(rules, part, from + 1)
    }
}

impl WorkflowView {
    /// Whether some rule of this workflow applies to `part`.
    pub open spec fn decides(self, part: Part) -> bool {
        first_passing(self.rules, part, 0) < self.rules.len()
    }

    /// Where this workflow sends `part`: the destination of the first rule
    /// that the part meets.
    pub open spec fn outcome(self, part: Part) -> WorkflowResultView {
        self.rules[first_passing(self.rules, part, 0)].result
    }
}

impl Workflow {
    /// The destination of the first rule that `part` meets, if there is one.
    pub fn try_process_part(&self, part: &Part) -> (r: Option<&WorkflowResult>)
        ensures
            match r {
                Some(result) => self@.decides(*part) && result@ == self@.outcome(*part),
                None => !self@.decides(*part),
            },
    {
        let mut i: usize = 0;
        while i < self.rules.len()
            invariant
                i <= self.rules.len(),
                first_passing(self@.rules, *part, 0) == first_passing(self@.rules, *part, i as int),
            decreases self.rules.len() - i,
        {
            assert(self@.rules[i as int] == self.rules@[i as int]@);
            if part.passes_condition(&self.rules[i].condition) {
                return Some(&self.rules[i].result);
            }
            i = i + 1;
        }
        None
    }

    pub fn process_part(&self, part: &Part) -> (result: &WorkflowResult)
        requires
            self@.decides(*part),
        ensures
            result@ == self@.outcome(*part),
    {
        self.try_process_part(part).unwrap()
    }
}

/// The views of a sequence of rule texts, read as rules.
pub open spec fn rules_of(texts: Seq<Seq<u8>>) -> Option<Seq<RuleView>>
    decreases texts.len(),
{
    if texts.len() == 0 {
        Some(Seq::empty())
    } else {
        match (rules_of(texts.drop_last()), rule_of(texts.last())) {
            (Some(rules), Some(rule)) => Some(rules.push(rule)),
            _ => None,
        }
    }
}

/// The workflow that a line `<name>{<rule>,...,<rule>}` describes.
pub open spec fn workflow_of(line: Seq<u8>) -> Option<WorkflowView> {
    match split_once_on(line, 123u8) {
        Some((name, rest)) => if rest.len() > 0 && rest.last() == 125u8 {
            match rules_of(split_on(rest.drop_last(), 44u8)) {
                Some(rules) => Some(WorkflowView { name, rules }),
                None => None,
            }
        } else {
            None
        },
        None => None,
    }
}

/// Reads a workflow from a line such as `px{a<2006:qkq,m>2090:A,rfg}`.
pub fn parse_workflow(line: &[u8]) -> (r: Option<Workflow>)
    ensures
        match r {
            Some(workflow) => workflow_of(line@) == Some(workflow@),
            None => workflow_of(line@) is None,
        },
{
    let (name, rest) = split_once(line, 123u8)?;
    let body = strip_last(rest, 125u8)?;
    let texts = split(body, 44u8);
    let mut rules: Vec<Rule> = Vec::new();
    let mut i: usize = 0;
    assert(views(texts@).take(0) =~= Seq::<Seq<u8>>::empty());
    assert(rule_views(rules@) =~= Seq::<RuleView>::empty());
    while i < texts.len()
        invariant
            i <= texts.len(),
            rules_of(views(texts@).take(i as int)) == Some(rule_views(rules@)),
            rules_of(views(texts@)) is None ==> workflow_of(line@) is None,
        decreases texts.len() - i,
    {
        proof {
            assert(views(texts@).take(i + 1).drop_last() =~= views(texts@).take(i as int));
            assert(views(texts@).take(i + 1).last() == texts@[i as int]@);
        }
        match parse_rule(texts[i]) {
            Some(rule) => {
                proof {
                    assert(rule_views(rules@.push(rule)) =~= rule_views(rules@).push(rule@));
                }
                rules.push(rule);
            },
            None => {
                proof {
                    assert(rules_of(views(texts@).take(i + 1)) is None);
                    lemma_rules_of_prefix(views(texts@), i + 1);
                }
                return None;
            },
        }
        i = i + 1;
    }
    assert(views(texts@).take(i as int) =~= views(texts@));
    Some(Workflow { name: to_vec(name), rules })
}

/// If a prefix of the texts does not read as rules, neither does the whole.
pub proof fn lemma_rules_of_prefix(texts: Seq<Seq<u8>>, i: int)
    requires
        0 <= i <= texts.len(),
        rules_of(texts.take(i)) is None,
    ensures
        rules_of(texts) is None,
    decreases texts.len() - i,
{
    if i == texts.len() {
        assert(texts.take(i) =~= texts);
    } else {
        assert(texts.take(i + 1).drop_last() =~= texts.take(i));
        lemma_rules_of_prefix(texts, i + 1);
    }
}

/// The workflows of a puzzle, found by name.
pub type WorkflowMap = Vec<Workflow>;

/// The views of a sequence of workflows.
pub open spec fn workflow_views(map: Seq<Workflow>) -> Seq<WorkflowView> {
    map.map_values(|w: Workflow| w@)
}

/// The index of the last of the first `n` workflows that is called `name`, or
/// -1 when there is none. Where a name is used twice, the later workflow
/// stands for it.
pub open spec fn index_of(map: Seq<WorkflowView>, name: Seq<u8>, n: int) -> int
    decreases n,
{
    if n <= 0 {
        -1
    } else if map[n - 1].name == name {
        n - 1
    } else {
        index_of(map, name, n - 1)
    }
}

/// Whether following the workflows from the one called `current` accepts
/// `part`, taking at most `fuel` workflows: nothing when a workflow is
/// missing, when one has no rule for the part, or when the fuel runs out.
pub open spec fn verdict(map: Seq<WorkflowView>, part: Part, current: Seq<u8>, fuel: nat) -> Option<bool>
    decreases fuel,
{
    let i = index_of(map, current, map.len() as int);
    if fuel == 0 || i < 0 || !map[i].decides(part) {
        None
    } else {
        match map[i].outcome(part) {
            WorkflowResultView::Accept => Some(true),
            WorkflowResultView::Reject => Some(false),
            WorkflowResultView::Workflow(next) => verdict(map, part, next, (fuel - 1) as nat),
        }
    }
}

/// The name of the workflow that every part starts in.
pub open spec fn start_name() -> Seq<u8> {
    seq![105u8, 110u8]
}

/// Finds the workflow called `name`.
pub fn find_workflow(map: &Vec<Workflow>, name: &[u8]) -> (r: Option<usize>)
    ensures
        match r {
            Some(i) => i < map@.len() && i == index_of(workflow_views(map@), name@, map@.len() as int),
            None => index_of(workflow_views(map@), name@, map@.len() as int) < 0,
        },
        index_of(workflow_views(map@), name@, map@.len() as int) < map@.len(),
{
    let mut n: usize = map.len();
    while n > 0
        invariant
            n <= map.len(),
            index_of(workflow_views(map@), name@, map@.len() as int) == index_of(
                workflow_views(map@),
                name@,
                n as int,
            ),
        decreases n,
    {
        assert(workflow_views(map@)[n - 1] == map@[n - 1]@);
        if bytes_eq(map[n - 1].name.as_slice(), name) {
            return Some(n - 1);
        }
        n = n - 1;
    }
    None
}

/// Follows the workflows from `in` for `part`. A chain of more workflows than
/// there are never ends, so it is given up as undecided.
pub fn try_accepts(map: &Vec<Workflow>, part: &Part) -> (r: Option<bool>)
    ensures
        r == verdict(workflow_views(map@), *part, start_name(), map@.len()),
{
    let start: [u8; 2] = [105u8, 110u8];
    let mut current: &[u8] = start.as_slice();
    assert(current@ =~= start_name());
    let mut fuel: usize = map.len();
    let ghost views = workflow_views(map@);
    while fuel > 0
        invariant
            views == workflow_views(map@),
            fuel <= map@.len(),
            verdict(views, *part, start_name(), map@.len()) == verdict(views, *part, current@, fuel as nat),
        decreases fuel,
    {
        let i = match find_workflow(map, current) {
            Some(i) => i,
            None => {
                return None;
            },
        };
        assert(views[i as int] == map@[i as int]@);
        match map[i].try_process_part(part) {
            None => {
                return None;
            },
            Some(WorkflowResult::Accept) => {
                return Some(true);
            },
            Some(WorkflowResult::Reject) => {
                return Some(false);
            },
            Some(WorkflowResult::Workflow(next)) => {
                current = next.as_slice();
            },
        }
        fuel = fuel - 1;
    }
    None
}

/// Deciding whether a set of workflows accepts a part.
pub trait WorflowMapExt {
    /// Whether the workflows reach a verdict on `part`.
    spec fn decides(&self, part: Part) -> bool;

    /// The verdict on `part`, where one is reached.
    spec fn accepted(&self, part: Part) -> bool;

    fn accepts(&self, part: &Part) -> (b: bool)
        requires
            self.decides(*part),
        ensures
            b == self.accepted(*part),
    ;
}

impl WorflowMapExt for Vec<Workflow> {
    open spec fn decides(&self, part: Part) -> bool {
        verdict(workflow_views(self@), part, start_name(), self@.len()) is Some
    }

    open spec fn accepted(&self, part: Part) -> bool {
        verdict(workflow_views(self@), part, start_name(), self@.len()).unwrap()
    }

    fn accepts(&self, part: &Part) -> (b: bool) {
        try_accepts(self, part).unwrap()
    }
}

/// A box of parts: for each rating, the half-open range it lies in.
pub struct PartRanges {
    pub x: Range<u64>,
    pub m: Range<u64>,
    pub a: Range<u64>,
    pub s: Range<u64>,
}

/// A box split by a condition into the parts that meet it and those that do
/// not.
pub enum PartRangesSplitResult {
    All(PartRanges),
    Split { passes: PartRanges, fails: PartRanges },
    NoneOf(PartRanges),
}

/// Whether `v` lies in the half-open range `r`.
pub open spec fn within(r: Range<u64>, v: u64) -> bool {
    r.start <= v < r.end
}

/// The number of values in the half-open range `r`.
pub open spec fn span(r: Range<u64>) -> int {
    r.end - r.start
}

impl PartRanges {
    /// The range of `category`.
    pub open spec fn range(self, category: Category) -> Range<u64> {
        match category {
            Category::X => self.x,
            Category::M => self.m,
            Category::A => self.a,
            Category::S => self.s,
        }
    }

    /// This box with the range of `category` replaced.
    pub open spec fn with_range(self, category: Category, r: Range<u64>) -> PartRanges {
        match category {
            Category::X => PartRanges { x: r, ..self },
            Category::M => PartRanges { m: r, ..self },
            Category::A => PartRanges { a: r, ..self },
            Category::S => PartRanges { s: r, ..self },
        }
    }

    /// Whether `part` lies in this box.
    pub open spec fn contains(self, part: Part) -> bool {
        within(self.x, part.x) && within(self.m, part.m) && within(self.a, part.a) && within(
            self.s,
            part.s,
        )
    }

    /// Whether no range of this box ends before it starts.
    pub open spec fn ordered(self) -> bool {
        self.x.start <= self.x.end && self.m.start <= self.m.end && self.a.start <= self.a.end
            && self.s.start <= self.s.end
    }

    /// The number of parts in this box.
    pub open spec fn volume(self) -> int {
        span(self.x) * span(self.m) * span(self.a) * span(self.s)
    }

    pub fn get_range(&self, category: Category) -> (r: &Range<u64>)
        ensures
            *r == self.range(category),
    {
        match category {
            Category::X => &self.x,
            Category::M => &self.m,
            Category::A => &self.a,
            Category::S => &self.s,
        }
    }

    pub fn get_range_mut(&mut self, category: Category) -> (r: &mut Range<u64>)
        ensures
            *r == old(self).range(category),
            *final(self) == old(self).with_range(category, *final(r)),
    {
        match category {
            Category::X => &mut self.x,
            Category::M => &mut self.m,
            Category::A => &mut self.a,
            Category::S => &mut self.s,
        }
    }

    pub fn num_parts_possible(&self) -> (n: u64)
        requires
            self.ordered(),
            span(self.x) * span(self.m) <= u64::MAX,
            span(self.x) * span(self.m) * span(self.a) <= u64::MAX,
            self.volume() <= u64::MAX,
        ensures
            n == self.volume(),
    {
        let dx = self.x.end - self.x.start;
        let dm = self.m.end - self.m.start;
        let da = self.a.end - self.a.start;
        let ds = self.s.end - self.s.start;
        proof {
            lemma_product_bounds(dx as int, dm as int, da as int, ds as int);
        }
        dx * dm * da * ds
    }

    /// The number of parts in this box, or nothing when a range ends before
    /// it starts or the number does not fit in 64 bits.
    pub fn checked_num_parts_possible(&self) -> (n: Option<u64>)
        ensures
            n == (if self.ordered() && self.volume() <= u64::MAX {
                Some(self.volume() as u64)
            } else {
                None
            }),
    {
        let dx = self.x.end.checked_sub(self.x.start)?;
        let dm = self.m.end.checked_sub(self.m.start)?;
        let da = self.a.end.checked_sub(self.a.start)?;
        let ds = self.s.end.checked_sub(self.s.start)?;
        if dx == 0 || dm == 0 || da == 0 || ds == 0 {
            proof {
                lemma_product_zero(dx as int, dm as int, da as int, ds as int);
            }
            return Some(0);
        }
        proof {
            lemma_product_bounds(dx as int, dm as int, da as int, ds as int);
        }
        let p1 = dx.checked_mul(dm)?;
        let p2 = p1.checked_mul(da)?;
        p2.checked_mul(ds)
    }

    /// A copy of this box.
    pub fn duplicate(&self) -> (c: PartRanges)
        ensures
            c == *self,
    {
        PartRanges {
            x: self.x.start..self.x.end,
            m: self.m.start..self.m.end,
            a: self.a.start..self.a.end,
            s: self.s.start..self.s.end,
        }
    }

    pub fn split_on_condition(self, condition: &Condition) -> (r: PartRangesSplitResult)
        ensures
            r == split_of(self, *condition),
    {
        match *condition {
            Condition::LessThan(category, val) => {
                let start = self.get_range(category).start;
                let end = self.get_range(category).end;
                if end <= val {
                    PartRangesSplitResult::All(self)
                } else if start >= val {
                    PartRangesSplitResult::NoneOf(self)
                } else {
                    let mut passes = self.duplicate();
                    passes.get_range_mut(category).end = val;
                    let mut fails = self;
                    fails.get_range_mut(category).start = val;
                    PartRangesSplitResult::Split { passes, fails }
                }
            },
            Condition::GreaterThan(category, val) => {
                let start = self.get_range(category).start;
                let end = self.get_range(category).end;
                if start > val {
                    PartRangesSplitResult::All(self)
                } else if end == 0 || end - 1 <= val {
                    PartRangesSplitResult::NoneOf(self)
                } else {
                    let mut passes = self.duplicate();
                    passes.get_range_mut(category).start = val + 1;
                    let mut fails = self;
                    fails.get_range_mut(category).end = val + 1;
                    PartRangesSplitResult::Split { passes, fails }
                }
            },
            Condition::Always => PartRangesSplitResult::All(self),
        }
    }
}

/// How `condition` splits the box `b`: whole where every part of it meets the
/// condition or none does, and otherwise cut at the condition's value in the
/// range of its category.
pub open spec fn split_of(b: PartRanges, condition: Condition) -> PartRangesSplitResult {
    match condition {
        Condition::LessThan(category, val) => {
            let r = b.range(category);
            if r.end <= val {
                PartRangesSplitResult::All(b)
            } else if r.start >= val {
                PartRangesSplitResult::NoneOf(b)
            } else {
                PartRangesSplitResult::Split {
                    passes: b.with_range(category, r.start..val),
                    fails: b.with_range(category, val..r.end),
                }
            }
        },
        Condition::GreaterThan(category, val) => {
            let r = b.range(category);
            if r.start > val {
                PartRangesSplitResult::All(b)
            } else if r.end <= val + 1 {
                PartRangesSplitResult::NoneOf(b)
            } else {
                PartRangesSplitResult::Split {
                    passes: b.with_range(category, ((val + 1) as u64)..r.end),
                    fails: b.with_range(category, r.start..((val + 1) as u64)),
                }
            }
        },
        Condition::Always => PartRangesSplitResult::All(b),
    }
}

/// A split sorts the parts of a box by the condition: a part of the box lies
/// in the passing piece exactly when it meets the condition, and in the
/// failing piece exactly when it does not; the pieces hold nothing else.
pub proof fn lemma_split_sorts(b: PartRanges, condition: Condition, part: Part)
    ensures
        match split_of(b, condition) {
            PartRangesSplitResult::All(p) => p.contains(part) <==> b.contains(part),
            PartRangesSplitResult::NoneOf(f) => f.contains(part) <==> b.contains(part),
            PartRangesSplitResult::Split { passes, fails } => {
                &&& passes.contains(part) <==> b.contains(part) && part.passes(condition)
                &&& fails.contains(part) <==> b.contains(part) && !part.passes(condition)
            },
        },
        b.contains(part) ==> match split_of(b, condition) {
            PartRangesSplitResult::All(_) => part.passes(condition),
            PartRangesSplitResult::NoneOf(_) => !part.passes(condition),
            PartRangesSplitResult::Split { .. } => true,
        },
{
}

/// A split keeps the number of parts: the pieces of an ordered box are
/// ordered, and their volumes add up to the volume of the box.
pub proof fn lemma_split_volume(b: PartRanges, condition: Condition)
    requires
        b.ordered(),
    ensures
        match split_of(b, condition) {
            PartRangesSplitResult::All(p) => p == b,
            PartRangesSplitResult::NoneOf(f) => f == b,
            PartRangesSplitResult::Split { passes, fails } => {
                &&& passes.ordered()
                &&& fails.ordered()
                &&& passes.volume() + fails.volume() == b.volume()
            },
        },
{
    match split_of(b, condition) {
        PartRangesSplitResult::Split { passes, fails } => {
            let category = match condition {
                Condition::LessThan(c, _) => c,
                Condition::GreaterThan(c, _) => c,
                Condition::Always => Category::X,
            };
            let (x, m, a, s) = (span(b.x), span(b.m), span(b.a), span(b.s));
            let p = span(passes.range(category));
            let f = span(fails.range(category));
            match category {
                Category::X => {
                    assert(p * m * a * s + f * m * a * s == (p + f) * m * a * s) by (nonlinear_arith);
                },
                Category::M => {
                    assert(x * p * a * s + x * f * a * s == x * (p + f) * a * s) by (nonlinear_arith);
                },
                Category::A => {
                    assert(x * m * p * s + x * m * f * s == x * m * (p + f) * s) by (nonlinear_arith);
                },
                Category::S => {
                    assert(x * m * a * p + x * m * a * f == x * m * a * (p + f)) by (nonlinear_arith);
                },
            }
        },
        _ => {},
    }
}

/// A product of four positive factors is at least each partial product.
pub proof fn lemma_product_bounds(a: int, b: int, c: int, d: int)
    requires
        a >= 0,
        b >= 0,
        c >= 0,
        d >= 0,
    ensures
        a * b * c * d >= 0,
        a * b >= 0,
        a * b * c >= 0,
        c > 0 && d > 0 ==> a * b <= a * b * c * d,
        d > 0 ==> a * b * c <= a * b * c * d,
{
    assert(a * b >= 0) by (nonlinear_arith)
        requires
            a >= 0,
            b >= 0,
    ;
    let ab = a * b;
    assert(ab * c >= 0) by (nonlinear_arith)
        requires
            ab >= 0,
            c >= 0,
    ;
    let abc = ab * c;
    assert(abc * d >= 0) by (nonlinear_arith)
        requires
            abc >= 0,
            d >= 0,
    ;
    assert(d > 0 ==> abc <= abc * d) by (nonlinear_arith)
        requires
            abc >= 0,
            d >= 0,
    ;
    assert(c > 0 ==> ab <= ab * c) by (nonlinear_arith)
        requires
            ab >= 0,
            c >= 0,
    ;
}

/// A product with a zero factor is zero.
pub proof fn lemma_product_zero(a: int, b: int, c: int, d: int)
    requires
        a == 0 || b == 0 || c == 0 || d == 0,
    ensures
        a * b * c * d == 0,
{
    assert(a * b * c * d == 0) by (nonlinear_arith)
        requires
            a == 0 || b == 0 || c == 0 || d == 0,
    ;
}

} // verus!
