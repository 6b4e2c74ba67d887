//! Boat races: how long to hold the button to beat the record.

use crate::text::{lines, lines_of, parse_usize, usize_of, views, words, words_of};
use vstd::prelude::*;
use vstd::string::StringSliceAdditionalSpecFns;

verus! {

/// A race: how long it lasts, and the distance to beat.
#[derive(Debug, Clone, Copy, PartialEq, Eq, Structural)]
pub struct Race {
    pub time: usize,
    pub record: usize,
}

/// The distance that the boat goes in a race of `time` when the button is
/// held for `hold`.
pub open spec fn distance(time: int, hold: int) -> int {
    hold * (time - hold)
}

impl Race {
    /// Whether holding the button for `hold` beats the record.
    pub open spec fn wins(self, hold: int) -> bool {
        0 <= hold <= self.time && distance(self.time as int, hold) > self.record
    }

    /// The number of hold times below `n` that beat the record.
    pub open spec fn win_count(self, n: int) -> int
        decreases n,
    {
        if n <= 0 {
            0
        } else if self.wins(n - 1) {
            self.win_count(n - 1) + 1
        } else {
            self.win_count(n - 1)
        }
    }
}

/// Up to half the time, holding longer goes at least as far.
pub proof fn lemma_distance_grows(time: int, x: int, y: int)
    requires
        0 <= x <= y,
        x + y <= time,
    ensures
        distance(time, x) <= distance(time, y),
{
    assert(y * (time - y) - x * (time - x) == (y - x) * (time - x - y)) by (nonlinear_arith);
    assert((y - x) * (time - x - y) >= 0) by (nonlinear_arith)
        requires
            y - x >= 0,
            time - x - y >= 0,
    ;
}

/// Holding for `hold` goes as far as holding for the rest of the time.
pub proof fn lemma_distance_mirror(time: int, hold: int)
    ensures
        distance(time, hold) == distance(time, time - hold),
{
    assert(hold * (time - hold) == (time - hold) * (time - (time - hold))) by (nonlinear_arith);
}

/// Where the winning hold times are those from `lo` to `hi`, their number
/// below `n` is the part of that stretch below `n`.
pub proof fn lemma_win_count(race: Race, lo: int, hi: int, n: int)
    requires
        0 <= lo <= hi,
        forall|x: int| race.wins(x) <==> lo <= x <= hi,
        0 <= n,
    ensures
        race.win_count(n) == (if n <= lo {
            0
        } else if n <= hi + 1 {
            n - lo
        } else {
            hi - lo + 1
        }),
    decreases n,
{
    if n > 0 {
        lemma_win_count(race, lo, hi, n - 1);
    }
}

/// Where no hold time wins, none is counted.
pub proof fn lemma_win_count_none(race: Race, n: int)
    requires
        forall|x: int| !race.wins(x),
    ensures
        race.win_count(n) == 0,
    decreases n,
{
    if n > 0 {
        lemma_win_count_none(race, n - 1);
    }
}

impl Race {
    /// Tells whether holding the button for `hold` beats the record.
    fn beats(&self, hold: usize) -> (b: bool)
        requires
            hold <= self.time,
        ensures
            b == self.wins(hold as int),
    {
        let rest = (self.time - hold) as u128;
        assert(hold * rest <= 0xffff_ffff_ffff_ffff * 0xffff_ffff_ffff_ffff) by (nonlinear_arith)
            requires
                hold <= 0xffff_ffff_ffff_ffff,
                rest <= 0xffff_ffff_ffff_ffff,
        ;
        (hold as u128) * rest > self.record as u128
    }

    /// The least and the greatest hold time that beat the record, if any
    /// does; all those between them do too.
    pub fn compute_elite_hold_times(&self) -> (r: Option<(usize, usize)>)
        ensures
            match r {
                Some((lo, hi)) => 1 <= lo <= hi <= self.time && forall|x: int| self.wins(x) <==> lo <= x <= hi,
                None => forall|x: int| !self.wins(x),
            },
    {
        let time = self.time;
        let half = time / 2;
        if !self.beats(half) {
            proof {
                assert forall|x: int| !self.wins(x) by {
                    if 0 <= x <= time {
                        if x <= half {
                            lemma_distance_grows(time as int, x, half as int);
                        } else {
                            lemma_distance_mirror(time as int, x);
                            lemma_distance_grows(time as int, time - x, half as int);
                        }
                    }
                }
            }
            return None;
        }
        let mut a: usize = 0;
        let mut b: usize = half;
        while a < b
            invariant
                a <= b <= half,
                half == time / 2,
                time == self.time,
                self.wins(b as int),
                forall|x: int| 0 <= x < a ==> !self.wins(x),
            decreases b - a,
        {
            let mid = a + (b - a) / 2;
            if self.beats(mid) {
                b = mid;
            } else {
                proof {
                    assert forall|x: int| 0 <= x < mid + 1 implies !self.wins(x) by {
                        lemma_distance_grows(time as int, x, mid as int);
                    }
                }
                a = mid + 1;
            }
        }
        proof {
            assert(distance(time as int, 0) == 0) by (nonlinear_arith);
            assert(a == b);
            assert(self.wins(a as int));
            assert forall|x: int| self.wins(x) <==> a <= x <= time - a by {
                if 0 <= x <= time {
                    if x <= half {
                        if a <= x {
                            lemma_distance_grows(time as int, a as int, x);
                            assert(self.wins(x));
                        } else {
                            assert(!self.wins(x));
                        }
                    } else {
                        let y = time - x;
                        lemma_distance_mirror(time as int, x);
                        assert(distance(time as int, x) == distance(time as int, y));
                        assert(0 <= y <= half);
                        if y >= a {
                            lemma_distance_grows(time as int, a as int, y);
                            assert(self.wins(y));
                            assert(self.wins(x));
                        } else {
                            assert(!self.wins(y));
                            assert(!self.wins(x));
                        }
                    }
                }
            }
        }
        Some((a, time - a))
    }

    /// The number of hold times that beat the record.
    pub fn num_elite_hold_times(&self) -> (n: usize)
        ensures
            n == self.win_count(self.time + 1),
    {
        match self.compute_elite_hold_times() {
            Some((lo, hi)) => {
                proof {
                    lemma_win_count(*self, lo as int, hi as int, self.time + 1);
                }
                hi - lo + 1
            },
            None => {
                proof {
                    lemma_win_count_none(*self, self.time + 1);
                }
                0
            },
        }
    }
}

/// The numbers that the words from the second to the `n`-th denote.
pub open spec fn values_from(texts: Seq<Seq<u8>>, n: int) -> Option<Seq<usize>>
    decreases n,
{
    if n <= 1 {
        Some(Seq::empty())
    } else {
        match (values_from(texts, n - 1), usize_of(texts[n - 1])) {
            (Some(vs), Some(v)) => Some(vs.push(v)),
            _ => None,
        }
    }
}

/// The numbers that a line holds after its title.
pub open spec fn values_of(line: Seq<u8>) -> Option<Seq<usize>> {
    values_from(words_of(line), words_of(line).len() as int)
}

/// If the first `i` words hold no numbers, neither do the first `n`.
pub proof fn lemma_values_from_prefix(texts: Seq<Seq<u8>>, i: int, n: int)
    requires
        0 <= i <= n,
        values_from(texts, i) is None,
    ensures
        values_from(texts, n) is None,
    decreases n - i,
{
    if i < n {
        lemma_values_from_prefix(texts, i, n - 1);
    }
}

/// Reads the numbers that a line holds after its title.
fn parse_values(line: &[u8]) -> (r: Option<Vec<usize>>)
    ensures
        match r {
            Some(vs) => values_of(line@) == Some(vs@),
            None => values_of(line@) is None,
        },
{
    let texts = words(line);
    let ghost all = words_of(line@);
    let mut vs: Vec<usize> = Vec::new();
    assert(all.len() == texts@.len());
    if texts.len() == 0 {
        return Some(vs);
    }
    let mut i: usize = 1;
    while i < texts.len()
        invariant
            1 <= i <= texts.len(),
            all == views(texts@),
            all == words_of(line@),
            values_from(all, i as int) == Some(vs@),
        decreases texts.len() - i,
    {
        assert(all[i as int] == texts@[i as int]@);
        match parse_usize(texts[i]) {
            Some(v) => {
                vs.push(v);
            },
            None => {
                proof {
                    lemma_values_from_prefix(all, i + 1, all.len() as int);
                }
                return None;
            },
        }
        i = i + 1;
    }
    Some(vs)
}

/// The races that pair the times with the records, as far as both go.
pub open spec fn paired(times: Seq<usize>, records: Seq<usize>) -> Seq<Race> {
    Seq::new(
        if times.len() <= records.len() { times.len() } else { records.len() },
        |i: int| Race { time: times[i], record: records[i] },
    )
}

/// The races that a text describes: its first line holds the times, its
/// second the records.
pub open spec fn races_of(text: Seq<u8>) -> Option<Seq<Race>> {
    let ls = lines_of(text);
    if ls.len() < 2 {
        None
    } else {
        match (values_of(ls[0]), values_of(ls[1])) {
            (Some(times), Some(records)) => Some(paired(times, records)),
            _ => None,
        }
    }
}

/// Reads the races, one per pair of a time and a record.
pub fn parse_input_part1(puzzle_input: &str) -> (r: Option<Vec<Race>>)
    ensures
        match r {
            Some(races) => races_of(puzzle_input.spec_bytes()) == Some(races@),
            None => races_of(puzzle_input.spec_bytes()) is None,
        },
{
    let ls = lines(puzzle_input.as_bytes());
    assert(views(ls@).len() == ls@.len());
    if ls.len() < 2 {
        return None;
    }
    assert(views(ls@)[0] == ls@[0]@);
    assert(views(ls@)[1] == ls@[1]@);
    let times = parse_values(ls[0])?;
    let records = parse_values(ls[1])?;
    let n = if times.len() <= records.len() {
        times.len()
    } else {
        records.len()
    };
    let mut races: Vec<Race> = Vec::new();
    let mut i: usize = 0;
    while i < n
        invariant
            i <= n,
            n <= times.len(),
            n <= records.len(),
            races@.len() == i,
            forall|k: int| 0 <= k < i ==> races@[k] == (Race { time: times@[k], record: records@[k] }),
        decreases n - i,
    {
        races.push(Race { time: times[i], record: records[i] });
        i = i + 1;
    }
    assert(races@ =~= paired(times@, records@));
    Some(races)
}

/// The number that the digits among the first `n` bytes denote, read as one
/// number, as far as it fits in `usize`.
pub open spec fn joined_from(line: Seq<u8>, n: int) -> Option<usize>
    decreases n,
{
    if n <= 0 {
        Some(0)
    } else {
        match joined_from(line, n - 1) {
            None => None,
            Some(v) => if 48 <= line[n - 1] <= 57 {
                if v * 10 + (line[n - 1] - 48) <= usize::MAX {
                    Some((v * 10 + (line[n - 1] - 48)) as usize)
                } else {
                    None
                }
            } else {
                Some(v)
            },
        }
    }
}

/// If the first `i` bytes join to no number, neither do the first `n`.
pub proof fn lemma_joined_from_prefix(line: Seq<u8>, i: int, n: int)
    requires
        0 <= i <= n,
        joined_from(line, i) is None,
    ensures
        joined_from(line, n) is None,
    decreases n - i,
{
    if i < n {
        lemma_joined_from_prefix(line, i, n - 1);
    }
}

/// Reads the digits of a line as one number.
fn parse_joined(line: &[u8]) -> (r: Option<usize>)
    ensures
        r == joined_from(line@, line@.len() as int),
{
    let mut value: usize = 0;
    let mut i: usize = 0;
    while i < line.len()
        invariant
            i <= line.len(),
            joined_from(line@, i as int) == Some(value),
        decreases line.len() - i,
    {
        let c = line[i];
        if 48 <= c && c <= 57 {
            let step = match value.checked_mul(10) {
                Some(tens) => tens.checked_add((c - 48) as usize),
                None => None,
            };
            match step {
                Some(next) => {
                    value = next;
                },
                None => {
                    proof {
                        lemma_joined_from_prefix(line@, i + 1, line@.len() as int);
                    }
                    return None;
                },
            }
        }
        i = i + 1;
    }
    Some(value)
}

/// The one race that a text describes when the digits of each of its first
/// two lines are read as one number.
pub open spec fn race_of(text: Seq<u8>) -> Option<Race> {
    let ls = lines_of(text);
    if ls.len() < 2 {
        None
    } else {
        match (joined_from(ls[0], ls[0].len() as int), joined_from(ls[1], ls[1].len() as int)) {
            (Some(time), Some(record)) => Some(Race { time, record }),
            _ => None,
        }
    }
}

/// Reads the one long race.
pub fn parse_input_part2(puzzle_input: &str) -> (r: Option<Race>)
    ensures
        r == race_of(puzzle_input.spec_bytes()),
{
    let ls = lines(puzzle_input.as_bytes());
    assert(views(ls@).len() == ls@.len());
    if ls.len() < 2 {
        return None;
    }
    assert(views(ls@)[0] == ls@[0]@);
    assert(views(ls@)[1] == ls@[1]@);
    let time = parse_joined(ls[0])?;
    let record = parse_joined(ls[1])?;
    Some(Race { time, record })
}

/// The product of the numbers of winning hold times of the first `n` races,
/// as far as it fits in `usize` at every step.
pub open spec fn ways_product(races: Seq<Race>, n: int) -> Option<usize>
    decreases n,
{
    if n <= 0 {
        Some(1)
    } else {
        match ways_product(races, n - 1) {
            None => None,
            Some(p) => if p * races[n - 1].win_count(races[n - 1].time + 1) <= usize::MAX {
                Some((p * races[n - 1].win_count(races[n - 1].time + 1)) as usize)
            } else {
                None
            },
        }
    }
}

/// If the first `i` races have no product, neither have the first `n`.
pub proof fn lemma_ways_product_prefix(races: Seq<Race>, i: int, n: int)
    requires
        0 <= i <= n,
        ways_product(races, i) is None,
    ensures
        ways_product(races, n) is None,
    decreases n - i,
{
    if i < n {
        lemma_ways_product_prefix(races, i, n - 1);
    }
}

/// The product of the numbers of ways to win each race.
pub fn part1(races: &[Race]) -> (r: Option<usize>)
    ensures
        r == ways_product(races@, races@.len() as int),
{
    let mut product: usize = 1;
    let mut i: usize = 0;
    while i < races.len()
        invariant
            i <= races.len(),
            ways_product(races@, i as int) == Some(product),
        decreases races.len() - i,
    {
        match product.checked_mul(races[i].num_elite_hold_times()) {
            Some(next) => {
                product = next;
            },
            None => {
                proof {
                    lemma_ways_product_prefix(races@, i + 1, races@.len() as int);
                }
                return None;
            },
        }
        i = i + 1;
    }
    Some(product)
}

/// The number of ways to win the one long race.
pub fn part2(race: &Race) -> (n: usize)
    ensures
        n == race.win_count(race.time + 1),
{
    race.num_elite_hold_times()
}

} // verus!
