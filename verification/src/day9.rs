//! Histories of readings that are carried on by their differences.

use crate::text::{i32_of, lines, lines_of, parse_i32, views, words, words_of};
use vstd::prelude::*;
use vstd::string::StringSliceAdditionalSpecFns;

verus! {

/// Whether every reading is zero.
pub open spec fn all_zero(s: Seq<i32>) -> bool {
    forall|i: int| 0 <= i < s.len() ==> #[trigger] s[i] == 0
}

/// The differences between the first `n + 1` neighbouring readings, as far
/// as they fit in 32 bits.
pub open spec fn differences(s: Seq<i32>, n: int) -> Option<Seq<i32>>
    decreases n,
{
    if n <= 0 {
        Some(Seq::empty())
    } else {
        match differences(s, n - 1) {
            None => None,
            Some(ds) => if i32::MIN <= s[n] - s[n - 1] <= i32::MAX {
                Some(ds.push((s[n] - s[n - 1]) as i32))
            } else {
                None
            },
        }
    }
}

/// The reading that carries the history on: zero after zeros, and otherwise
/// the last reading plus what carries on the differences.
pub open spec fn next_value(s: Seq<i32>) -> Option<i32>
    decreases s.len(),
{
    if all_zero(s) {
        Some(0)
    } else {
        match differences(s, s.len() - 1) {
            None => None,
            Some(ds) => if ds.len() < s.len() {
                match next_value(ds) {
                    None => None,
                    Some(v) => if i32::MIN <= s.last() + v <= i32::MAX {
                        Some((s.last() + v) as i32)
                    } else {
                        None
                    },
                }
            } else {
                None
            },
        }
    }
}

/// The reading that comes before the history: zero before zeros, and
/// otherwise the first reading minus what comes before the differences.
pub open spec fn prev_value(s: Seq<i32>) -> Option<i32>
    decreases s.len(),
{
    if all_zero(s) {
        Some(0)
    } else {
        match differences(s, s.len() - 1) {
            None => None,
            Some(ds) => if ds.len() < s.len() {
                match prev_value(ds) {
                    None => None,
                    Some(v) => if i32::MIN <= s[0] - v <= i32::MAX {
                        Some((s[0] - v) as i32)
                    } else {
                        None
                    },
                }
            } else {
                None
            },
        }
    }
}

/// If the first `i` differences do not fit, neither do the first `n`.
pub proof fn lemma_differences_prefix(s: Seq<i32>, i: int, n: int)
    requires
        0 <= i <= n,
        differences(s, i) is None,
    ensures
        differences(s, n) is None,
    decreases n - i,
{
    if i < n {
        lemma_differences_prefix(s, i, n - 1);
    }
}

/// Tells whether every reading is zero.
fn is_all_zero(s: &Vec<i32>) -> (b: bool)
    ensures
        b == all_zero(s@),
{
    let mut i: usize = 0;
    while i < s.len()
        invariant
            i <= s.len(),
            forall|k: int| 0 <= k < i ==> #[trigger] s@[k] == 0,
        decreases s.len() - i,
    {
        if s[i] != 0 {
            return false;
        }
        i = i + 1;
    }
    true
}

/// The differences between neighbouring readings. The history must not be
/// empty.
fn layer_below(s: &Vec<i32>) -> (r: Option<Vec<i32>>)
    requires
        s@.len() > 0,
    ensures
        match r {
            Some(ds) => differences(s@, s@.len() - 1) == Some(ds@) && ds@.len() == s@.len() - 1,
            None => differences(s@, s@.len() - 1) is None,
        },
{
    let mut ds: Vec<i32> = Vec::new();
    let mut i: usize = 1;
    while i < s.len()
        invariant
            1 <= i <= s.len(),
            differences(s@, i - 1) == Some(ds@),
            ds@.len() == i - 1,
        decreases s.len() - i,
    {
        match s[i].checked_sub(s[i - 1]) {
            Some(d) => {
                ds.push(d);
            },
            None => {
                proof {
                    lemma_differences_prefix(s@, i as int, s@.len() - 1);
                }
                return None;
            },
        }
        i = i + 1;
    }
    Some(ds)
}

/// The reading that carries the history on.
pub fn find_next_value(s: &Vec<i32>) -> (r: Option<i32>)
    ensures
        r == next_value(s@),
    decreases s@.len(),
{
    if is_all_zero(s) {
        return Some(0);
    }
    let ds = layer_below(s)?;
    let v = find_next_value(&ds)?;
    s[s.len() - 1].checked_add(v)
}

/// The reading that comes before the history.
pub fn find_prev_value(s: &Vec<i32>) -> (r: Option<i32>)
    ensures
        r == prev_value(s@),
    decreases s@.len(),
{
    if is_all_zero(s) {
        return Some(0);
    }
    let ds = layer_below(s)?;
    let v = find_prev_value(&ds)?;
    s[0].checked_sub(v)
}

/// The readings that the first `n` words denote, if all of them do.
pub open spec fn readings_from(texts: Seq<Seq<u8>>, n: int) -> Option<Seq<i32>>
    decreases n,
{
    if n <= 0 {
        Some(Seq::empty())
    } else {
        match (readings_from(texts, n - 1), i32_of(texts[n - 1])) {
            (Some(rs), Some(v)) => Some(rs.push(v)),
            _ => None,
        }
    }
}

/// The history that a line of numbers describes.
pub open spec fn history_of(line: Seq<u8>) -> Option<Seq<i32>> {
    readings_from(words_of(line), words_of(line).len() as int)
}

/// If the first `i` words are no readings, neither are the first `n`.
pub proof fn lemma_readings_from_prefix(texts: Seq<Seq<u8>>, i: int, n: int)
    requires
        0 <= i <= n,
        readings_from(texts, i) is None,
    ensures
        readings_from(texts, n) is None,
    decreases n - i,
{
    if i < n {
        lemma_readings_from_prefix(texts, i, n - 1);
    }
}

/// Reads a history from a line of numbers.
pub fn parse_history(line: &[u8]) -> (r: Option<Vec<i32>>)
    ensures
        match r {
            Some(history) => history_of(line@) == Some(history@),
            None => history_of(line@) is None,
        },
{
    let texts = words(line);
    let ghost all = words_of(line@);
    let mut history: Vec<i32> = Vec::new();
    let mut i: usize = 0;
    while i < texts.len()
        invariant
            i <= texts.len(),
            all == views(texts@),
            all == words_of(line@),
            readings_from(all, i as int) == Some(history@),
        decreases texts.len() - i,
    {
        assert(all[i as int] == texts@[i as int]@);
        match parse_i32(texts[i]) {
            Some(v) => {
                history.push(v);
            },
            None => {
                proof {
                    lemma_readings_from_prefix(all, i + 1, all.len() as int);
                }
                return None;
            },
        }
        i = i + 1;
    }
    Some(history)
}

/// The sum of what carries on each of the first `n` histories, as far as
/// every line is a history and every number fits in 32 bits.
pub open spec fn next_sum(ls: Seq<Seq<u8>>, n: int) -> Option<i32>
    decreases n,
{
    if n <= 0 {
        Some(0)
    } else {
        match (next_sum(ls, n - 1), history_of(ls[n - 1])) {
            (Some(sum), Some(history)) => match next_value(history) {
                Some(v) => if i32::MIN <= sum + v <= i32::MAX {
                    Some((sum + v) as i32)
                } else {
                    None
                },
                None => None,
            },
            _ => None,
        }
    }
}

/// The sum of what comes before each of the first `n` histories.
pub open spec fn prev_sum(ls: Seq<Seq<u8>>, n: int) -> Option<i32>
    decreases n,
{
    if n <= 0 {
        Some(0)
    } else {
        match (prev_sum(ls, n - 1), history_of(ls[n - 1])) {
            (Some(sum), Some(history)) => match prev_value(history) {
                Some(v) => if i32::MIN <= sum + v <= i32::MAX {
                    Some((sum + v) as i32)
                } else {
                    None
                },
                None => None,
            },
            _ => None,
        }
    }
}

/// If the first `i` histories have no sum, neither have the first `n`.
pub proof fn lemma_next_sum_prefix(ls: Seq<Seq<u8>>, i: int, n: int)
    requires
        0 <= i <= n,
        next_sum(ls, i) is None,
    ensures
        next_sum(ls, n) is None,
    decreases n - i,
{
    if i < n {
        lemma_next_sum_prefix(ls, i, n - 1);
    }
}

/// If the first `i` histories have no sum, neither have the first `n`.
pub proof fn lemma_prev_sum_prefix(ls: Seq<Seq<u8>>, i: int, n: int)
    requires
        0 <= i <= n,
        prev_sum(ls, i) is None,
    ensures
        prev_sum(ls, n) is None,
    decreases n - i,
{
    if i < n {
        lemma_prev_sum_prefix(ls, i, n - 1);
    }
}

/// The sum of the readings that carry the histories on, one history per
/// line.
pub fn part1(puzzle_input: &str) -> (r: Option<i32>)
    ensures
        r == next_sum(lines_of(puzzle_input.spec_bytes()), lines_of(puzzle_input.spec_bytes()).len() as int),
{
    let ls = lines(puzzle_input.as_bytes());
    let ghost all = lines_of(puzzle_input.spec_bytes());
    let mut sum: i32 = 0;
    let mut i: usize = 0;
    while i < ls.len()
        invariant
            i <= ls.len(),
            all == views(ls@),
            all == lines_of(puzzle_input.spec_bytes()),
            next_sum(all, i as int) == Some(sum),
        decreases ls.len() - i,
    {
        assert(all[i as int] == ls@[i as int]@);
        let step = match parse_history(ls[i]) {
            Some(history) => match find_next_value(&history) {
                Some(v) => sum.checked_add(v),
                None => None,
            },
            None => None,
        };
        match step {
            Some(next) => {
                sum = next;
            },
            None => {
                proof {
                    lemma_next_sum_prefix(all, i + 1, all.len() as int);
                }
                return None;
            },
        }
        i = i + 1;
    }
    Some(sum)
}

/// The sum of the readings that come before the histories, one history per
/// line.
pub fn part2(puzzle_input: &str) -> (r: Option<i32>)
    ensures
        r == prev_sum(lines_of(puzzle_input.spec_bytes()), lines_of(puzzle_input.spec_bytes()).len() as int),
{
    let ls = lines(puzzle_input.as_bytes());
    let ghost all = lines_of(puzzle_input.spec_bytes());
    let mut sum: i32 = 0;
    let mut i: usize = 0;
    while i < ls.len()
        invariant
            i <= ls.len(),
            all == views(ls@),
            all == lines_of(puzzle_input.spec_bytes()),
            prev_sum(all, i as int) == Some(sum),
        decreases ls.len() - i,
    {
        assert(all[i as int] == ls@[i as int]@);
        let step = match parse_history(ls[i]) {
            Some(history) => match find_prev_value(&history) {
                Some(v) => sum.checked_add(v),
                None => None,
            },
            None => None,
        };
        match step {
            Some(next) => {
                sum = next;
            },
            None => {
                proof {
                    lemma_prev_sum_prefix(all, i + 1, all.len() as int);
                }
                return None;
            },
        }
        i = i + 1;
    }
    Some(sum)
}

} // verus!
