//! Scratchcards: winning numbers, scores, and cards won.

use crate::text::{parse_usize, split_once, split_once_on, usize_of, views, words, words_of};
use vstd::prelude::*;
use vstd::string::StringSliceAdditionalSpecFns;

verus! {

/// The numbers below 100 that the first `n` words denote, if all of them do.
pub open spec fn numbers_from(texts: Seq<Seq<u8>>, n: int) -> Option<Seq<usize>>
    decreases n,
{
    if n <= 0 {
        Some(Seq::empty())
    } else {
        match (numbers_from(texts, n - 1), usize_of(texts[n - 1])) {
            (Some(ns), Some(v)) => if v < 100 {
                Some(ns.push(v))
            } else {
                None
            },
            _ => None,
        }
    }
}

/// The numbers below 100 that the words of `s` denote.
pub open spec fn numbers_of(s: Seq<u8>) -> Option<Seq<usize>> {
    numbers_from(words_of(s), words_of(s).len() as int)
}

/// If the first `i` words are no numbers, neither are the first `n`.
pub proof fn lemma_numbers_from_prefix(texts: Seq<Seq<u8>>, i: int, n: int)
    requires
        0 <= i <= n,
        numbers_from(texts, i) is None,
    ensures
        numbers_from(texts, n) is None,
    decreases n - i,
{
    if i < n {
        lemma_numbers_from_prefix(texts, i, n - 1);
    }
}

/// How many of the first `n` of `yours` are among `winning`.
pub open spec fn matches(winning: Seq<usize>, yours: Seq<usize>, n: int) -> int
    decreases n,
{
    if n <= 0 {
        0
    } else if winning.contains(yours[n - 1]) {
        matches(winning, yours, n - 1) + 1
    } else {
        matches(winning, yours, n - 1)
    }
}

/// The number of your numbers that win on a card `<title>: <winning> |
/// <yours>`; each of your numbers counts, also when it stands twice.
pub open spec fn wins_of(line: Seq<u8>) -> Option<usize> {
    match split_once_on(line, 58u8) {
        None => None,
        Some((_, all)) => match split_once_on(all, 124u8) {
            None => None,
            Some((first, second)) => match (numbers_of(first), numbers_of(second)) {
                (Some(winning), Some(yours)) => Some(matches(winning, yours, yours.len() as int) as usize),
                _ => None,
            },
        },
    }
}

/// Reads the numbers below 100 that `s` holds.
fn parse_numbers(s: &[u8]) -> (r: Option<Vec<usize>>)
    ensures
        match r {
            Some(ns) => numbers_of(s@) == Some(ns@) && forall|j: int|
                0 <= j < ns@.len() ==> (#[trigger] ns@[j]) < 100,
            None => numbers_of(s@) is None,
        },
{
    let texts = words(s);
    let ghost all = words_of(s@);
    let mut ns: Vec<usize> = Vec::new();
    let mut i: usize = 0;
    while i < texts.len()
        invariant
            i <= texts.len(),
            all == views(texts@),
            all == words_of(s@),
            numbers_from(all, i as int) == Some(ns@),
            forall|j: int| 0 <= j < ns@.len() ==> (#[trigger] ns@[j]) < 100,
        decreases texts.len() - i,
    {
        assert(all[i as int] == texts@[i as int]@);
        let v = match parse_usize(texts[i]) {
            Some(v) => v,
            None => {
                proof {
                    lemma_numbers_from_prefix(all, i + 1, all.len() as int);
                }
                return None;
            },
        };
        if v >= 100 {
            proof {
                lemma_numbers_from_prefix(all, i + 1, all.len() as int);
            }
            return None;
        }
        ns.push(v);
        i = i + 1;
    }
    Some(ns)
}

/// Counts how many of your numbers are winning numbers.
pub fn get_num_of_winning_numbers(line: &str) -> (r: Option<usize>)
    ensures
        r == wins_of(line.spec_bytes()),
{
    let (_, all_nums) = split_once(line.as_bytes(), 58u8)?;
    let (winning_nums_str, your_nums_str) = split_once(all_nums, 124u8)?;
    let winning = parse_numbers(winning_nums_str)?;
    let yours = parse_numbers(your_nums_str)?;
    let mut set: Vec<bool> = Vec::new();
    let mut k: usize = 0;
    while k < 100
        invariant
            k <= 100,
            set@.len() == k,
            forall|j: int| 0 <= j < k ==> !(#[trigger] set@[j]),
        decreases 100 - k,
    {
        set.push(false);
        k = k + 1;
    }
    let mut w: usize = 0;
    while w < winning.len()
        invariant
            w <= winning.len(),
            set@.len() == 100,
            numbers_of(winning_nums_str@) == Some(winning@),
            forall|j: int| 0 <= j < winning@.len() ==> (#[trigger] winning@[j]) < 100,
            forall|v: int| 0 <= v < 100 ==> (#[trigger] set@[v] <==> winning@.take(w as int).contains(v as usize)),
        decreases winning.len() - w,
    {
        let num = winning[w];
        set.set(num, true);
        proof {
            let longer = winning@.take(w + 1);
            let shorter = winning@.take(w as int);
            assert(longer =~= shorter.push(num));
            assert forall|v: int| 0 <= v < 100 implies (#[trigger] set@[v] <==> longer.contains(v as usize)) by {
                if v == num {
                    assert(longer[w as int] == num);
                } else {
                    if longer.contains(v as usize) {
                        let t = choose|t: int| 0 <= t < longer.len() && longer[t] == v as usize;
                        assert(shorter[t] == v as usize);
                    }
                    if shorter.contains(v as usize) {
                        let t = choose|t: int| 0 <= t < shorter.len() && shorter[t] == v as usize;
                        assert(longer[t] == v as usize);
                    }
                }
            }
        }
        w = w + 1;
    }
    assert(winning@.take(w as int) =~= winning@);
    let mut count: usize = 0;
    let mut y: usize = 0;
    while y < yours.len()
        invariant
            y <= yours.len(),
            set@.len() == 100,
            forall|j: int| 0 <= j < yours@.len() ==> (#[trigger] yours@[j]) < 100,
            forall|v: int| 0 <= v < 100 ==> (#[trigger] set@[v] <==> winning@.contains(v as usize)),
            count == matches(winning@, yours@, y as int),
            count <= y,
        decreases yours.len() - y,
    {
        if set[yours[y]] {
            count = count + 1;
        }
        y = y + 1;
    }
    Some(count)
}

/// Two to the power of `k`.
pub open spec fn two_to(k: nat) -> nat
    decreases k,
{
    if k == 0 {
        1
    } else {
        2 * two_to((k - 1) as nat)
    }
}

/// The score for `wins` winning numbers: nothing for none, 1 for one, and
/// twice as much for each further one. With 32 of them the score falls to
/// the least 32-bit number, and with more there is no score.
pub open spec fn score_of(wins: usize) -> Option<i32> {
    if wins == 0 {
        Some(0)
    } else if wins <= 31 {
        Some(two_to((wins - 1) as nat) as i32)
    } else if wins == 32 {
        Some(i32::MIN)
    } else {
        None
    }
}

/// A greater power of two is at least as great.
pub proof fn lemma_two_to_grows(k: nat, m: nat)
    requires
        k <= m,
    ensures
        1 <= two_to(k) <= two_to(m),
    decreases m,
{
    if k < m {
        lemma_two_to_grows(k, (m - 1) as nat);
    } else if k > 0 {
        lemma_two_to_grows((k - 1) as nat, (k - 1) as nat);
    }
}

/// Powers of two below the 31st fit in 32 bits.
pub proof fn lemma_two_to_bound(k: nat)
    requires
        k <= 30,
    ensures
        1 <= two_to(k) <= 0x4000_0000,
{
    lemma_two_to_grows(k, 30);
    assert(two_to(30) == 0x4000_0000) by {
        reveal_with_fuel(two_to, 31);
    }
}

/// The score of a card.
pub fn score_line_part1(line: &str) -> (r: Option<i32>)
    ensures
        r == (match wins_of(line.spec_bytes()) {
            Some(wins) => score_of(wins),
            None => None,
        }),
{
    let result = get_num_of_winning_numbers(line)?;
    if result == 0 {
        Some(0)
    } else if result <= 31 {
        let mut score: i32 = 1;
        let mut k: usize = 0;
        while k < result - 1
            invariant
                k <= result - 1 <= 30,
                score == two_to(k as nat),
            decreases result - 1 - k,
        {
            proof {
                lemma_two_to_bound(k as nat);
                lemma_two_to_bound((k + 1) as nat);
            }
            score = score * 2;
            k = k + 1;
        }
        Some(score)
    } else if result == 32 {
        Some(i32::MIN)
    } else {
        None
    }
}

/// The sum of `a` and `b`, where both exist and the sum fits in 32 bits.
pub open spec fn sum_of(a: Option<i32>, b: Option<i32>) -> Option<i32> {
    match (a, b) {
        (Some(x), Some(y)) => if i32::MIN <= x + y <= i32::MAX {
            Some((x + y) as i32)
        } else {
            None
        },
        _ => None,
    }
}

/// The sum of the scores of the first `n` cards.
pub open spec fn score_sum(ls: Seq<Seq<u8>>, n: int) -> Option<i32>
    decreases n,
{
    if n <= 0 {
        Some(0)
    } else {
        sum_of(
            score_sum(ls, n - 1),
            match wins_of(ls[n - 1]) {
                Some(wins) => score_of(wins),
                None => None,
            },
        )
    }
}

/// If the first `i` cards have no sum of scores, neither have the first `n`.
pub proof fn lemma_score_sum_prefix(ls: Seq<Seq<u8>>, i: int, n: int)
    requires
        0 <= i <= n,
        score_sum(ls, i) is None,
    ensures
        score_sum(ls, n) is None,
    decreases n - i,
{
    if i < n {
        lemma_score_sum_prefix(ls, i, n - 1);
    }
}

/// The texts of the cards as bytes.
pub open spec fn card_texts(cards: Seq<&str>) -> Seq<Seq<u8>> {
    cards.map_values(|c: &str| c.spec_bytes())
}

/// The sum of the scores of the cards.
pub fn part1(puzzle_input: &[&str]) -> (r: Option<i32>)
    ensures
        r == score_sum(card_texts(puzzle_input@), puzzle_input@.len() as int),
{
    let ghost all = card_texts(puzzle_input@);
    let mut sum: i32 = 0;
    let mut i: usize = 0;
    while i < puzzle_input.len()
        invariant
            i <= puzzle_input.len(),
            all == card_texts(puzzle_input@),
            score_sum(all, i as int) == Some(sum),
        decreases puzzle_input.len() - i,
    {
        assert(all[i as int] == puzzle_input@[i as int].spec_bytes());
        let step = match score_line_part1(puzzle_input[i]) {
            Some(score) => sum.checked_add(score),
            None => None,
        };
        match step {
            Some(next) => {
                sum = next;
            },
            None => {
                proof {
                    lemma_score_sum_prefix(all, i + 1, all.len() as int);
                }
                return None;
            },
        }
        i = i + 1;
    }
    Some(sum)
}

/// The numbers of copies of each card after the card at `i` has given a
/// copy of each of the next `j` cards to every copy of itself: nothing when
/// a card is missing or a number leaves 32 bits.
pub open spec fn after_copies(amounts: Seq<i32>, i: int, j: int) -> Option<Seq<i32>>
    decreases j,
{
    if j <= 0 {
        Some(amounts)
    } else {
        match after_copies(amounts, i, j - 1) {
            None => None,
            Some(so_far) => if i + j < so_far.len() && i32::MIN <= so_far[i + j] + so_far[i] <= i32::MAX {
                Some(so_far.update(i + j, (so_far[i + j] + so_far[i]) as i32))
            } else {
                None
            },
        }
    }
}

/// The numbers of copies of each card after the first `n` cards have been
/// scratched, starting with one of each.
pub open spec fn amounts_after(ls: Seq<Seq<u8>>, n: int) -> Option<Seq<i32>>
    decreases n,
{
    if n <= 0 {
        Some(Seq::new(ls.len(), |i: int| 1i32))
    } else {
        match (amounts_after(ls, n - 1), wins_of(ls[n - 1])) {
            (Some(amounts), Some(wins)) => after_copies(amounts, n - 1, wins as int),
            _ => None,
        }
    }
}

/// The sum of the first `n` numbers, as far as it fits in 32 bits.
pub open spec fn amount_sum(amounts: Seq<i32>, n: int) -> Option<i32>
    decreases n,
{
    if n <= 0 {
        Some(0)
    } else {
        sum_of(amount_sum(amounts, n - 1), Some(amounts[n - 1]))
    }
}

/// If copies cannot be given to the next `j` cards, they cannot be given to
/// the next `n`.
pub proof fn lemma_after_copies_prefix(amounts: Seq<i32>, i: int, j: int, n: int)
    requires
        0 <= j <= n,
        after_copies(amounts, i, j) is None,
    ensures
        after_copies(amounts, i, n) is None,
    decreases n - j,
{
    if j < n {
        lemma_after_copies_prefix(amounts, i, j, n - 1);
    }
}

/// If the first `i` cards cannot be scratched, neither can the first `n`.
pub proof fn lemma_amounts_after_prefix(ls: Seq<Seq<u8>>, i: int, n: int)
    requires
        0 <= i <= n,
        amounts_after(ls, i) is None,
    ensures
        amounts_after(ls, n) is None,
    decreases n - i,
{
    if i < n {
        lemma_amounts_after_prefix(ls, i, n - 1);
    }
}

/// If the first `i` numbers have no sum, neither have the first `n`.
pub proof fn lemma_amount_sum_prefix(amounts: Seq<i32>, i: int, n: int)
    requires
        0 <= i <= n,
        amount_sum(amounts, i) is None,
    ensures
        amount_sum(amounts, n) is None,
    decreases n - i,
{
    if i < n {
        lemma_amount_sum_prefix(amounts, i, n - 1);
    }
}

/// The number of cards in the end, when each card wins a copy of as many of
/// the next cards as it has winning numbers.
pub fn part2(puzzle_input: &[&str]) -> (r: Option<i32>)
    ensures
        r == (match amounts_after(card_texts(puzzle_input@), puzzle_input@.len() as int) {
            Some(amounts) => amount_sum(amounts, amounts.len() as int),
            None => None,
        }),
{
    let ghost all = card_texts(puzzle_input@);
    let n = puzzle_input.len();
    let mut card_amts: Vec<i32> = Vec::new();
    let mut a: usize = 0;
    while a < n
        invariant
            a <= n,
            card_amts@.len() == a,
            forall|k: int| 0 <= k < a ==> card_amts@[k] == 1i32,
        decreases n - a,
    {
        card_amts.push(1);
        a = a + 1;
    }
    assert(card_amts@ =~= Seq::new(all.len(), |i: int| 1i32));
    let mut i: usize = 0;
    while i < n
        invariant
            i <= n,
            n == puzzle_input@.len(),
            all == card_texts(puzzle_input@),
            card_amts@.len() == n,
            amounts_after(all, i as int) == Some(card_amts@),
        decreases n - i,
    {
        assert(all[i as int] == puzzle_input@[i as int].spec_bytes());
        let result = match get_num_of_winning_numbers(puzzle_input[i]) {
            Some(result) => result,
            None => {
                proof {
                    lemma_amounts_after_prefix(all, i + 1, all.len() as int);
                }
                return None;
            },
        };
        let ghost before = card_amts@;
        let mut j: usize = 0;
        while j < result
            invariant
                j <= result,
                i < n,
                card_amts@.len() == n,
                before.len() == n,
                after_copies(before, i as int, j as int) == Some(card_amts@),
                amounts_after(all, i + 1) == after_copies(before, i as int, result as int),
                all.len() == n,
                n == puzzle_input@.len(),
                all == card_texts(puzzle_input@),
            decreases result - j,
        {
            let step = if i + 1 + j < n && (i + 1 + j) > i {
                card_amts[i + 1 + j].checked_add(card_amts[i])
            } else {
                None
            };
            match step {
                Some(sum) => {
                    card_amts.set(i + 1 + j, sum);
                },
                None => {
                    proof {
                        assert(after_copies(before, i as int, j + 1) is None);
                        lemma_after_copies_prefix(before, i as int, j + 1, result as int);
                        lemma_amounts_after_prefix(all, i + 1, all.len() as int);
                    }
                    return None;
                },
            }
            j = j + 1;
        }
        i = i + 1;
    }
    let mut total: i32 = 0;
    let mut k: usize = 0;
    while k < n
        invariant
            k <= n,
            card_amts@.len() == n,
            n == puzzle_input@.len(),
            all == card_texts(puzzle_input@),
            amounts_after(all, n as int) == Some(card_amts@),
            amount_sum(card_amts@, k as int) == Some(total),
        decreases n - k,
    {
        match total.checked_add(card_amts[k]) {
            Some(sum) => {
                total = sum;
            },
            None => {
                proof {
                    lemma_amount_sum_prefix(card_amts@, k + 1, n as int);
                }
                return None;
            },
        }
        k = k + 1;
    }
    Some(total)
}

} // verus!
