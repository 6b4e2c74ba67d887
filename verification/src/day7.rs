//! Hands of five cards, ordered by their type and then card by card.

use crate::text::{i32_of, lines, lines_of, parse_i32, split_once, split_once_on, views};
use vstd::prelude::*;
use vstd::string::StringSliceAdditionalSpecFns;

verus! {

/// The type of a hand, from weakest to strongest.
#[derive(Debug, PartialEq, Eq, Clone, Copy, Structural)]
pub enum HandType {
    HighCard,
    OnePair,
    TwoPair,
    ThreeOfAKind,
    FullHouse,
    FourOfAKind,
    FiveOfAKind,
}

impl HandType {
    /// The strength of the type, from 0 for a high card to 6 for five of a
    /// kind.
    pub open spec fn level(self) -> int {
        match self {
            HandType::HighCard => 0,
            HandType::OnePair => 1,
            HandType::TwoPair => 2,
            HandType::ThreeOfAKind => 3,
            HandType::FullHouse => 4,
            HandType::FourOfAKind => 5,
            HandType::FiveOfAKind => 6,
        }
    }

    /// The strength of the type.
    pub fn rank(&self) -> (n: u8)
        ensures
            n == self.level(),
    {
        match *self {
            HandType::HighCard => 0,
            HandType::OnePair => 1,
            HandType::TwoPair => 2,
            HandType::ThreeOfAKind => 3,
            HandType::FullHouse => 4,
            HandType::FourOfAKind => 5,
            HandType::FiveOfAKind => 6,
        }
    }
}

/// A card, from weakest to strongest.
#[derive(Debug, PartialEq, Eq, Clone, Copy, Structural)]
pub enum Card {
    Joker,
    Two,
    Three,
    Four,
    Five,
    Six,
    Seven,
    Eight,
    Nine,
    Ten,
    Jack,
    Queen,
    King,
    Ace,
}

/// The number of kinds of cards.
pub const NUM_CARDS: usize = 14;

/// The card of the given strength, from 0 for the joker to 13 for the ace.
pub open spec fn card_of(n: int) -> Card {
    if n <= 0 {
        Card::Joker
    } else if n == 1 {
        Card::Two
    } else if n == 2 {
        Card::Three
    } else if n == 3 {
        Card::Four
    } else if n == 4 {
        Card::Five
    } else if n == 5 {
        Card::Six
    } else if n == 6 {
        Card::Seven
    } else if n == 7 {
        Card::Eight
    } else if n == 8 {
        Card::Nine
    } else if n == 9 {
        Card::Ten
    } else if n == 10 {
        Card::Jack
    } else if n == 11 {
        Card::Queen
    } else if n == 12 {
        Card::King
    } else {
        Card::Ace
    }
}

/// The card that a character stands for: `A`, `K`, `Q`, `J` for the jack,
/// `T`, or a digit from 2 to 9.
pub open spec fn card_of_byte(value: u8) -> Option<Card> {
    if value == 65 {
        Some(Card::Ace)
    } else if value == 75 {
        Some(Card::King)
    } else if value == 81 {
        Some(Card::Queen)
    } else if value == 74 {
        Some(Card::Jack)
    } else if value == 84 {
        Some(Card::Ten)
    } else if 50 <= value <= 57 {
        Some(card_of(value - 49))
    } else {
        None
    }
}

impl Card {
    /// The strength of the card, from 0 for the joker to 13 for the ace.
    pub open spec fn level(self) -> int {
        match self {
            Card::Joker => 0,
            Card::Two => 1,
            Card::Three => 2,
            Card::Four => 3,
            Card::Five => 4,
            Card::Six => 5,
            Card::Seven => 6,
            Card::Eight => 7,
            Card::Nine => 8,
            Card::Ten => 9,
            Card::Jack => 10,
            Card::Queen => 11,
            Card::King => 12,
            Card::Ace => 13,
        }
    }

    /// The strength of the card.
    pub fn rank(&self) -> (n: usize)
        ensures
            n == self.level(),
            n < NUM_CARDS,
    {
        match *self {
            Card::Joker => 0,
            Card::Two => 1,
            Card::Three => 2,
            Card::Four => 3,
            Card::Five => 4,
            Card::Six => 5,
            Card::Seven => 6,
            Card::Eight => 7,
            Card::Nine => 8,
            Card::Ten => 9,
            Card::Jack => 10,
            Card::Queen => 11,
            Card::King => 12,
            Card::Ace => 13,
        }
    }

    /// The card of the given strength; the ace for 13 and more.
    pub fn from_rank(n: usize) -> (card: Card)
        ensures
            card == card_of(n as int),
            n < NUM_CARDS ==> card.level() == n,
    {
        if n == 0 {
            Card::Joker
        } else if n == 1 {
            Card::Two
        } else if n == 2 {
            Card::Three
        } else if n == 3 {
            Card::Four
        } else if n == 4 {
            Card::Five
        } else if n == 5 {
            Card::Six
        } else if n == 6 {
            Card::Seven
        } else if n == 7 {
            Card::Eight
        } else if n == 8 {
            Card::Nine
        } else if n == 9 {
            Card::Ten
        } else if n == 10 {
            Card::Jack
        } else if n == 11 {
            Card::Queen
        } else if n == 12 {
            Card::King
        } else {
            Card::Ace
        }
    }

    /// The card that a character stands for, with `J` for the jack.
    pub fn from(value: u8) -> (r: Option<Card>)
        ensures
            r == card_of_byte(value),
    {
        if value == 65 {
            Some(Card::Ace)
        } else if value == 75 {
            Some(Card::King)
        } else if value == 81 {
            Some(Card::Queen)
        } else if value == 74 {
            Some(Card::Jack)
        } else if value == 84 {
            Some(Card::Ten)
        } else if 50 <= value && value <= 57 {
            let n: u8 = value - 49;
            Some(Card::from_rank(n as usize))
        } else {
            None
        }
    }
}

/// Five cards.
pub type Hand = [Card; 5];

/// How often each card occurs, by its strength.
pub type CardCounts = [i32; 14];

/// The card that a character stands for when `J` is the joker.
pub open spec fn wild_card_of_byte(value: u8) -> Option<Card> {
    if value == 74 {
        Some(Card::Joker)
    } else {
        card_of_byte(value)
    }
}

/// The hand that five characters stand for; `wild` says whether `J` is the
/// joker.
pub open spec fn hand_of(value: Seq<u8>, wild: bool) -> Option<Seq<Card>> {
    if value.len() != 5 {
        None
    } else {
        let cards = Seq::new(
            5,
            |i: int|
                if wild {
                    wild_card_of_byte(value[i])
                } else {
                    card_of_byte(value[i])
                },
        );
        if forall|i: int| 0 <= i < 5 ==> (#[trigger] cards[i]) is Some {
            Some(Seq::new(5, |i: int| cards[i].unwrap()))
        } else {
            None
        }
    }
}

/// Reads a hand; `wild` says whether `J` is the joker.
fn read_hand(value: &[u8], wild: bool) -> (r: Option<Hand>)
    ensures
        match r {
            Some(hand) => hand_of(value@, wild) == Some(hand@),
            None => hand_of(value@, wild) is None,
        },
{
    if value.len() != 5 {
        return None;
    }
    let mut hand: Hand = [Card::Joker, Card::Joker, Card::Joker, Card::Joker, Card::Joker];
    let ghost cards = Seq::new(
        5,
        |i: int|
            if wild {
                wild_card_of_byte(value@[i])
            } else {
                card_of_byte(value@[i])
            },
    );
    let mut i: usize = 0;
    while i < 5
        invariant
            i <= 5,
            value@.len() == 5,
            cards == Seq::new(
                5,
                |i: int|
                    if wild {
                        wild_card_of_byte(value@[i])
                    } else {
                        card_of_byte(value@[i])
                    },
            ),
            forall|k: int| 0 <= k < i ==> #[trigger] cards[k] == Some(hand@[k]),
        decreases 5 - i,
    {
        let c = value[i];
        let card = if wild && c == 74 {
            Some(Card::Joker)
        } else {
            Card::from(c)
        };
        match card {
            Some(card) => {
                hand[i] = card;
            },
            None => {
                assert(cards[i as int] is None);
                return None;
            },
        }
        i = i + 1;
    }
    assert(hand@ =~= Seq::new(5, |i: int| cards[i].unwrap()));
    Some(hand)
}

/// Reads a hand in which `J` is the jack.
pub fn from_part1(value: &str) -> (r: Option<Hand>)
    ensures
        match r {
            Some(hand) => hand_of(value.spec_bytes(), false) == Some(hand@),
            None => hand_of(value.spec_bytes(), false) is None,
        },
{
    read_hand(value.as_bytes(), false)
}

/// Reads a hand in which `J` is the joker.
pub fn from_part2(value: &str) -> (r: Option<Hand>)
    ensures
        match r {
            Some(hand) => hand_of(value.spec_bytes(), true) == Some(hand@),
            None => hand_of(value.spec_bytes(), true) is None,
        },
{
    read_hand(value.as_bytes(), true)
}

/// How many of the first `n` cards of the hand have the strength `level`.
pub open spec fn count_of(hand: Seq<Card>, level: int, n: int) -> int
    decreases n,
{
    if n <= 0 {
        0
    } else if hand[n - 1].level() == level {
        count_of(hand, level, n - 1) + 1
    } else {
        count_of(hand, level, n - 1)
    }
}

/// How often each card occurs in the hand.
pub open spec fn counts_of(hand: Seq<Card>) -> Seq<i32> {
    Seq::new(14, |level: int| count_of(hand, level, 5) as i32)
}

/// No card occurs more often among the first `n` than `n` times.
pub proof fn lemma_count_bound(hand: Seq<Card>, level: int, n: int)
    requires
        0 <= n,
    ensures
        0 <= count_of(hand, level, n) <= n,
    decreases n,
{
    if n > 0 {
        lemma_count_bound(hand, level, n - 1);
    }
}

/// Counts how often each card occurs in the hand.
pub fn count_hand(hand: &Hand) -> (result: CardCounts)
    ensures
        result@ == counts_of(hand@),
{
    let mut result: CardCounts = [0, 0, 0, 0, 0, 0, 0, 0, 0, 0, 0, 0, 0, 0];
    let mut n: usize = 0;
    while n < 5
        invariant
            n <= 5,
            forall|level: int| 0 <= level < 14 ==> #[trigger] result@[level] == count_of(hand@, level, n as int),
        decreases 5 - n,
    {
        let card = hand[n];
        let at = card.rank();
        proof {
            lemma_count_bound(hand@, at as int, n as int);
        }
        let more: i32 = result[at] + 1;
        result[at] = more;
        n = n + 1;
    }
    assert(result@ =~= counts_of(hand@));
    result
}

/// The greatest of the first `n` counts, or 0.
pub open spec fn largest(counts: Seq<i32>, n: int) -> int
    decreases n,
{
    if n <= 0 {
        0
    } else if counts[n - 1] >= largest(counts, n - 1) {
        counts[n - 1] as int
    } else {
        largest(counts, n - 1)
    }
}

/// The second greatest of the first `n` counts, which is the greatest
/// where that occurs twice, or 0.
pub open spec fn runner_up(counts: Seq<i32>, n: int) -> int
    decreases n,
{
    if n <= 0 {
        0
    } else if counts[n - 1] >= largest(counts, n - 1) {
        largest(counts, n - 1)
    } else if counts[n - 1] >= runner_up(counts, n - 1) {
        counts[n - 1] as int
    } else {
        runner_up(counts, n - 1)
    }
}

/// The type of a hand without jokers, by the two greatest of its counts.
pub open spec fn plain_type(counts: Seq<i32>) -> HandType {
    let first = largest(counts, 14);
    let second = runner_up(counts, 14);
    if first == 5 {
        HandType::FiveOfAKind
    } else if first == 4 {
        HandType::FourOfAKind
    } else if first == 3 {
        if second == 2 {
            HandType::FullHouse
        } else {
            HandType::ThreeOfAKind
        }
    } else if first == 2 {
        if second == 2 {
            HandType::TwoPair
        } else {
            HandType::OnePair
        }
    } else {
        HandType::HighCard
    }
}

/// The hand with `other` in place of every joker.
pub open spec fn swapped(hand: Seq<Card>, other: Card) -> Seq<Card> {
    Seq::new(
        5,
        |j: int|
            if hand[j] == Card::Joker {
                other
            } else {
                hand[j]
            },
    )
}

/// The best type that the hand gets when every joker becomes one and the
/// same of the other cards in the hand that are weaker than `n`.
pub open spec fn best_swap(hand: Seq<Card>, n: int) -> HandType
    decreases n,
{
    if n <= 1 {
        HandType::HighCard
    } else {
        let before = best_swap(hand, n - 1);
        let with = plain_type(counts_of(swapped(hand, card_of(n - 1))));
        if count_of(hand, n - 1, 5) != 0 && with.level() > before.level() {
            with
        } else {
            before
        }
    }
}

/// The type of a hand: five of a kind for five jokers; with fewer jokers,
/// the best type that the hand gets when all of them become one of the
/// other cards in the hand; and without jokers, its plain type.
pub open spec fn type_of(hand: Seq<Card>) -> HandType {
    let jokers = count_of(hand, 0, 5);
    if jokers == 5 {
        HandType::FiveOfAKind
    } else if jokers != 0 {
        best_swap(hand, 14)
    } else {
        plain_type(counts_of(hand))
    }
}

/// The type of a hand without jokers.
fn get_plain_type(counts_map: &CardCounts) -> (r: HandType)
    ensures
        r == plain_type(counts_map@),
{
    let mut first: i32 = 0;
    let mut second: i32 = 0;
    let mut n: usize = 0;
    while n < 14
        invariant
            n <= 14,
            first == largest(counts_map@, n as int),
            second == runner_up(counts_map@, n as int),
        decreases 14 - n,
    {
        let amt = counts_map[n];
        if amt >= first {
            second = first;
            first = amt;
        } else if amt >= second {
            second = amt;
        }
        n = n + 1;
    }
    if first == 5 {
        HandType::FiveOfAKind
    } else if first == 4 {
        HandType::FourOfAKind
    } else if first == 3 {
        if second == 2 {
            HandType::FullHouse
        } else {
            HandType::ThreeOfAKind
        }
    } else if first == 2 {
        if second == 2 {
            HandType::TwoPair
        } else {
            HandType::OnePair
        }
    } else {
        HandType::HighCard
    }
}

/// The hand with `other` in place of every joker.
fn swap_jokers(hand: &Hand, other: Card) -> (r: Hand)
    ensures
        r@ == swapped(hand@, other),
{
    let mut r: Hand = *hand;
    let mut j: usize = 0;
    while j < 5
        invariant
            j <= 5,
            forall|k: int| 0 <= k < j ==> #[trigger] r@[k] == swapped(hand@, other)[k],
            forall|k: int| j <= k < 5 ==> #[trigger] r@[k] == hand@[k],
        decreases 5 - j,
    {
        if hand[j] == Card::Joker {
            r[j] = other;
        }
        j = j + 1;
    }
    assert(r@ =~= swapped(hand@, other));
    r
}

/// The type of the hand.
pub fn get_hand_type(hand: &Hand) -> (r: HandType)
    ensures
        r == type_of(hand@),
{
    let counts_map = count_hand(hand);
    assert(counts_map@[0] == count_of(hand@, 0, 5)) by {
        lemma_count_bound(hand@, 0, 5);
    }
    if counts_map[0] != 0 {
        if counts_map[0] == 5 {
            return HandType::FiveOfAKind;
        }
        let mut best = HandType::HighCard;
        let mut i: usize = 1;
        while i < 14
            invariant
                1 <= i <= 14,
                counts_map@ == counts_of(hand@),
                best == best_swap(hand@, i as int),
            decreases 14 - i,
        {
            proof {
                lemma_count_bound(hand@, i as int, 5);
            }
            if counts_map[i] != 0 {
                let other_card = Card::from_rank(i);
                let hand_with_other_card = swap_jokers(hand, other_card);
                let with = get_plain_type(&count_hand(&hand_with_other_card));
                if with.rank() > best.rank() {
                    best = with;
                }
            }
            i = i + 1;
        }
        return best;
    }
    get_plain_type(&counts_map)
}

/// A hand with its bid.
#[derive(Clone, Copy)]
pub struct HandAndBid(pub Hand, pub i32);

impl HandAndBid {
    /// The cards of the hand, and the bid.
    pub open spec fn model(&self) -> (Seq<Card>, i32) {
        (self.0@, self.1)
    }
}

/// The hand and the bid of a line `<cards> <bid>`; `wild` says whether `J`
/// is the joker.
pub open spec fn entry_of(line: Seq<u8>, wild: bool) -> Option<(Seq<Card>, i32)> {
    match split_once_on(line, 32u8) {
        None => None,
        Some((cards, bid)) => match (hand_of(cards, wild), i32_of(bid)) {
            (Some(hand), Some(amount)) => Some((hand, amount)),
            _ => None,
        },
    }
}

/// Reads a hand and its bid from the bytes of a line.
fn read_entry(line: &[u8], wild: bool) -> (r: Option<HandAndBid>)
    ensures
        match r {
            Some(entry) => entry_of(line@, wild) == Some(entry.model()),
            None => entry_of(line@, wild) is None,
        },
{
    let (cards, bid_str) = split_once(line, 32u8)?;
    let hand = read_hand(cards, wild)?;
    let bid = parse_i32(bid_str)?;
    Some(HandAndBid(hand, bid))
}

impl HandAndBid {
    /// Reads a hand and its bid from a line; `J` is the jack.
    pub fn from(line: &str) -> (r: Option<HandAndBid>)
        ensures
            match r {
                Some(entry) => entry_of(line.spec_bytes(), false) == Some(entry.model()),
                None => entry_of(line.spec_bytes(), false) is None,
            },
    {
        read_entry(line.as_bytes(), false)
    }

    /// Reads a hand and its bid from a line; `J` is the joker.
    pub fn from_part2(line: &str) -> (r: Option<HandAndBid>)
        ensures
            match r {
                Some(entry) => entry_of(line.spec_bytes(), true) == Some(entry.model()),
                None => entry_of(line.spec_bytes(), true) is None,
            },
    {
        read_entry(line.as_bytes(), true)
    }
}

/// The hands and bids of the first `n` lines, if each holds one.
pub open spec fn entries_from(ls: Seq<Seq<u8>>, wild: bool, n: int) -> Option<Seq<(Seq<Card>, i32)>>
    decreases n,
{
    if n <= 0 {
        Some(Seq::empty())
    } else {
        match (entries_from(ls, wild, n - 1), entry_of(ls[n - 1], wild)) {
            (Some(entries), Some(entry)) => Some(entries.push(entry)),
            _ => None,
        }
    }
}

/// If the first `i` lines do not all hold a hand and a bid, neither do the
/// first `n`.
pub proof fn lemma_entries_from_prefix(ls: Seq<Seq<u8>>, wild: bool, i: int, n: int)
    requires
        0 <= i <= n,
        entries_from(ls, wild, i) is None,
    ensures
        entries_from(ls, wild, n) is None,
    decreases n - i,
{
    if i < n {
        lemma_entries_from_prefix(ls, wild, i, n - 1);
    }
}

/// The hands and bids of the input, one of each in every line.
pub open spec fn entries_of(input: Seq<u8>, wild: bool) -> Option<Seq<(Seq<Card>, i32)>> {
    entries_from(lines_of(input), wild, lines_of(input).len() as int)
}

/// The cards and the bid of every entry.
pub open spec fn models(entries: Seq<HandAndBid>) -> Seq<(Seq<Card>, i32)> {
    entries.map_values(|entry: HandAndBid| entry.model())
}

/// Reads a hand and its bid from every line.
fn read_entries(puzzle_input: &str, wild: bool) -> (r: Option<Vec<HandAndBid>>)
    ensures
        match r {
            Some(entries) => entries_of(puzzle_input.spec_bytes(), wild) == Some(models(entries@)),
            None => entries_of(puzzle_input.spec_bytes(), wild) is None,
        },
{
    let texts = lines(puzzle_input.as_bytes());
    let ghost all = lines_of(puzzle_input.spec_bytes());
    let mut entries: Vec<HandAndBid> = Vec::new();
    let mut i: usize = 0;
    while i < texts.len()
        invariant
            i <= texts.len(),
            all == views(texts@),
            all == lines_of(puzzle_input.spec_bytes()),
            entries_from(all, wild, i as int) == Some(models(entries@)),
        decreases texts.len() - i,
    {
        assert(all[i as int] == texts@[i as int]@);
        match read_entry(texts[i], wild) {
            Some(entry) => {
                let ghost before = entries@;
                entries.push(entry);
                assert(models(entries@) =~= models(before).push(entry.model()));
            },
            None => {
                proof {
                    lemma_entries_from_prefix(all, wild, i + 1, all.len() as int);
                }
                return None;
            },
        }
        i = i + 1;
    }
    Some(entries)
}

/// Reads the hands and bids; `J` is the jack.
pub fn parse_input_part1(puzzle_input: &str) -> (r: Option<Vec<HandAndBid>>)
    ensures
        match r {
            Some(entries) => entries_of(puzzle_input.spec_bytes(), false) == Some(models(entries@)),
            None => entries_of(puzzle_input.spec_bytes(), false) is None,
        },
{
    read_entries(puzzle_input, false)
}

/// Reads the hands and bids; `J` is the joker.
pub fn parse_input_part2(puzzle_input: &str) -> (r: Option<Vec<HandAndBid>>)
    ensures
        match r {
            Some(entries) => entries_of(puzzle_input.spec_bytes(), true) == Some(models(entries@)),
            None => entries_of(puzzle_input.spec_bytes(), true) is None,
        },
{
    read_entries(puzzle_input, true)
}

/// Whether hand `a` comes before hand `b` when both are compared card by
/// card from the `i`-th on.
pub open spec fn cards_before(a: Seq<Card>, b: Seq<Card>, i: int) -> bool
    decreases 5 - i,
{
    if i < 0 || i >= 5 {
        false
    } else if a[i].level() != b[i].level() {
        a[i].level() < b[i].level()
    } else {
        cards_before(a, b, i + 1)
    }
}

/// Whether hand `a` is weaker than hand `b`: of a lesser type, or of the
/// same type and before it card by card.
pub open spec fn weaker(a: Seq<Card>, b: Seq<Card>) -> bool {
    type_of(a).level() < type_of(b).level() || (type_of(a).level() == type_of(b).level() && cards_before(a, b, 0))
}

/// Tells whether hand `a` is weaker than hand `b`.
pub fn is_weaker(a: &Hand, b: &Hand) -> (r: bool)
    ensures
        r == weaker(a@, b@),
{
    let a_level = get_hand_type(a).rank();
    let b_level = get_hand_type(b).rank();
    if a_level != b_level {
        return a_level < b_level;
    }
    let mut i: usize = 0;
    while i < 5
        invariant
            i <= 5,
            type_of(a@).level() == type_of(b@).level(),
            cards_before(a@, b@, 0) == cards_before(a@, b@, i as int),
        decreases 5 - i,
    {
        let x = a[i].rank();
        let y = b[i].rank();
        if x != y {
            return x < y;
        }
        i = i + 1;
    }
    false
}

/// Where `entry` belongs among the first `p` of the entries in `sorted`:
/// behind the last of them that is not stronger.
pub open spec fn place_for(sorted: Seq<(Seq<Card>, i32)>, entry: (Seq<Card>, i32), p: int) -> int
    decreases p,
{
    if p <= 0 {
        0
    } else if weaker(entry.0, sorted[p - 1].0) {
        place_for(sorted, entry, p - 1)
    } else {
        p
    }
}

/// The first `n` entries from weakest to strongest; entries of equal
/// strength stay in the order in which they were given.
pub open spec fn ranked(entries: Seq<(Seq<Card>, i32)>, n: int) -> Seq<(Seq<Card>, i32)>
    decreases n,
{
    if n <= 0 {
        Seq::empty()
    } else {
        let sorted = ranked(entries, n - 1);
        sorted.insert(place_for(sorted, entries[n - 1], sorted.len() as int), entries[n - 1])
    }
}

/// The sum over the first `n` entries of the bid times the place, counted
/// from 1, as far as the places, the products and the sums fit in 32 bits.
pub open spec fn winnings(sorted: Seq<(Seq<Card>, i32)>, n: int) -> Option<i32>
    decreases n,
{
    if n <= 0 {
        Some(0)
    } else {
        match winnings(sorted, n - 1) {
            None => None,
            Some(sum) => if n <= i32::MAX && i32::MIN <= n * sorted[n - 1].1 <= i32::MAX && i32::MIN <= sum + n
                * sorted[n - 1].1 <= i32::MAX {
                Some((sum + n * sorted[n - 1].1) as i32)
            } else {
                None
            },
        }
    }
}

/// If the first `i` entries win nothing that fits, neither do the first
/// `n`.
pub proof fn lemma_winnings_prefix(sorted: Seq<(Seq<Card>, i32)>, i: int, n: int)
    requires
        0 <= i <= n,
        winnings(sorted, i) is None,
    ensures
        winnings(sorted, n) is None,
    decreases n - i,
{
    if i < n {
        lemma_winnings_prefix(sorted, i, n - 1);
    }
}

/// The entries from weakest to strongest; entries of equal strength stay
/// in the order in which they were given.
pub fn rank_hands(hands_and_bids: &Vec<HandAndBid>) -> (sorted: Vec<HandAndBid>)
    ensures
        models(sorted@) == ranked(models(hands_and_bids@), hands_and_bids@.len() as int),
        sorted@.len() == hands_and_bids@.len(),
{
    let ghost entries = models(hands_and_bids@);
    let mut sorted: Vec<HandAndBid> = Vec::new();
    let mut n: usize = 0;
    assert(models(sorted@) =~= ranked(entries, 0));
    while n < hands_and_bids.len()
        invariant
            n <= hands_and_bids@.len(),
            entries == models(hands_and_bids@),
            sorted@.len() == n,
            models(sorted@) == ranked(entries, n as int),
        decreases hands_and_bids@.len() - n,
    {
        let entry = hands_and_bids[n];
        let ghost before = models(sorted@);
        assert(entries[n as int] == entry.model());
        let mut p: usize = sorted.len();
        while p > 0 && is_weaker(&entry.0, &sorted[p - 1].0)
            invariant
                p <= sorted@.len(),
                before == models(sorted@),
                place_for(before, entry.model(), before.len() as int) == place_for(before, entry.model(), p as int),
            decreases p,
        {
            assert(before[p - 1] == sorted@[p - 1].model());
            p = p - 1;
        }
        proof {
            if p > 0 {
                assert(before[p - 1] == sorted@[p - 1].model());
            }
        }
        sorted.insert(p, entry);
        assert(models(sorted@) =~= before.insert(p as int, entry.model()));
        n = n + 1;
    }
    sorted
}

/// The sum over all entries of the bid times the rank, where the weakest
/// hand has rank 1.
pub fn total_winnings(hands_and_bids: Vec<HandAndBid>) -> (r: Option<i32>)
    ensures
        r == winnings(
            ranked(models(hands_and_bids@), hands_and_bids@.len() as int),
            hands_and_bids@.len() as int,
        ),
{
    let sorted = rank_hands(&hands_and_bids);
    let ghost entries = models(sorted@);
    let mut sum: i32 = 0;
    let mut i: usize = 0;
    while i < sorted.len()
        invariant
            i <= sorted@.len(),
            entries == models(sorted@),
            entries == ranked(models(hands_and_bids@), hands_and_bids@.len() as int),
            sorted@.len() == hands_and_bids@.len(),
            winnings(entries, i as int) == Some(sum),
        decreases sorted@.len() - i,
    {
        let bid = sorted[i].1;
        assert(entries[i as int] == sorted@[i as int].model());
        if i >= 0x7fff_ffff {
            proof {
                lemma_winnings_prefix(entries, i + 1, entries.len() as int);
            }
            return None;
        }
        let place: i64 = (i + 1) as i64;
        assert(i32::MIN * 0x7fff_ffff <= place * bid <= i32::MAX * 0x7fff_ffff) by (nonlinear_arith)
            requires
                1 <= place <= 0x7fff_ffff,
                i32::MIN <= bid <= i32::MAX,
        ;
        let gain: i64 = place * (bid as i64);
        if gain < i32::MIN as i64 || gain > i32::MAX as i64 {
            proof {
                lemma_winnings_prefix(entries, i + 1, entries.len() as int);
            }
            return None;
        }
        let next: i64 = sum as i64 + gain;
        if next < i32::MIN as i64 || next > i32::MAX as i64 {
            proof {
                lemma_winnings_prefix(entries, i + 1, entries.len() as int);
            }
            return None;
        }
        sum = next as i32;
        i = i + 1;
    }
    Some(sum)
}

/// The total winnings when `J` is the jack.
pub fn part1(puzzle_input: &str) -> (r: Option<i32>)
    ensures
        r == match entries_of(puzzle_input.spec_bytes(), false) {
            Some(entries) => winnings(ranked(entries, entries.len() as int), entries.len() as int),
            None => None,
        },
{
    total_winnings(parse_input_part1(puzzle_input)?)
}

/// The total winnings when `J` is the joker.
pub fn part2(puzzle_input: &str) -> (r: Option<i32>)
    ensures
        r == match entries_of(puzzle_input.spec_bytes(), true) {
            Some(entries) => winnings(ranked(entries, entries.len() as int), entries.len() as int),
            None => None,
        },
{
    total_winnings(parse_input_part2(puzzle_input)?)
}

/// If hand `a` comes before hand `c`, then it comes before any hand `b`, or
/// `b` comes before `c`.
pub proof fn lemma_cards_between(a: Seq<Card>, b: Seq<Card>, c: Seq<Card>, i: int)
    requires
        0 <= i,
        cards_before(a, c, i),
    ensures
        cards_before(a, b, i) || cards_before(b, c, i),
    decreases 5 - i,
{
    if i < 5 && a[i].level() == c[i].level() && b[i].level() == a[i].level() {
        lemma_cards_between(a, b, c, i + 1);
    }
}

/// Of two hands not both come before the other.
pub proof fn lemma_cards_one_way(a: Seq<Card>, b: Seq<Card>, i: int)
    requires
        0 <= i,
        cards_before(a, b, i),
    ensures
        !cards_before(b, a, i),
    decreases 5 - i,
{
    if i < 5 && a[i].level() == b[i].level() {
        lemma_cards_one_way(a, b, i + 1);
    }
}

/// If hand `a` is weaker than hand `c`, then it is weaker than any hand
/// `b`, or `b` is weaker than `c`; and `c` is not weaker than `a`.
pub proof fn lemma_weaker_between(a: Seq<Card>, b: Seq<Card>, c: Seq<Card>)
    requires
        weaker(a, c),
    ensures
        weaker(a, b) || weaker(b, c),
        !weaker(c, a),
{
    if type_of(a).level() == type_of(c).level() {
        lemma_cards_between(a, b, c, 0);
        lemma_cards_one_way(a, c, 0);
    }
}

/// Whether no entry is weaker than one before it.
pub open spec fn in_order(sorted: Seq<(Seq<Card>, i32)>) -> bool {
    forall|i: int, j: int| 0 <= i < j < sorted.len() ==> !weaker((#[trigger] sorted[j]).0, (#[trigger] sorted[i]).0)
}

/// The place of an entry lies behind entries that are not stronger and
/// before entries that are.
pub proof fn lemma_place_for(sorted: Seq<(Seq<Card>, i32)>, entry: (Seq<Card>, i32), p: int)
    requires
        0 <= p <= sorted.len(),
    ensures
        0 <= place_for(sorted, entry, p) <= p,
        forall|k: int| place_for(sorted, entry, p) <= k < p ==> weaker(entry.0, (#[trigger] sorted[k]).0),
        place_for(sorted, entry, p) > 0 ==> !weaker(entry.0, sorted[place_for(sorted, entry, p) - 1].0),
    decreases p,
{
    if p > 0 && weaker(entry.0, sorted[p - 1].0) {
        lemma_place_for(sorted, entry, p - 1);
    }
}

/// The entries come out in order of strength, and they are the entries
/// that went in, each as often.
pub proof fn lemma_ranked(entries: Seq<(Seq<Card>, i32)>, n: int)
    requires
        0 <= n <= entries.len(),
    ensures
        in_order(ranked(entries, n)),
        ranked(entries, n).len() == n,
        ranked(entries, n).to_multiset() == entries.take(n).to_multiset(),
    decreases n,
{
    if n > 0 {
        lemma_ranked(entries, n - 1);
        let sorted = ranked(entries, n - 1);
        let entry = entries[n - 1];
        let p = place_for(sorted, entry, sorted.len() as int);
        lemma_place_for(sorted, entry, sorted.len() as int);
        let after = sorted.insert(p, entry);
        assert forall|i: int, j: int| 0 <= i < j < after.len() implies !weaker(
            (#[trigger] after[j]).0,
            (#[trigger] after[i]).0,
        ) by {
            if j == p {
                if weaker(entry.0, sorted[i].0) {
                    lemma_weaker_between(entry.0, sorted[p - 1].0, sorted[i].0);
                    assert(i < p - 1 ==> !weaker(sorted[p - 1].0, sorted[i].0));
                }
            } else if i == p {
                assert(after[j] == sorted[j - 1]);
                assert(weaker(entry.0, sorted[j - 1].0));
                lemma_weaker_between(entry.0, entry.0, sorted[j - 1].0);
            } else {
                let from = if i < p {
                    i
                } else {
                    i - 1
                };
                let to = if j < p {
                    j
                } else {
                    j - 1
                };
                assert(after[i] == sorted[from]);
                assert(after[j] == sorted[to]);
            }
        }
        vstd::seq_lib::to_multiset_insert(sorted, p, entry);
        vstd::seq_lib::to_multiset_build(entries.take(n - 1), entry);
        assert(entries.take(n) =~= entries.take(n - 1).push(entry));
    } else {
        assert(entries.take(0) =~= Seq::<(Seq<Card>, i32)>::empty());
    }
}

} // verus!
