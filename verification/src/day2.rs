//! Games in which handfuls of red, green and blue cubes are shown.

use crate::text::{bytes_eq, i32_of, parse_i32, split, split_on, views, words, words_of};
use vstd::prelude::*;
use vstd::string::StringSliceAdditionalSpecFns;

verus! {

/// A handful of cubes: how many of each colour.
#[derive(Debug, Clone, Copy, PartialEq, Eq, Structural)]
pub struct Reveal {
    pub red: i32,
    pub green: i32,
    pub blue: i32,
}

/// The name `red`.
pub open spec fn red_name() -> Seq<u8> {
    "red".spec_bytes()
}

/// The name `green`.
pub open spec fn green_name() -> Seq<u8> {
    "green".spec_bytes()
}

/// The name `blue`.
pub open spec fn blue_name() -> Seq<u8> {
    "blue".spec_bytes()
}

impl Reveal {
    /// The product of the three numbers.
    pub open spec fn product(self) -> int {
        self.red * self.green * self.blue
    }

    /// Whether the handful can come from a bag of 12 red, 13 green and 14
    /// blue cubes.
    pub open spec fn fits_bag(self) -> bool {
        self.red <= 12 && self.green <= 13 && self.blue <= 14
    }

    pub fn power(&self) -> (p: i32)
        requires
            i32::MIN <= self.red * self.green <= i32::MAX,
            i32::MIN <= self.product() <= i32::MAX,
        ensures
            p == self.product(),
    {
        self.red * self.green * self.blue
    }

    /// The product of the three numbers, or nothing when it or the product
    /// of the first two does not fit in 32 bits.
    pub fn checked_power(&self) -> (p: Option<i32>)
        ensures
            p == (if i32::MIN <= self.red * self.green <= i32::MAX && i32::MIN <= self.product() <= i32::MAX {
                Some(self.product() as i32)
            } else {
                None
            }),
    {
        let first = self.red.checked_mul(self.green)?;
        first.checked_mul(self.blue)
    }

    pub fn part1_possible(&self) -> (b: bool)
        ensures
            b == self.fits_bag(),
    {
        self.red <= 12 && self.green <= 13 && self.blue <= 14
    }
}

/// The handful after `<number> <colour>` has been read: the number replaces
/// what was known of the colour. There is none when the number or the
/// colour is missing or wrong.
pub open spec fn with_count(so_far: Reveal, text: Seq<u8>) -> Option<Reveal> {
    let parts = words_on_space(text);
    if parts.len() < 2 {
        None
    } else {
        match i32_of(parts[0]) {
            None => None,
            Some(n) => if parts[1] == red_name() {
                Some(Reveal { red: n, ..so_far })
            } else if parts[1] == green_name() {
                Some(Reveal { green: n, ..so_far })
            } else if parts[1] == blue_name() {
                Some(Reveal { blue: n, ..so_far })
            } else {
                None
            },
        }
    }
}

/// The pieces of `s` between spaces that are not empty, from the first `n`
/// pieces.
pub open spec fn kept(pieces: Seq<Seq<u8>>, n: int) -> Seq<Seq<u8>>
    decreases n,
{
    if n <= 0 {
        Seq::empty()
    } else if pieces[n - 1].len() == 0 {
        kept(pieces, n - 1)
    } else {
        kept(pieces, n - 1).push(pieces[n - 1])
    }
}

/// The pieces of `s` between spaces that are not empty.
pub open spec fn words_on_space(s: Seq<u8>) -> Seq<Seq<u8>> {
    kept(split_on(s, 32u8), split_on(s, 32u8).len() as int)
}

/// The handful that the first `n` of the texts describe.
pub open spec fn reveal_from(texts: Seq<Seq<u8>>, n: int) -> Option<Reveal>
    decreases n,
{
    if n <= 0 {
        Some(Reveal { red: 0, green: 0, blue: 0 })
    } else {
        match reveal_from(texts, n - 1) {
            None => None,
            Some(so_far) => with_count(so_far, texts[n - 1]),
        }
    }
}

/// The handful that `<number> <colour>, <number> <colour>, ...` describes.
pub open spec fn reveal_of(s: Seq<u8>) -> Option<Reveal> {
    reveal_from(split_on(s, 44u8), split_on(s, 44u8).len() as int)
}

/// If the first `i` texts describe no handful, neither do the first `n`.
pub proof fn lemma_reveal_from_prefix(texts: Seq<Seq<u8>>, i: int, n: int)
    requires
        0 <= i <= n,
        reveal_from(texts, i) is None,
    ensures
        reveal_from(texts, n) is None,
    decreases n - i,
{
    if i < n {
        lemma_reveal_from_prefix(texts, i, n - 1);
    }
}

/// Splits at spaces and drops the empty pieces.
fn split_on_spaces(s: &[u8]) -> (r: Vec<&[u8]>)
    ensures
        views(r@) == words_on_space(s@),
{
    let pieces = split(s, 32u8);
    let ghost all = split_on(s@, 32u8);
    let mut r: Vec<&[u8]> = Vec::new();
    let mut i: usize = 0;
    assert(views(r@) =~= kept(all, 0));
    while i < pieces.len()
        invariant
            i <= pieces.len(),
            all == views(pieces@),
            views(r@) == kept(all, i as int),
        decreases pieces.len() - i,
    {
        assert(all[i as int] == pieces@[i as int]@);
        if pieces[i].len() != 0 {
            proof {
                assert(views(r@.push(pieces@[i as int])) =~= views(r@).push(pieces@[i as int]@));
            }
            r.push(pieces[i]);
        }
        i = i + 1;
    }
    r
}

/// Reads `<number> <colour>` into the handful.
fn read_count(so_far: Reveal, text: &[u8]) -> (r: Option<Reveal>)
    ensures
        r == with_count(so_far, text@),
{
    let parts = split_on_spaces(text);
    assert(views(parts@).len() == parts@.len());
    if parts.len() < 2 {
        return None;
    }
    assert(views(parts@)[0] == parts@[0]@);
    assert(views(parts@)[1] == parts@[1]@);
    let n = parse_i32(parts[0])?;
    let colour = parts[1];
    if bytes_eq(colour, "red".as_bytes()) {
        Some(Reveal { red: n, green: so_far.green, blue: so_far.blue })
    } else if bytes_eq(colour, "green".as_bytes()) {
        Some(Reveal { red: so_far.red, green: n, blue: so_far.blue })
    } else if bytes_eq(colour, "blue".as_bytes()) {
        Some(Reveal { red: so_far.red, green: so_far.green, blue: n })
    } else {
        None
    }
}

/// Reads a handful such as `3 blue, 4 red`.
pub fn parse_reveal(reveal_str: &[u8]) -> (r: Option<Reveal>)
    ensures
        r == reveal_of(reveal_str@),
{
    let texts = split(reveal_str, 44u8);
    let ghost all = split_on(reveal_str@, 44u8);
    let mut so_far = Reveal { red: 0, green: 0, blue: 0 };
    let mut i: usize = 0;
    while i < texts.len()
        invariant
            i <= texts.len(),
            all == views(texts@),
            all == split_on(reveal_str@, 44u8),
            reveal_from(all, i as int) == Some(so_far),
        decreases texts.len() - i,
    {
        assert(all[i as int] == texts@[i as int]@);
        match read_count(so_far, texts[i]) {
            Some(next) => {
                so_far = next;
            },
            None => {
                proof {
                    lemma_reveal_from_prefix(all, i + 1, all.len() as int);
                }
                return None;
            },
        }
        i = i + 1;
    }
    Some(so_far)
}

/// A game: the handfuls that were shown.
#[derive(Debug)]
pub struct Game {
    pub reveals: Vec<Reveal>,
}

/// The greatest red count among the first `n` handfuls.
pub open spec fn max_red(reveals: Seq<Reveal>, n: int) -> i32
    decreases n,
{
    if n <= 1 {
        reveals[0].red
    } else if reveals[n - 1].red >= max_red(reveals, n - 1) {
        reveals[n - 1].red
    } else {
        max_red(reveals, n - 1)
    }
}

/// The greatest green count among the first `n` handfuls.
pub open spec fn max_green(reveals: Seq<Reveal>, n: int) -> i32
    decreases n,
{
    if n <= 1 {
        reveals[0].green
    } else if reveals[n - 1].green >= max_green(reveals, n - 1) {
        reveals[n - 1].green
    } else {
        max_green(reveals, n - 1)
    }
}

/// The greatest blue count among the first `n` handfuls.
pub open spec fn max_blue(reveals: Seq<Reveal>, n: int) -> i32
    decreases n,
{
    if n <= 1 {
        reveals[0].blue
    } else if reveals[n - 1].blue >= max_blue(reveals, n - 1) {
        reveals[n - 1].blue
    } else {
        max_blue(reveals, n - 1)
    }
}

/// The fewest cubes of each colour that make all the handfuls possible.
pub open spec fn min_counts(reveals: Seq<Reveal>) -> Reveal {
    Reveal {
        red: max_red(reveals, reveals.len() as int),
        green: max_green(reveals, reveals.len() as int),
        blue: max_blue(reveals, reveals.len() as int),
    }
}

/// Whether every handful fits the bag.
pub open spec fn all_fit(reveals: Seq<Reveal>) -> bool {
    forall|i: int| 0 <= i < reveals.len() ==> (#[trigger] reveals[i]).fits_bag()
}

impl Game {
    pub fn part1_possible(&self) -> (b: bool)
        ensures
            b == all_fit(self.reveals@),
    {
        let mut i: usize = 0;
        while i < self.reveals.len()
            invariant
                i <= self.reveals.len(),
                forall|k: int| 0 <= k < i ==> (#[trigger] self.reveals@[k]).fits_bag(),
            decreases self.reveals.len() - i,
        {
            if !self.reveals[i].part1_possible() {
                return false;
            }
            i = i + 1;
        }
        true
    }

    /// The fewest cubes of each colour that make the game possible. The game
    /// must have a handful.
    pub fn get_min_possible_counts(&self) -> (r: Reveal)
        requires
            self.reveals@.len() > 0,
        ensures
            r == min_counts(self.reveals@),
    {
        let mut r = self.reveals[0];
        let mut i: usize = 1;
        while i < self.reveals.len()
            invariant
                1 <= i <= self.reveals.len(),
                r.red == max_red(self.reveals@, i as int),
                r.green == max_green(self.reveals@, i as int),
                r.blue == max_blue(self.reveals@, i as int),
            decreases self.reveals.len() - i,
        {
            let next = self.reveals[i];
            if next.red >= r.red {
                r.red = next.red;
            }
            if next.green >= r.green {
                r.green = next.green;
            }
            if next.blue >= r.blue {
                r.blue = next.blue;
            }
            i = i + 1;
        }
        r
    }
}

/// The handfuls that the first `n` texts describe.
pub open spec fn reveals_from(texts: Seq<Seq<u8>>, n: int) -> Option<Seq<Reveal>>
    decreases n,
{
    if n <= 0 {
        Some(Seq::empty())
    } else {
        match (reveals_from(texts, n - 1), reveal_of(texts[n - 1])) {
            (Some(rs), Some(r)) => Some(rs.push(r)),
            _ => None,
        }
    }
}

/// The handfuls of the game that `<title>: <handful>; <handful>; ...`
/// describes.
pub open spec fn game_of(line: Seq<u8>) -> Option<Seq<Reveal>> {
    let parts = split_on(line, 58u8);
    if parts.len() < 2 {
        None
    } else {
        reveals_from(split_on(parts[1], 59u8), split_on(parts[1], 59u8).len() as int)
    }
}

/// If the first `i` texts describe no handfuls, neither do the first `n`.
pub proof fn lemma_reveals_from_prefix(texts: Seq<Seq<u8>>, i: int, n: int)
    requires
        0 <= i <= n,
        reveals_from(texts, i) is None,
    ensures
        reveals_from(texts, n) is None,
    decreases n - i,
{
    if i < n {
        lemma_reveals_from_prefix(texts, i, n - 1);
    }
}

/// Reads a game from its line.
pub fn parse_game(line: &[u8]) -> (r: Option<Game>)
    ensures
        match r {
            Some(game) => game_of(line@) == Some(game.reveals@) && game.reveals@.len() > 0,
            None => game_of(line@) is None,
        },
{
    let parts = split(line, 58u8);
    assert(views(parts@).len() == parts@.len());
    if parts.len() < 2 {
        return None;
    }
    assert(views(parts@)[1] == parts@[1]@);
    let texts = split(parts[1], 59u8);
    let ghost all = split_on(parts@[1]@, 59u8);
    proof {
        crate::text::lemma_split_nonempty(parts@[1]@, 59u8, 0, 0);
    }
    let mut reveals: Vec<Reveal> = Vec::new();
    let mut i: usize = 0;
    while i < texts.len()
        invariant
            i <= texts.len(),
            all == views(texts@),
            game_of(line@) == reveals_from(all, all.len() as int),
            reveals_from(all, i as int) == Some(reveals@),
            reveals@.len() == i,
        decreases texts.len() - i,
    {
        assert(all[i as int] == texts@[i as int]@);
        match parse_reveal(texts[i]) {
            Some(reveal) => {
                reveals.push(reveal);
            },
            None => {
                proof {
                    lemma_reveals_from_prefix(all, i + 1, all.len() as int);
                }
                return None;
            },
        }
        i = i + 1;
    }
    Some(Game { reveals })
}

/// The games that the first `n` lines describe, empty lines left out.
pub open spec fn games_from(ls: Seq<Seq<u8>>, n: int) -> Option<Seq<Seq<Reveal>>>
    decreases n,
{
    if n <= 0 {
        Some(Seq::empty())
    } else if ls[n - 1].len() == 0 {
        games_from(ls, n - 1)
    } else {
        match (games_from(ls, n - 1), game_of(ls[n - 1])) {
            (Some(gs), Some(g)) => Some(gs.push(g)),
            _ => None,
        }
    }
}

/// If the first `i` lines describe no games, neither do the first `n`.
pub proof fn lemma_games_from_prefix(ls: Seq<Seq<u8>>, i: int, n: int)
    requires
        0 <= i <= n,
        games_from(ls, i) is None,
    ensures
        games_from(ls, n) is None,
    decreases n - i,
{
    if i < n {
        lemma_games_from_prefix(ls, i, n - 1);
    }
}

/// The handfuls of each game.
pub open spec fn game_views(games: Seq<Game>) -> Seq<Seq<Reveal>> {
    games.map_values(|g: Game| g.reveals@)
}

/// Reads the games, one per line; empty lines are skipped.
pub fn parse_puzzle_input(puzzle_input: Vec<u8>) -> (r: Option<Vec<Game>>)
    ensures
        match r {
            Some(games) => games_from(split_on(puzzle_input@, 10u8), split_on(puzzle_input@, 10u8).len() as int)
                == Some(game_views(games@)) && forall|i: int|
                0 <= i < games@.len() ==> (#[trigger] games@[i]).reveals@.len() > 0,
            None => games_from(split_on(puzzle_input@, 10u8), split_on(puzzle_input@, 10u8).len() as int) is None,
        },
{
    let ls = split(puzzle_input.as_slice(), 10u8);
    let ghost all = split_on(puzzle_input@, 10u8);
    let mut result: Vec<Game> = Vec::new();
    let mut i: usize = 0;
    assert(game_views(result@) =~= Seq::<Seq<Reveal>>::empty());
    while i < ls.len()
        invariant
            i <= ls.len(),
            all == views(ls@),
            all == split_on(puzzle_input@, 10u8),
            games_from(all, i as int) == Some(game_views(result@)),
            forall|k: int| 0 <= k < result@.len() ==> (#[trigger] result@[k]).reveals@.len() > 0,
        decreases ls.len() - i,
    {
        assert(all[i as int] == ls@[i as int]@);
        if ls[i].len() != 0 {
            match parse_game(ls[i]) {
                Some(game) => {
                    proof {
                        assert(game_views(result@.push(game)) =~= game_views(result@).push(game.reveals@));
                    }
                    result.push(game);
                },
                None => {
                    proof {
                        lemma_games_from_prefix(all, i + 1, all.len() as int);
                    }
                    return None;
                },
            }
        }
        i = i + 1;
    }
    Some(result)
}

/// The sum of the numbers, counted from 1, of those of the first `n` games
/// in which every handful fits the bag, as far as it fits in 32 bits.
pub open spec fn possible_sum(games: Seq<Seq<Reveal>>, n: int) -> Option<i32>
    decreases n,
{
    if n <= 0 {
        Some(0)
    } else {
        match possible_sum(games, n - 1) {
            None => None,
            Some(sum) => if !all_fit(games[n - 1]) {
                Some(sum)
            } else if n <= i32::MAX && sum + n <= i32::MAX {
                Some((sum + n) as i32)
            } else {
                None
            },
        }
    }
}

/// If the first `i` games have no sum, neither have the first `n`.
pub proof fn lemma_possible_sum_prefix(games: Seq<Seq<Reveal>>, i: int, n: int)
    requires
        0 <= i <= n,
        possible_sum(games, i) is None,
    ensures
        possible_sum(games, n) is None,
    decreases n - i,
{
    if i < n {
        lemma_possible_sum_prefix(games, i, n - 1);
    }
}

/// The sum of the numbers of the games that the bag makes possible.
pub fn part1(games: &[Game]) -> (r: Option<i32>)
    ensures
        r == possible_sum(game_views(games@), games@.len() as int),
{
    let ghost all = game_views(games@);
    let mut sum: i32 = 0;
    let mut i: usize = 0;
    while i < games.len()
        invariant
            i <= games.len(),
            all == game_views(games@),
            possible_sum(all, i as int) == Some(sum),
            sum >= 0,
        decreases games.len() - i,
    {
        assert(all[i as int] == games@[i as int].reveals@);
        if games[i].part1_possible() {
            if i >= 0x7fff_ffff || sum > 0x7fff_ffff - (i as i32 + 1) {
                proof {
                    lemma_possible_sum_prefix(all, i + 1, all.len() as int);
                }
                return None;
            }
            sum = sum + (i as i32 + 1);
        }
        i = i + 1;
    }
    Some(sum)
}

/// The sum of the powers of the fewest cubes that make each of the first `n`
/// games possible, as far as every number fits in 32 bits.
pub open spec fn power_sum(games: Seq<Seq<Reveal>>, n: int) -> Option<i32>
    decreases n,
{
    if n <= 0 {
        Some(0)
    } else {
        let least = min_counts(games[n - 1]);
        match possible_power(least) {
            None => None,
            Some(p) => match power_sum(games, n - 1) {
                None => None,
                Some(sum) => if i32::MIN <= sum + p <= i32::MAX {
                    Some((sum + p) as i32)
                } else {
                    None
                },
            },
        }
    }
}

/// The power of a handful, where it and the product of the first two numbers
/// fit in 32 bits.
pub open spec fn possible_power(r: Reveal) -> Option<i32> {
    if i32::MIN <= r.red * r.green <= i32::MAX && i32::MIN <= r.product() <= i32::MAX {
        Some(r.product() as i32)
    } else {
        None
    }
}

/// If the first `i` games have no sum of powers, neither have the first `n`.
pub proof fn lemma_power_sum_prefix(games: Seq<Seq<Reveal>>, i: int, n: int)
    requires
        0 <= i <= n,
        power_sum(games, i) is None,
    ensures
        power_sum(games, n) is None,
    decreases n - i,
{
    if i < n {
        lemma_power_sum_prefix(games, i, n - 1);
    }
}

/// The sum of the powers of the fewest cubes that make each game possible.
/// Every game must have a handful.
pub fn part2(games: &[Game]) -> (r: Option<i32>)
    requires
        forall|i: int| 0 <= i < games@.len() ==> (#[trigger] games@[i]).reveals@.len() > 0,
    ensures
        r == power_sum(game_views(games@), games@.len() as int),
{
    let ghost all = game_views(games@);
    let mut sum: i32 = 0;
    let mut i: usize = 0;
    while i < games.len()
        invariant
            i <= games.len(),
            all == game_views(games@),
            power_sum(all, i as int) == Some(sum),
            forall|k: int| 0 <= k < games@.len() ==> (#[trigger] games@[k]).reveals@.len() > 0,
        decreases games.len() - i,
    {
        assert(all[i as int] == games@[i as int].reveals@);
        let step = match games[i].get_min_possible_counts().checked_power() {
            None => None,
            Some(p) => sum.checked_add(p),
        };
        match step {
            Some(next) => {
                sum = next;
            },
            None => {
                proof {
                    lemma_power_sum_prefix(all, i + 1, all.len() as int);
                }
                return None;
            },
        }
        i = i + 1;
    }
    Some(sum)
}

} // verus!
