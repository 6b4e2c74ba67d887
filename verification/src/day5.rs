//! Seeds that are carried through a chain of maps, one by one or in ranges.

use crate::text::{lines, lines_of, parse_usize, split_once, split_once_on, usize_of, views, words, words_of};
use std::ops::Range;
use vstd::prelude::*;
use vstd::string::StringSliceAdditionalSpecFns;

verus! {

/// How a range lies to another: the part before it, the part in it, and the
/// part after it.
#[derive(Debug)]
pub struct OverlapInfo<T> {
    pub before: Option<T>,
    pub overlap: Option<T>,
    pub after: Option<T>,
}

/// How `this` lies to `other`. A range that ends before `other` starts is
/// all before it, one that starts where `other` ends or later is all after
/// it, and any other is cut at the ends of `other`.
pub open spec fn overlap_of(this: Range<usize>, other: Range<usize>) -> OverlapInfo<Range<usize>> {
    if this.end <= other.start {
        OverlapInfo { before: Some(this), overlap: None, after: None }
    } else if this.start >= other.end {
        OverlapInfo { before: None, overlap: None, after: Some(this) }
    } else {
        OverlapInfo {
            before: if this.start < other.start {
                Some(this.start..other.start)
            } else {
                None
            },
            overlap: Some(
                (if this.start >= other.start { this.start } else { other.start })..(if this.end <= other.end {
                    this.end
                } else {
                    other.end
                }),
            ),
            after: if this.end > other.end {
                Some(other.end..this.end)
            } else {
                None
            },
        }
    }
}

/// Splits `this` by how it lies to `other`.
pub fn split_on_overlap(this: Range<usize>, other: &Range<usize>) -> (r: OverlapInfo<Range<usize>>)
    ensures
        r == overlap_of(this, *other),
{
    if this.end <= other.start {
        return OverlapInfo { before: Some(this), overlap: None, after: None };
    }
    if this.start >= other.end {
        return OverlapInfo { before: None, overlap: None, after: Some(this) };
    }
    let low = if this.start >= other.start {
        this.start
    } else {
        other.start
    };
    let high = if this.end <= other.end {
        this.end
    } else {
        other.end
    };
    let overlap = Some(low..high);
    let before = if this.start < other.start {
        Some(this.start..other.start)
    } else {
        None
    };
    let after = if this.end > other.end {
        Some(other.end..this.end)
    } else {
        None
    };
    OverlapInfo { before, overlap, after }
}

/// The parts of a split hold exactly the values of the range: a value of
/// the range is in the part before, in, or after the other range, according
/// to where it lies.
pub proof fn lemma_overlap_parts(this: Range<usize>, other: Range<usize>, v: usize)
    requires
        other.start <= other.end,
    ensures
        ({
            let info = overlap_of(this, other);
            &&& (info.before matches Some(b) && b.start <= v < b.end) <==> (this.start <= v < this.end && v
                < other.start)
            &&& (info.overlap matches Some(o) && o.start <= v < o.end) <==> (this.start <= v < this.end
                && other.start <= v < other.end)
            &&& (info.after matches Some(a) && a.start <= v < a.end) <==> (this.start <= v < this.end && v
                >= other.end)
        }),
{
}

/// A stretch of sources that is moved to start at `dest_start`.
#[derive(Debug)]
pub struct MapRange {
    pub range: Range<usize>,
    pub dest_start: usize,
}

impl MapRange {
    /// Where the map range carries `val`.
    pub open spec fn moved(self, val: int) -> int {
        val - self.range.start + self.dest_start
    }

    pub fn new(start: usize, end: usize, dest_start: usize) -> (r: Self)
        ensures
            r.range == (start..end),
            r.dest_start == dest_start,
    {
        MapRange { range: start..end, dest_start }
    }

    pub fn src_to_dest(&self, val: usize) -> (r: usize)
        requires
            val >= self.range.start,
            self.moved(val as int) <= usize::MAX,
        ensures
            r == self.moved(val as int),
    {
        val - self.range.start + self.dest_start
    }

    pub fn src_to_dest_range(&self, range: Range<usize>) -> (r: Range<usize>)
        requires
            range.start >= self.range.start,
            range.end >= self.range.start,
            self.moved(range.start as int) <= usize::MAX,
            self.moved(range.end as int) <= usize::MAX,
        ensures
            r.start == self.moved(range.start as int),
            r.end == self.moved(range.end as int),
    {
        self.src_to_dest(range.start)..self.src_to_dest(range.end)
    }

    /// Where the map range carries the range, or nothing when an end of it
    /// lies before the map range or is carried out of `usize`.
    pub fn checked_src_to_dest_range(&self, range: &Range<usize>) -> (r: Option<Range<usize>>)
        ensures
            r == moved_range(*self, *range),
    {
        let start = range.start.checked_sub(self.range.start)?.checked_add(self.dest_start)?;
        let end = range.end.checked_sub(self.range.start)?.checked_add(self.dest_start)?;
        Some(start..end)
    }
}

/// Where a map range carries a range, as far as no end of it lies before the
/// map range or is carried out of `usize`.
pub open spec fn moved_range(m: MapRange, r: Range<usize>) -> Option<Range<usize>> {
    if r.start >= m.range.start && r.end >= m.range.start && m.moved(r.start as int) <= usize::MAX && m.moved(
        r.end as int,
    ) <= usize::MAX {
        Some((m.moved(r.start as int) as usize)..(m.moved(r.end as int) as usize))
    } else {
        None
    }
}

/// Where a map carries `v`: the first of its ranges from `from` on that
/// holds `v` moves it, and without one it stays. There is nothing when the
/// move leaves `usize`.
pub open spec fn through_map(map: Seq<MapRange>, v: usize, from: int) -> Option<usize>
    decreases map.len() - from,
{
    if from >= map.len() {
        Some(v)
    } else if map[from].range.start <= v < map[from].range.end {
        if map[from].moved(v as int) <= usize::MAX {
            Some(map[from].moved(v as int) as usize)
        } else {
            None
        }
    } else {
        through_map(map, v, from + 1)
    }
}

/// Where the first `n` maps carry `v`, one after the other.
pub open spec fn through_maps(maps: Seq<Seq<MapRange>>, v: usize, n: int) -> Option<usize>
    decreases n,
{
    if n <= 0 {
        Some(v)
    } else {
        match through_maps(maps, v, n - 1) {
            None => None,
            Some(w) => through_map(maps[n - 1], w, 0),
        }
    }
}

/// The views of the maps.
pub open spec fn map_views(maps: Seq<Vec<MapRange>>) -> Seq<Seq<MapRange>> {
    maps.map_values(|m: Vec<MapRange>| m@)
}

/// If the first `i` maps carry `v` nowhere, neither do the first `n`.
pub proof fn lemma_through_maps_prefix(maps: Seq<Seq<MapRange>>, v: usize, i: int, n: int)
    requires
        0 <= i <= n,
        through_maps(maps, v, i) is None,
    ensures
        through_maps(maps, v, n) is None,
    decreases n - i,
{
    if i < n {
        lemma_through_maps_prefix(maps, v, i, n - 1);
    }
}

/// Carries a value through one map.
pub fn follow_map(map: &Vec<MapRange>, v: usize) -> (r: Option<usize>)
    ensures
        r == through_map(map@, v, 0),
{
    let mut i: usize = 0;
    while i < map.len()
        invariant
            i <= map.len(),
            through_map(map@, v, 0) == through_map(map@, v, i as int),
        decreases map.len() - i,
    {
        if map[i].range.start <= v && v < map[i].range.end {
            return (v - map[i].range.start).checked_add(map[i].dest_start);
        }
        i = i + 1;
    }
    Some(v)
}

/// Carries a seed through all the maps.
pub fn follow(maps: &[Vec<MapRange>], seed: usize) -> (r: Option<usize>)
    ensures
        r == through_maps(map_views(maps@), seed, maps@.len() as int),
{
    let ghost all = map_views(maps@);
    let mut src_val = seed;
    let mut i: usize = 0;
    while i < maps.len()
        invariant
            i <= maps.len(),
            all == map_views(maps@),
            through_maps(all, seed, i as int) == Some(src_val),
        decreases maps.len() - i,
    {
        assert(all[i as int] == maps@[i as int]@);
        match follow_map(&maps[i], src_val) {
            Some(next) => {
                src_val = next;
            },
            None => {
                proof {
                    lemma_through_maps_prefix(all, seed, i + 1, all.len() as int);
                }
                return None;
            },
        }
        i = i + 1;
    }
    Some(src_val)
}

/// The ranges that a map makes of what remains of a range when its ranges
/// from `k` on are applied in order: what lies in a map range is moved, what
/// lies before it stays, and what lies after it goes on to the next. With
/// the map ranges in the order of their starts, whatever lies before one
/// lies before all that follow. There is nothing when a move leaves `usize`.
pub open spec fn range_through_map(map: Seq<MapRange>, remaining: Option<Range<usize>>, k: int) -> Option<
    Seq<Range<usize>>,
>
    decreases map.len() - k,
{
    match remaining {
        None => Some(Seq::empty()),
        Some(rest) => if k >= map.len() {
            Some(seq![rest])
        } else {
            let info = overlap_of(rest, map[k].range);
            match info.overlap {
                Some(overlap) => match (moved_range(map[k], overlap), range_through_map(map, info.after, k + 1)) {
                    (Some(moved), Some(others)) => Some(
                        seq![moved] + (match info.before {
                            Some(before) => seq![before],
                            None => Seq::empty(),
                        }) + others,
                    ),
                    _ => None,
                },
                None => if info.before is Some {
                    Some(seq![info.before.unwrap()])
                } else {
                    range_through_map(map, info.after, k + 1)
                },
            }
        },
    }
}

/// The ranges that a map makes of the first `n` ranges.
pub open spec fn ranges_through_map(map: Seq<MapRange>, ranges: Seq<Range<usize>>, n: int) -> Option<
    Seq<Range<usize>>,
>
    decreases n,
{
    if n <= 0 {
        Some(Seq::empty())
    } else {
        match (ranges_through_map(map, ranges, n - 1), range_through_map(map, Some(ranges[n - 1]), 0)) {
            (Some(so_far), Some(more)) => Some(so_far + more),
            _ => None,
        }
    }
}

/// The ranges that the first `n` maps make of a range, one map after the
/// other.
pub open spec fn range_through_maps(maps: Seq<Seq<MapRange>>, seeds: Range<usize>, n: int) -> Option<
    Seq<Range<usize>>,
>
    decreases n,
{
    if n <= 0 {
        Some(seq![seeds])
    } else {
        match range_through_maps(maps, seeds, n - 1) {
            None => None,
            Some(ranges) => ranges_through_map(maps[n - 1], ranges, ranges.len() as int),
        }
    }
}

/// If a map makes nothing of the first `i` ranges, it makes nothing of the
/// first `n`.
pub proof fn lemma_ranges_through_map_prefix(map: Seq<MapRange>, ranges: Seq<Range<usize>>, i: int, n: int)
    requires
        0 <= i <= n,
        ranges_through_map(map, ranges, i) is None,
    ensures
        ranges_through_map(map, ranges, n) is None,
    decreases n - i,
{
    if i < n {
        lemma_ranges_through_map_prefix(map, ranges, i, n - 1);
    }
}

/// If the first `i` maps make nothing of a range, neither do the first `n`.
pub proof fn lemma_range_through_maps_prefix(maps: Seq<Seq<MapRange>>, seeds: Range<usize>, i: int, n: int)
    requires
        0 <= i <= n,
        range_through_maps(maps, seeds, i) is None,
    ensures
        range_through_maps(maps, seeds, n) is None,
    decreases n - i,
{
    if i < n {
        lemma_range_through_maps_prefix(maps, seeds, i, n - 1);
    }
}

/// Carries one range through one map, adding what becomes of it to `out`.
fn follow_range_in_map(map: &Vec<MapRange>, src_range: Range<usize>, out: &mut Vec<Range<usize>>) -> (ok: bool)
    ensures
        match range_through_map(map@, Some(src_range), 0) {
            Some(more) => ok && final(out)@ == old(out)@ + more,
            None => !ok,
        },
{
    let ghost whole = range_through_map(map@, Some(src_range), 0);
    let ghost start = out@;
    let ghost mut done: Seq<Range<usize>> = Seq::empty();
    let mut remaining_range: Option<Range<usize>> = Some(src_range);
    let mut k: usize = 0;
    assert(out@ =~= start + done);
    loop
        invariant
            k <= map.len(),
            out@ == start + done,
            start == old(out)@,
            whole == range_through_map(map@, Some(src_range), 0),
            whole == (match range_through_map(map@, remaining_range, k as int) {
                Some(more) => Some(done + more),
                None => None,
            }),
        decreases map.len() - k,
    {
        let rest = match remaining_range {
            None => {
                assert(done + Seq::<Range<usize>>::empty() =~= done);
                return true;
            },
            Some(rest) => rest,
        };
        if k >= map.len() {
            proof {
                assert(start + (done + seq![rest]) =~= (start + done).push(rest));
            }
            out.push(rest);
            return true;
        }
        let ghost parts = overlap_of(rest, map@[k as int].range);
        let ghost later = range_through_map(map@, parts.after, k + 1);
        let info = split_on_overlap(rest, &map[k].range);
        match info.overlap {
            Some(overlap) => {
                let moved = match map[k].checked_src_to_dest_range(&overlap) {
                    Some(moved) => moved,
                    None => {
                        return false;
                    },
                };
                out.push(moved);
                proof {
                    done = done.push(moved);
                }
                match info.before {
                    Some(before) => {
                        out.push(before);
                        proof {
                            done = done.push(before);
                        }
                    },
                    None => {},
                }
                proof {
                    assert(out@ =~= start + done);
                    if later is Some {
                        let before_part: Seq<Range<usize>> = match parts.before {
                            Some(before) => seq![before],
                            None => Seq::empty(),
                        };
                        assert(done + later.unwrap() =~= (done.take(done.len() - 1 - before_part.len()) + (
                        seq![moved] + before_part + later.unwrap())));
                    }
                }
                remaining_range = info.after;
            },
            None => {
                if info.before.is_some() {
                    let before = info.before.unwrap();
                    proof {
                        assert(start + (done + seq![before]) =~= (start + done).push(before));
                    }
                    out.push(before);
                    return true;
                }
                remaining_range = info.after;
            },
        }
        k = k + 1;
    }
}

/// Carries a range of seeds through all the maps. Each map must hold its
/// ranges in the order of their starts.
pub fn follow_range(maps: &[Vec<MapRange>], seed_range: Range<usize>) -> (r: Option<Vec<Range<usize>>>)
    ensures
        match r {
            Some(ranges) => range_through_maps(map_views(maps@), seed_range, maps@.len() as int) == Some(ranges@),
            None => range_through_maps(map_views(maps@), seed_range, maps@.len() as int) is None,
        },
{
    let ghost all = map_views(maps@);
    let mut src_ranges: Vec<Range<usize>> = Vec::new();
    src_ranges.push(seed_range);
    assert(src_ranges@ =~= seq![seed_range]);
    let mut i: usize = 0;
    while i < maps.len()
        invariant
            i <= maps.len(),
            all == map_views(maps@),
            range_through_maps(all, seed_range, i as int) == Some(src_ranges@),
        decreases maps.len() - i,
    {
        assert(all[i as int] == maps@[i as int]@);
        let mut next_src_ranges: Vec<Range<usize>> = Vec::new();
        let mut j: usize = 0;
        while j < src_ranges.len()
            invariant
                j <= src_ranges.len(),
                i < maps.len(),
                all == map_views(maps@),
                all[i as int] == maps@[i as int]@,
                ranges_through_map(all[i as int], src_ranges@, j as int) == Some(next_src_ranges@),
                range_through_maps(all, seed_range, i as int) == Some(src_ranges@),
            decreases src_ranges.len() - j,
        {
            let src_range = src_ranges[j].start..src_ranges[j].end;
            assert(src_range == src_ranges@[j as int]);
            if !follow_range_in_map(&maps[i], src_range, &mut next_src_ranges) {
                proof {
                    lemma_ranges_through_map_prefix(all[i as int], src_ranges@, j + 1, src_ranges@.len() as int);
                    lemma_range_through_maps_prefix(all, seed_range, i + 1, all.len() as int);
                }
                return None;
            }
            j = j + 1;
        }
        src_ranges = next_src_ranges;
        i = i + 1;
    }
    Some(src_ranges)
}

/// The numbers that the first `n` words denote, if all of them do.
pub open spec fn numbers_from(texts: Seq<Seq<u8>>, n: int) -> Option<Seq<usize>>
    decreases n,
{
    if n <= 0 {
        Some(Seq::empty())
    } else {
        match (numbers_from(texts, n - 1), usize_of(texts[n - 1])) {
            (Some(ns), Some(v)) => Some(ns.push(v)),
            _ => None,
        }
    }
}

/// The numbers that a line holds.
pub open spec fn numbers_of(line: Seq<u8>) -> Option<Seq<usize>> {
    numbers_from(words_of(line), words_of(line).len() as int)
}

/// If the first `i` words are no numbers, neither are the first `n`.
pub proof fn lemma_numbers_from_prefix(texts: Seq<Seq<u8>>, i: int, n: int)
    requires
        0 <= i <= n,
        numbers_from(texts, i) is None,
    ensures
        numbers_from(texts, n) is None,
    decreases n - i,
{
    if i < n {
        lemma_numbers_from_prefix(texts, i, n - 1);
    }
}

/// Reads the numbers that a line holds.
fn parse_numbers(line: &[u8]) -> (r: Option<Vec<usize>>)
    ensures
        match r {
            Some(ns) => numbers_of(line@) == Some(ns@),
            None => numbers_of(line@) is None,
        },
{
    let texts = words(line);
    let ghost all = words_of(line@);
    let mut ns: Vec<usize> = Vec::new();
    let mut i: usize = 0;
    while i < texts.len()
        invariant
            i <= texts.len(),
            all == views(texts@),
            all == words_of(line@),
            numbers_from(all, i as int) == Some(ns@),
        decreases texts.len() - i,
    {
        assert(all[i as int] == texts@[i as int]@);
        match parse_usize(texts[i]) {
            Some(v) => {
                ns.push(v);
            },
            None => {
                proof {
                    lemma_numbers_from_prefix(all, i + 1, all.len() as int);
                }
                return None;
            },
        }
        i = i + 1;
    }
    Some(ns)
}

/// The map range that a line `<destination> <source> <length>` describes.
pub open spec fn map_range_of(line: Seq<u8>) -> Option<MapRange> {
    match numbers_of(line) {
        None => None,
        Some(ns) => if ns.len() >= 3 && ns[1] + ns[2] <= usize::MAX {
            Some(MapRange { range: ns[1]..((ns[1] + ns[2]) as usize), dest_start: ns[0] })
        } else {
            None
        },
    }
}

/// The index of the first map range from `i` on that starts after `start`,
/// or the number of map ranges.
pub open spec fn upper_index(s: Seq<MapRange>, start: usize, i: int) -> int
    decreases s.len() - i,
{
    if i >= s.len() {
        s.len() as int
    } else if s[i].range.start > start {
        i
    } else {
        upper_index(s, start, i + 1)
    }
}

/// `s` with `m` put in front of the first map range that starts after it.
pub open spec fn placed(s: Seq<MapRange>, m: MapRange) -> Seq<MapRange> {
    s.insert(upper_index(s, m.range.start, 0), m)
}

/// The first `n` map ranges in the order of their starts, those with equal
/// starts in their given order.
pub open spec fn by_start(s: Seq<MapRange>, n: int) -> Seq<MapRange>
    decreases n,
{
    if n <= 0 {
        Seq::empty()
    } else {
        placed(by_start(s, n - 1), s[n - 1])
    }
}

/// The maps that the first `n` lines after the seeds describe, and whether
/// the next line is the title of a new map: an empty line announces a title,
/// and any other line adds a map range to the last map.
pub open spec fn maps_from(ls: Seq<Seq<u8>>, n: int) -> Option<(Seq<Seq<MapRange>>, bool)>
    decreases n,
{
    if n <= 1 {
        Some((Seq::empty(), false))
    } else {
        match maps_from(ls, n - 1) {
            None => None,
            Some((maps, title_next)) => if ls[n - 1].len() == 0 {
                Some((maps, true))
            } else if title_next {
                Some((maps.push(Seq::empty()), false))
            } else {
                match map_range_of(ls[n - 1]) {
                    Some(m) => if maps.len() > 0 {
                        Some((maps.update(maps.len() - 1, maps.last().push(m)), false))
                    } else {
                        None
                    },
                    None => None,
                }
            },
        }
    }
}

/// If the first `i` lines describe no maps, neither do the first `n`.
pub proof fn lemma_maps_from_prefix(ls: Seq<Seq<u8>>, i: int, n: int)
    requires
        1 <= i <= n,
        maps_from(ls, i) is None,
    ensures
        maps_from(ls, n) is None,
    decreases n - i,
{
    if i < n {
        lemma_maps_from_prefix(ls, i, n - 1);
    }
}

/// The seeds and the maps that a text describes: the first line holds the
/// seeds after a colon, and each map holds its ranges in the order of their
/// starts.
pub open spec fn almanac_of(text: Seq<u8>) -> Option<(Seq<usize>, Seq<Seq<MapRange>>)> {
    let ls = lines_of(text);
    if ls.len() == 0 {
        None
    } else {
        match split_once_on(ls[0], 58u8) {
            None => None,
            Some((_, seeds)) => match (numbers_of(seeds), maps_from(ls, ls.len() as int)) {
                (Some(seeds), Some((maps, _))) => Some(
                    (seeds, Seq::new(maps.len(), |i: int| by_start(maps[i], maps[i].len() as int))),
                ),
                _ => None,
            },
        }
    }
}

/// Reads a map range.
fn parse_map_range(line: &[u8]) -> (r: Option<MapRange>)
    ensures
        r == map_range_of(line@),
{
    let nums = parse_numbers(line)?;
    if nums.len() < 3 {
        return None;
    }
    let end = nums[1].checked_add(nums[2])?;
    Some(MapRange::new(nums[1], end, nums[0]))
}

/// Sorts map ranges by their starts.
fn sort_by_start(map: Vec<MapRange>) -> (sorted: Vec<MapRange>)
    ensures
        sorted@ == by_start(map@, map@.len() as int),
{
    let ghost all = map@;
    let mut rest = map;
    let mut sorted: Vec<MapRange> = Vec::new();
    let ghost mut taken: int = 0;
    while rest.len() > 0
        invariant
            0 <= taken <= all.len(),
            rest@ == all.skip(taken),
            sorted@ == by_start(all, taken),
        decreases rest@.len(),
    {
        let m = rest.remove(0);
        assert(m == all[taken]);
        let mut at: usize = 0;
        while at < sorted.len() && sorted[at].range.start <= m.range.start
            invariant
                at <= sorted.len(),
                upper_index(sorted@, m.range.start, 0) == upper_index(sorted@, m.range.start, at as int),
            decreases sorted.len() - at,
        {
            at = at + 1;
        }
        sorted.insert(at, m);
        proof {
            assert(rest@ =~= all.skip(taken + 1));
            taken = taken + 1;
        }
    }
    sorted
}

/// Reads the seeds and the maps.
pub fn parse_input(puzzle_input: &str) -> (r: Option<(Vec<usize>, Vec<Vec<MapRange>>)>)
    ensures
        match r {
            Some((seeds, maps)) => almanac_of(puzzle_input.spec_bytes()) == Some((seeds@, map_views(maps@))),
            None => almanac_of(puzzle_input.spec_bytes()) is None,
        },
{
    let ls = lines(puzzle_input.as_bytes());
    let ghost all = lines_of(puzzle_input.spec_bytes());
    assert(all.len() == ls@.len());
    if ls.len() == 0 {
        return None;
    }
    assert(all[0] == ls@[0]@);
    let (_, seed_text) = split_once(ls[0], 58u8)?;
    let seeds = parse_numbers(seed_text)?;
    let mut maps: Vec<Vec<MapRange>> = Vec::new();
    let mut new_map_next = false;
    let mut i: usize = 1;
    assert(map_views(maps@) =~= Seq::<Seq<MapRange>>::empty());
    while i < ls.len()
        invariant
            1 <= i <= ls.len(),
            all == views(ls@),
            all == lines_of(puzzle_input.spec_bytes()),
            maps_from(all, i as int) == Some((map_views(maps@), new_map_next)),
        decreases ls.len() - i,
    {
        assert(all[i as int] == ls@[i as int]@);
        let ghost before = map_views(maps@);
        if ls[i].len() == 0 {
            new_map_next = true;
        } else if new_map_next {
            let empty: Vec<MapRange> = Vec::new();
            assert(map_views(maps@.push(empty)) =~= before.push(Seq::empty()));
            maps.push(empty);
            new_map_next = false;
        } else {
            let step = match parse_map_range(ls[i]) {
                Some(m) => if maps.len() > 0 {
                    Some(m)
                } else {
                    None
                },
                None => None,
            };
            match step {
                Some(m) => {
                    let ghost old_maps = maps@;
                    let mut last = maps.remove(maps.len() - 1);
                    last.push(m);
                    maps.push(last);
                    proof {
                        assert(maps@ =~= old_maps.update(old_maps.len() - 1, last));
                        assert(map_views(maps@) =~= before.update(before.len() - 1, before.last().push(m)));
                    }
                },
                None => {
                    proof {
                        lemma_maps_from_prefix(all, i + 1, all.len() as int);
                    }
                    return None;
                },
            }
        }
        i = i + 1;
    }
    let ghost unsorted = map_views(maps@);
    let mut sorted_maps: Vec<Vec<MapRange>> = Vec::new();
    let ghost mut taken: int = 0;
    while maps.len() > 0
        invariant
            0 <= taken <= unsorted.len(),
            map_views(maps@) == unsorted.skip(taken),
            sorted_maps@.len() == taken,
            forall|k: int|
                0 <= k < taken ==> (#[trigger] sorted_maps@[k])@ == by_start(unsorted[k], unsorted[k].len() as int),
        decreases maps@.len(),
    {
        let ghost old_maps = maps@;
        proof {
            assert(map_views(old_maps).len() == old_maps.len());
            assert(unsorted.skip(taken).len() == unsorted.len() - taken);
            assert(unsorted.skip(taken)[0] == unsorted[taken]);
        }
        let map = maps.remove(0);
        assert(map@ == map_views(old_maps)[0]);
        let sorted = sort_by_start(map);
        sorted_maps.push(sorted);
        proof {
            assert forall|k: int| 0 <= k < maps@.len() implies #[trigger] map_views(maps@)[k] == unsorted.skip(
                taken + 1,
            )[k] by {
                assert(maps@[k] == old_maps[k + 1]);
                assert(map_views(old_maps)[k + 1] == old_maps[k + 1]@);
                assert(unsorted.skip(taken)[k + 1] == unsorted[taken + k + 1]);
            }
            assert(map_views(maps@) =~= unsorted.skip(taken + 1));
            taken = taken + 1;
        }
    }
    proof {
        assert(map_views(sorted_maps@) =~= Seq::new(
            unsorted.len(),
            |i: int| by_start(unsorted[i], unsorted[i].len() as int),
        ));
    }
    Some((seeds, sorted_maps))
}

/// The least of where the first `n` seeds are carried, if there is a seed
/// and all are carried somewhere.
pub open spec fn least_location(seeds: Seq<usize>, maps: Seq<Seq<MapRange>>, n: int) -> Option<usize>
    decreases n,
{
    if n <= 0 {
        None
    } else {
        match through_maps(maps, seeds[n - 1], maps.len() as int) {
            None => None,
            Some(location) => if n == 1 {
                Some(location)
            } else {
                match least_location(seeds, maps, n - 1) {
                    None => None,
                    Some(least) => Some(if location < least { location } else { least }),
                }
            },
        }
    }
}

/// If the first `i` seeds have no least location, neither have the first
/// `n`.
pub proof fn lemma_least_location_prefix(seeds: Seq<usize>, maps: Seq<Seq<MapRange>>, i: int, n: int)
    requires
        1 <= i <= n,
        least_location(seeds, maps, i) is None,
    ensures
        least_location(seeds, maps, n) is None,
    decreases n - i,
{
    if i < n {
        lemma_least_location_prefix(seeds, maps, i, n - 1);
    }
}

/// The least location that a seed is carried to.
pub fn part1(seeds: &[usize], maps: &[Vec<MapRange>]) -> (r: Option<usize>)
    ensures
        r == least_location(seeds@, map_views(maps@), seeds@.len() as int),
{
    let ghost all = map_views(maps@);
    if seeds.len() == 0 {
        return None;
    }
    let mut least = match follow(maps, seeds[0]) {
        Some(location) => location,
        None => {
            proof {
                lemma_least_location_prefix(seeds@, all, 1, seeds@.len() as int);
            }
            return None;
        },
    };
    let mut i: usize = 1;
    while i < seeds.len()
        invariant
            1 <= i <= seeds.len(),
            all == map_views(maps@),
            least_location(seeds@, all, i as int) == Some(least),
        decreases seeds.len() - i,
    {
        match follow(maps, seeds[i]) {
            Some(location) => {
                if location < least {
                    least = location;
                }
            },
            None => {
                proof {
                    lemma_least_location_prefix(seeds@, all, i + 1, seeds@.len() as int);
                }
                return None;
            },
        }
        i = i + 1;
    }
    Some(least)
}

/// The least start among the first `n` ranges, if there is one.
pub open spec fn least_start(ranges: Seq<Range<usize>>, n: int) -> Option<usize>
    decreases n,
{
    if n <= 0 {
        None
    } else if n == 1 {
        Some(ranges[0].start)
    } else {
        match least_start(ranges, n - 1) {
            None => None,
            Some(least) => Some(if ranges[n - 1].start < least { ranges[n - 1].start } else { least }),
        }
    }
}

/// The least start of what the maps make of the range of seeds that starts
/// at `start` and holds `length` seeds.
pub open spec fn least_of_range(maps: Seq<Seq<MapRange>>, start: usize, length: usize) -> Option<usize> {
    if start + length > usize::MAX {
        None
    } else {
        match range_through_maps(maps, start..((start + length) as usize), maps.len() as int) {
            None => None,
            Some(ranges) => least_start(ranges, ranges.len() as int),
        }
    }
}

/// The least of the least starts for the first `n` pairs of a start and a
/// length among the seeds.
pub open spec fn least_of_pairs(seeds: Seq<usize>, maps: Seq<Seq<MapRange>>, n: int) -> Option<usize>
    decreases n,
{
    if n <= 0 {
        None
    } else {
        match least_of_range(maps, seeds[2 * (n - 1)], seeds[2 * (n - 1) + 1]) {
            None => None,
            Some(location) => if n == 1 {
                Some(location)
            } else {
                match least_of_pairs(seeds, maps, n - 1) {
                    None => None,
                    Some(least) => Some(if location < least { location } else { least }),
                }
            },
        }
    }
}

/// If the first `i` pairs have no least location, neither have the first
/// `n`.
pub proof fn lemma_least_of_pairs_prefix(seeds: Seq<usize>, maps: Seq<Seq<MapRange>>, i: int, n: int)
    requires
        1 <= i <= n,
        least_of_pairs(seeds, maps, i) is None,
    ensures
        least_of_pairs(seeds, maps, n) is None,
    decreases n - i,
{
    if i < n {
        lemma_least_of_pairs_prefix(seeds, maps, i, n - 1);
    }
}

/// The least start of the ranges.
fn min_start(ranges: &Vec<Range<usize>>) -> (r: Option<usize>)
    ensures
        r == least_start(ranges@, ranges@.len() as int),
{
    if ranges.len() == 0 {
        return None;
    }
    let mut least = ranges[0].start;
    let mut i: usize = 1;
    while i < ranges.len()
        invariant
            1 <= i <= ranges.len(),
            least_start(ranges@, i as int) == Some(least),
        decreases ranges.len() - i,
    {
        if ranges[i].start < least {
            least = ranges[i].start;
        }
        i = i + 1;
    }
    Some(least)
}

/// The least location for one range of seeds.
fn least_for(maps: &[Vec<MapRange>], start: usize, length: usize) -> (r: Option<usize>)
    ensures
        r == least_of_range(map_views(maps@), start, length),
{
    let end = start.checked_add(length)?;
    let ranges = follow_range(maps, start..end)?;
    min_start(&ranges)
}

/// The least location that a seed is carried to when the seeds are read as
/// pairs of a start and a length; a seed left over at the end is ignored.
/// Each map must hold its ranges in the order of their starts.
pub fn part2(seeds: &[usize], maps: &[Vec<MapRange>]) -> (r: Option<usize>)
    ensures
        r == least_of_pairs(seeds@, map_views(maps@), seeds@.len() as int / 2),
{
    let ghost all = map_views(maps@);
    let pairs = seeds.len() / 2;
    if pairs == 0 {
        return None;
    }
    let mut least = match least_for(maps, seeds[0], seeds[1]) {
        Some(location) => location,
        None => {
            proof {
                lemma_least_of_pairs_prefix(seeds@, all, 1, pairs as int);
            }
            return None;
        },
    };
    let mut i: usize = 1;
    while i < pairs
        invariant
            1 <= i <= pairs,
            pairs == seeds@.len() as int / 2,
            seeds@.len() <= usize::MAX,
            all == map_views(maps@),
            least_of_pairs(seeds@, all, i as int) == Some(least),
        decreases pairs - i,
    {
        match least_for(maps, seeds[2 * i], seeds[2 * i + 1]) {
            Some(location) => {
                if location < least {
                    least = location;
                }
            },
            None => {
                proof {
                    lemma_least_of_pairs_prefix(seeds@, all, i + 1, pairs as int);
                }
                return None;
            },
        }
        i = i + 1;
    }
    Some(least)
}

} // verus!
