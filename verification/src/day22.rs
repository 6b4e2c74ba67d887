//! Bricks that fall onto one another, and what falls when one is removed.

pub mod linked_list;

use crate::text::{lines, lines_of, parse_unsigned, split, split_on, unsigned_of, views};
use vstd::prelude::*;
use vstd::string::StringSliceAdditionalSpecFns;

verus! {

/// A cube of the grid.
#[derive(Debug, Clone, Copy, PartialEq, Eq, Structural)]
pub struct Position {
    pub x: u32,
    pub y: u32,
    pub z: u32,
}

/// A brick: the box of cubes between two corners, both included.
#[derive(Debug, Clone, Copy, PartialEq, Eq, Structural)]
pub struct Brick {
    pub min: Position,
    pub max: Position,
}

/// A 32-bit number written in decimal.
pub open spec fn coordinate_of(s: Seq<u8>) -> Option<u32> {
    match unsigned_of(s) {
        Some(v) => if v <= u32::MAX {
            Some(v as u32)
        } else {
            None
        },
        None => None,
    }
}

/// The position that `x,y,z` describes; further fields are ignored.
pub open spec fn position_of(s: Seq<u8>) -> Option<Position> {
    let fields = split_on(s, 44u8);
    if fields.len() >= 3 {
        match (coordinate_of(fields[0]), coordinate_of(fields[1]), coordinate_of(fields[2])) {
            (Some(x), Some(y), Some(z)) => Some(Position { x, y, z }),
            _ => None,
        }
    } else {
        None
    }
}

/// The brick that `<min>~<max>` describes; further parts are ignored.
#[verifier::opaque]
pub open spec fn brick_of(s: Seq<u8>) -> Option<Brick> {
    let parts = split_on(s, 126u8);
    if parts.len() >= 2 {
        match (position_of(parts[0]), position_of(parts[1])) {
            (Some(min), Some(max)) => Some(Brick { min, max }),
            _ => None,
        }
    } else {
        None
    }
}

/// The bricks that the lines describe, if every line describes one.
pub open spec fn bricks_of(ls: Seq<Seq<u8>>) -> Option<Seq<Brick>>
    decreases ls.len(),
{
    if ls.len() == 0 {
        Some(Seq::empty())
    } else {
        match (bricks_of(ls.drop_last()), brick_of(ls.last())) {
            (Some(bs), Some(b)) => Some(bs.push(b)),
            _ => None,
        }
    }
}

/// If a prefix of the lines does not read as bricks, neither does the whole.
pub proof fn lemma_bricks_of_prefix(ls: Seq<Seq<u8>>, i: int)
    requires
        0 <= i <= ls.len(),
        bricks_of(ls.take(i)) is None,
    ensures
        bricks_of(ls) is None,
    decreases ls.len() - i,
{
    if i == ls.len() {
        assert(ls.take(i) =~= ls);
    } else {
        assert(ls.take(i + 1).drop_last() =~= ls.take(i));
        lemma_bricks_of_prefix(ls, i + 1);
    }
}

/// Reads a coordinate.
pub fn parse_coordinate(s: &[u8]) -> (r: Option<u32>)
    ensures
        r == coordinate_of(s@),
{
    let v = parse_unsigned(s)?;
    if v <= 0xffff_ffff {
        Some(v as u32)
    } else {
        None
    }
}

/// Reads a position from `x,y,z`.
pub fn parse_position(s: &[u8]) -> (r: Option<Position>)
    ensures
        r == position_of(s@),
{
    let fields = split(s, 44u8);
    assert(views(fields@).len() == fields@.len());
    if fields.len() < 3 {
        return None;
    }
    assert(views(fields@)[0] == fields@[0]@);
    assert(views(fields@)[1] == fields@[1]@);
    assert(views(fields@)[2] == fields@[2]@);
    let x = parse_coordinate(fields[0])?;
    let y = parse_coordinate(fields[1])?;
    let z = parse_coordinate(fields[2])?;
    Some(Position { x, y, z })
}

/// Reads a brick from `x,y,z~x,y,z`.
pub fn parse_brick(s: &[u8]) -> (r: Option<Brick>)
    ensures
        r == brick_of(s@),
{
    reveal(brick_of);
    let parts = split(s, 126u8);
    assert(views(parts@).len() == parts@.len());
    if parts.len() < 2 {
        return None;
    }
    assert(views(parts@)[0] == parts@[0]@);
    assert(views(parts@)[1] == parts@[1]@);
    let min = parse_position(parts[0])?;
    let max = parse_position(parts[1])?;
    Some(Brick { min, max })
}

/// Reads one brick from each line of the text.
pub fn parse_input(input: &str) -> (r: Option<Vec<Brick>>)
    ensures
        match r {
            Some(bricks) => bricks_of(lines_of(input.spec_bytes())) == Some(bricks@),
            None => bricks_of(lines_of(input.spec_bytes())) is None,
        },
{
    let ls = lines(input.as_bytes());
    let ghost all = lines_of(input.spec_bytes());
    let mut bricks: Vec<Brick> = Vec::new();
    let mut i: usize = 0;
    assert(all.take(0) =~= Seq::<Seq<u8>>::empty());
    while i < ls.len()
        invariant
            i <= ls.len(),
            all == views(ls@),
            all == lines_of(input.spec_bytes()),
            bricks_of(all.take(i as int)) == Some(bricks@),
        decreases ls.len() - i,
    {
        proof {
            assert(all.take(i + 1).drop_last() =~= all.take(i as int));
            assert(all.take(i + 1).last() == ls@[i as int]@);
        }
        match parse_brick(ls[i]) {
            Some(brick) => {
                assert(bricks_of(all.take(i + 1)) == Some(bricks@.push(brick)));
                bricks.push(brick);
            },
            None => {
                proof {
                    assert(bricks_of(all.take(i + 1)) is None);
                    lemma_bricks_of_prefix(all, i + 1);
                }
                return None;
            },
        }
        i = i + 1;
    }
    assert(all.take(i as int) =~= all);
    Some(bricks)
}

impl Brick {
    /// Whether the two bricks share a column: their shadows on the ground
    /// overlap.
    pub open spec fn overlaps(self, other: Brick) -> bool {
        !(self.max.x < other.min.x || other.max.x < self.min.x || self.max.y < other.min.y
            || other.max.y < self.min.y)
    }

    /// This brick moved up or down so that its lowest cubes are at height
    /// `z`.
    pub open spec fn at_bottom(self, z: u32) -> Brick {
        Brick {
            min: Position { z, ..self.min },
            max: Position { z: (z + (self.max.z - self.min.z)) as u32, ..self.max },
        }
    }

    pub fn horizontally_collides(&self, other: &Self) -> (b: bool)
        ensures
            b == self.overlaps(*other),
    {
        !(self.max.x < other.min.x || other.max.x < self.min.x || self.max.y < other.min.y
            || other.max.y < self.min.y)
    }

    pub fn set_bottom_z(&mut self, z: u32)
        requires
            old(self).min.z <= old(self).max.z,
            z + (old(self).max.z - old(self).min.z) <= u32::MAX,
        ensures
            *final(self) == old(self).at_bottom(z),
    {
        let height = self.max.z - self.min.z;
        self.min.z = z;
        self.max.z = z + height;
    }
}

/// The index of the first brick from `i` on whose top is above `z`, or the
/// number of bricks.
pub open spec fn upper_index(s: Seq<Brick>, z: u32, i: int) -> int
    decreases s.len() - i,
{
    if i >= s.len() {
        s.len() as int
    } else if s[i].max.z > z {
        i
    } else {
        upper_index(s, z, i + 1)
    }
}

/// `s` with `b` put in front of the first brick whose top is above its own.
pub open spec fn placed(s: Seq<Brick>, b: Brick) -> Seq<Brick> {
    s.insert(upper_index(s, b.max.z, 0), b)
}

/// The first `n` bricks in the order of their tops, bricks with equal tops
/// in their given order.
pub open spec fn by_top(s: Seq<Brick>, n: int) -> Seq<Brick>
    decreases n,
{
    if n <= 0 {
        Seq::empty()
    } else {
        placed(by_top(s, n - 1), s[n - 1])
    }
}

/// Whether the tops of the bricks never go down along the sequence.
pub open spec fn ascending(s: Seq<Brick>) -> bool {
    forall|i: int, j: int| 0 <= i <= j < s.len() ==> s[i].max.z <= s[j].max.z
}

/// Whether the tops of the bricks never go up along the sequence.
pub open spec fn descending(s: Seq<Brick>) -> bool {
    forall|i: int, j: int| 0 <= i <= j < s.len() ==> s[i].max.z >= s[j].max.z
}

/// In an ascending sequence, the bricks before the upper index end at or
/// below `z`, and those from it on end above.
pub proof fn lemma_upper_index(s: Seq<Brick>, z: u32, i: int)
    requires
        ascending(s),
        0 <= i <= s.len(),
    ensures
        i <= upper_index(s, z, i) <= s.len(),
        forall|k: int| i <= k < upper_index(s, z, i) ==> s[k].max.z <= z,
        forall|k: int| upper_index(s, z, i) <= k < s.len() ==> s[k].max.z > z,
    decreases s.len() - i,
{
    if i < s.len() && s[i].max.z <= z {
        lemma_upper_index(s, z, i + 1);
    }
}

/// Placing a brick in an ascending sequence keeps it ascending.
pub proof fn lemma_placed_ascending(s: Seq<Brick>, b: Brick)
    requires
        ascending(s),
    ensures
        ascending(placed(s, b)),
        placed(s, b).len() == s.len() + 1,
{
    lemma_upper_index(s, b.max.z, 0);
    let at = upper_index(s, b.max.z, 0);
    let t = placed(s, b);
    assert forall|i: int, j: int| 0 <= i <= j < t.len() implies t[i].max.z <= t[j].max.z by {
        if i < at {
            assert(t[i] == s[i]);
        } else if i > at {
            assert(t[i] == s[i - 1]);
        }
        if j < at {
            assert(t[j] == s[j]);
        } else if j > at {
            assert(t[j] == s[j - 1]);
        }
    }
}

/// Finds where to put a brick whose top is at `z`.
fn find_place(s: &Vec<Brick>, z: u32) -> (at: usize)
    ensures
        at == upper_index(s@, z, 0),
        at <= s@.len(),
{
    let mut i: usize = 0;
    while i < s.len() && s[i].max.z <= z
        invariant
            i <= s.len(),
            upper_index(s@, z, 0) == upper_index(s@, z, i as int),
        decreases s.len() - i,
    {
        i = i + 1;
    }
    i
}

/// The top of the last of the first `n` landed bricks that shares a column
/// with `b`, if there is one.
pub open spec fn support_top(landed: Seq<Brick>, b: Brick, n: int) -> Option<u32>
    decreases n,
{
    if n <= 0 {
        None
    } else if b.overlaps(landed[n - 1]) {
        Some(landed[n - 1].max.z)
    } else {
        support_top(landed, b, n - 1)
    }
}

/// The brick `b` as it comes to rest on the landed bricks: right above the
/// last landed brick that shares a column with it, or on the ground at
/// height 1. There is none when its corners are the wrong way round or a
/// height leaves 32 bits.
pub open spec fn rested(landed: Seq<Brick>, b: Brick) -> Option<Brick> {
    let bottom: int = match support_top(landed, b, landed.len() as int) {
        Some(top) => top + 1,
        None => 1,
    };
    if b.min.z <= b.max.z && bottom + (b.max.z - b.min.z) <= u32::MAX {
        Some(b.at_bottom(bottom as u32))
    } else {
        None
    }
}

/// The landed bricks, by ascending top, after the first `n` of `s` have come
/// to rest one after the other.
pub open spec fn settled(s: Seq<Brick>, n: int) -> Option<Seq<Brick>>
    decreases n,
{
    if n <= 0 {
        Some(Seq::empty())
    } else {
        match settled(s, n - 1) {
            None => None,
            Some(landed) => match rested(landed, s[n - 1]) {
                None => None,
                Some(b) => Some(placed(landed, b)),
            },
        }
    }
}

/// If the first `i` bricks cannot settle, neither can the first `n`.
pub proof fn lemma_settled_prefix(s: Seq<Brick>, i: int, n: int)
    requires
        0 <= i <= n,
        settled(s, i) is None,
    ensures
        settled(s, n) is None,
    decreases n - i,
{
    if i < n {
        lemma_settled_prefix(s, i, n - 1);
    }
}

/// The bricks after they have all fallen as far as they can, highest top
/// first: they fall in the order of their tops, each onto what has landed
/// before it.
pub open spec fn dropped(bricks: Seq<Brick>) -> Option<Seq<Brick>> {
    let sorted = by_top(bricks, bricks.len() as int);
    match settled(sorted, sorted.len() as int) {
        None => None,
        Some(landed) => Some(landed.reverse()),
    }
}

/// Sorts the bricks by their tops.
fn sort_by_top(bricks: &Vec<Brick>) -> (sorted: Vec<Brick>)
    ensures
        sorted@ == by_top(bricks@, bricks@.len() as int),
        sorted@.len() == bricks@.len(),
        ascending(sorted@),
{
    let mut sorted: Vec<Brick> = Vec::new();
    let mut i: usize = 0;
    while i < bricks.len()
        invariant
            i <= bricks.len(),
            sorted@ == by_top(bricks@, i as int),
            sorted@.len() == i,
            ascending(sorted@),
        decreases bricks.len() - i,
    {
        let b = bricks[i];
        let at = find_place(&sorted, b.max.z);
        proof {
            lemma_placed_ascending(sorted@, b);
        }
        sorted.insert(at, b);
        i = i + 1;
    }
    sorted
}

/// Finds the top of the last landed brick that shares a column with `b`.
fn find_support(landed: &Vec<Brick>, b: &Brick) -> (top: Option<u32>)
    ensures
        top == support_top(landed@, *b, landed@.len() as int),
{
    let mut n: usize = landed.len();
    while n > 0
        invariant
            n <= landed.len(),
            support_top(landed@, *b, landed@.len() as int) == support_top(landed@, *b, n as int),
        decreases n,
    {
        if b.horizontally_collides(&landed[n - 1]) {
            return Some(landed[n - 1].max.z);
        }
        n = n - 1;
    }
    None
}

/// Lets the bricks fall, and returns them highest top first. There is no
/// result when a brick has its corners the wrong way round or a height leaves
/// 32 bits.
pub fn drop_bricks(bricks: Vec<Brick>) -> (r: Option<Vec<Brick>>)
    ensures
        match r {
            Some(landed) => dropped(bricks@) == Some(landed@) && descending(landed@) && landed@.len()
                == bricks@.len(),
            None => dropped(bricks@) is None,
        },
{
    let sorted = sort_by_top(&bricks);
    let mut landed_bricks: Vec<Brick> = Vec::new();
    let mut i: usize = 0;
    while i < sorted.len()
        invariant
            i <= sorted.len(),
            settled(sorted@, i as int) == Some(landed_bricks@),
            ascending(landed_bricks@),
            landed_bricks@.len() == i,
            sorted@ == by_top(bricks@, bricks@.len() as int),
            sorted@.len() == bricks@.len(),
        decreases sorted.len() - i,
    {
        let mut falling_brick = sorted[i];
        let new_z: u64 = match find_support(&landed_bricks, &falling_brick) {
            Some(top) => top as u64 + 1,
            None => 1,
        };
        if falling_brick.min.z > falling_brick.max.z || new_z + (falling_brick.max.z
            - falling_brick.min.z) as u64 > 0xffff_ffff {
            proof {
                assert(settled(sorted@, i + 1) is None);
                lemma_settled_prefix(sorted@, i + 1, sorted@.len() as int);
            }
            return None;
        }
        falling_brick.set_bottom_z(new_z as u32);
        let at = find_place(&landed_bricks, falling_brick.max.z);
        proof {
            lemma_placed_ascending(landed_bricks@, falling_brick);
        }
        landed_bricks.insert(at, falling_brick);
        i = i + 1;
    }
    let ghost up = landed_bricks@;
    let mut result: Vec<Brick> = Vec::new();
    let mut k: usize = landed_bricks.len();
    while k > 0
        invariant
            k <= landed_bricks.len(),
            up == landed_bricks@,
            result@.len() == landed_bricks.len() - k,
            forall|t: int| 0 <= t < result@.len() ==> result@[t] == up[up.len() - 1 - t],
        decreases k,
    {
        result.push(landed_bricks[k - 1]);
        k = k - 1;
    }
    assert(result@ =~= up.reverse());
    Some(result)
}

/// Whether `upper` lies directly on `lower`: they share a column and `upper`
/// starts one above where `lower` ends.
pub open spec fn rests_on(upper: Brick, lower: Brick) -> bool {
    lower.max.z + 1 == upper.min.z && lower.overlaps(upper)
}

/// The indices below `to`, and after `i`, of the bricks that brick `i` lies
/// on, in ascending order.
pub open spec fn supporters(landed: Seq<Brick>, i: int, to: int) -> Seq<usize>
    decreases to - i,
{
    if to <= i + 1 {
        Seq::empty()
    } else if rests_on(landed[i], landed[to - 1]) {
        supporters(landed, i, to - 1).push((to - 1) as usize)
    } else {
        supporters(landed, i, to - 1)
    }
}

/// The indices below `to` of the bricks that lie on brick `j`, in ascending
/// order.
pub open spec fn dependents(landed: Seq<Brick>, j: int, to: int) -> Seq<usize>
    decreases to,
{
    if to <= 0 {
        Seq::empty()
    } else if rests_on(landed[to - 1], landed[j]) {
        dependents(landed, j, to - 1).push((to - 1) as usize)
    } else {
        dependents(landed, j, to - 1)
    }
}

/// Where no brick from `from` on supports brick `i`, its supporters below
/// `to` are those below `from`.
pub proof fn lemma_supporters_stop(landed: Seq<Brick>, i: int, from: int, to: int)
    requires
        i < from <= to <= landed.len(),
        forall|k: int| from <= k < to ==> !rests_on(landed[i], landed[k]),
    ensures
        supporters(landed, i, to) == supporters(landed, i, from),
    decreases to - from,
{
    if from < to {
        lemma_supporters_stop(landed, i, from, to - 1);
    }
}

/// The supporters of a brick come after it and before `to`.
pub proof fn lemma_supporters_range(landed: Seq<Brick>, i: int, to: int)
    requires
        0 <= i,
        to <= usize::MAX,
    ensures
        forall|t: int| 0 <= t < supporters(landed, i, to).len() ==> i < #[trigger] supporters(landed, i, to)[t] < to,
    decreases to - i,
{
    if to > i + 1 {
        lemma_supporters_range(landed, i, to - 1);
        let prev = supporters(landed, i, to - 1);
        let cur = supporters(landed, i, to);
        assert forall|t: int| 0 <= t < cur.len() implies i < #[trigger] cur[t] < to by {
            if t < prev.len() {
                assert(cur[t] == prev[t]);
            }
        }
    }
}

/// Tells whether `upper` lies directly on `lower`.
pub fn lies_on(upper: &Brick, lower: &Brick) -> (b: bool)
    ensures
        b == rests_on(*upper, *lower),
{
    lower.max.z as u64 + 1 == upper.min.z as u64 && lower.horizontally_collides(upper)
}

/// For each brick, the bricks that lie on it and the bricks that it lies on,
/// by their indices. The bricks must come highest top first.
pub fn get_bricks_above_and_below(landed_bricks: &[Brick]) -> (r: (Vec<Vec<usize>>, Vec<Vec<usize>>))
    requires
        descending(landed_bricks@),
    ensures
        r.0@.len() == landed_bricks@.len(),
        r.1@.len() == landed_bricks@.len(),
        forall|j: int| 0 <= j < landed_bricks@.len() ==> (#[trigger] r.0@[j])@ == dependents(landed_bricks@, j, j),
        forall|i: int|
            0 <= i < landed_bricks@.len() ==> (#[trigger] r.1@[i])@ == supporters(
                landed_bricks@,
                i,
                landed_bricks@.len() as int,
            ),
{
    let n = landed_bricks.len();
    let ghost landed = landed_bricks@;
    let mut bricks_above: Vec<Vec<usize>> = Vec::new();
    let mut bricks_below: Vec<Vec<usize>> = Vec::new();
    let mut a: usize = 0;
    while a < n
        invariant
            a <= n,
            bricks_above@.len() == a,
            forall|j: int| 0 <= j < a ==> (#[trigger] bricks_above@[j])@ == Seq::<usize>::empty(),
        decreases n - a,
    {
        bricks_above.push(Vec::new());
        a = a + 1;
    }
    let mut i: usize = 0;
    while i < n
        invariant
            i <= n,
            n == landed.len(),
            landed == landed_bricks@,
            descending(landed),
            bricks_above@.len() == n,
            bricks_below@.len() == i,
            forall|j: int|
                0 <= j < n ==> (#[trigger] bricks_above@[j])@ == dependents(landed, j, if j < i { j } else { i as int }),
            forall|k: int| 0 <= k < i ==> (#[trigger] bricks_below@[k])@ == supporters(landed, k, n as int),
        decreases n - i,
    {
        let higher_brick = &landed_bricks[i];
        let mut below: Vec<usize> = Vec::new();
        let mut j: usize = i + 1;
        while j < n
            invariant
                i < j <= n,
                n == landed.len(),
                landed == landed_bricks@,
                descending(landed),
                *higher_brick == landed[i as int],
                bricks_above@.len() == n,
                below@ == supporters(landed, i as int, j as int),
                forall|t: int|
                    0 <= t < n ==> (#[trigger] bricks_above@[t])@ == dependents(
                        landed,
                        t,
                        if t < i { t } else if i < t < j { i + 1 } else { i as int },
                    ),
            ensures
                j == n || (j < n && landed[j as int].max.z + 1 < landed[i as int].min.z),
            decreases n - j,
        {
            let lower_brick = &landed_bricks[j];
            if (lower_brick.max.z as u64) + 1 < higher_brick.min.z as u64 {
                break ;
            }
            if lies_on(higher_brick, lower_brick) {
                let mut above = bricks_above.remove(j);
                above.push(i);
                bricks_above.insert(j, above);
                below.push(j);
            }
            j = j + 1;
        }
        proof {
            assert forall|k: int| j <= k < n implies !rests_on(landed[i as int], landed[k]) by {
                assert(landed[j as int].max.z >= landed[k].max.z);
            }
            lemma_supporters_stop(landed, i as int, j as int, n as int);
        }
        bricks_below.push(below);
        i = i + 1;
    }
    (bricks_above, bricks_below)
}

/// Whether some brick lies on brick `j` alone, among the first `upto`
/// bricks.
pub open spec fn sole_support(landed: Seq<Brick>, j: int, upto: int) -> bool {
    exists|i: int| 0 <= i < upto && #[trigger] supporters(landed, i, landed.len() as int) == seq![j as usize]
}

/// The number of bricks among the first `n` that are not the only support of
/// any brick.
pub open spec fn free_count(landed: Seq<Brick>, n: int) -> nat
    decreases n,
{
    if n <= 0 {
        0
    } else if sole_support(landed, n - 1, landed.len() as int) {
        free_count(landed, n - 1)
    } else {
        free_count(landed, n - 1) + 1
    }
}

/// Counts the bricks that can be taken away without another brick falling:
/// those that are not the only support of any brick. The bricks must come
/// highest top first.
pub fn num_disintegrateable(landed_bricks: &[Brick]) -> (count: usize)
    requires
        descending(landed_bricks@),
    ensures
        count == free_count(landed_bricks@, landed_bricks@.len() as int),
{
    let n = landed_bricks.len();
    let ghost landed = landed_bricks@;
    let (_, bricks_below) = get_bricks_above_and_below(landed_bricks);
    let mut needed: Vec<bool> = Vec::new();
    let mut a: usize = 0;
    while a < n
        invariant
            a <= n,
            needed@.len() == a,
            forall|j: int| 0 <= j < a ==> !(#[trigger] needed@[j]),
        decreases n - a,
    {
        needed.push(false);
        a = a + 1;
    }
    let mut i: usize = 0;
    while i < n
        invariant
            i <= n,
            n == landed.len(),
            needed@.len() == n,
            bricks_below@.len() == n,
            forall|k: int| 0 <= k < n ==> (#[trigger] bricks_below@[k])@ == supporters(landed, k, n as int),
            forall|j: int| 0 <= j < n ==> (#[trigger] needed@[j] <==> sole_support(landed, j, i as int)),
        decreases n - i,
    {
        let ghost before = needed@;
        if bricks_below[i].len() == 1 {
            let j = bricks_below[i][0];
            proof {
                lemma_supporters_range(landed, i as int, n as int);
                assert(supporters(landed, i as int, n as int) =~= seq![j]);
            }
            needed.set(j, true);
        }
        proof {
            assert forall|j: int| 0 <= j < n implies (#[trigger] needed@[j] <==> sole_support(
                landed,
                j,
                i + 1,
            )) by {
                if sole_support(landed, j, i + 1) {
                    let w = choose|w: int|
                        0 <= w < i + 1 && #[trigger] supporters(landed, w, landed.len() as int) == seq![
                            j as usize,
                        ];
                    if w < i {
                        assert(sole_support(landed, j, i as int));
                    } else {
                        assert(supporters(landed, i as int, n as int).len() == 1);
                        assert(supporters(landed, i as int, n as int)[0] == j as usize);
                    }
                }
                if needed@[j] {
                    if before[j] {
                        let w = choose|w: int|
                            0 <= w < i && #[trigger] supporters(landed, w, landed.len() as int) == seq![
                                j as usize,
                            ];
                        assert(0 <= w < i + 1);
                    } else {
                        assert(supporters(landed, i as int, landed.len() as int) == seq![j as usize]);
                    }
                }
            }
        }
        i = i + 1;
    }
    let mut count: usize = 0;
    let mut k: usize = 0;
    while k < n
        invariant
            k <= n,
            n == landed.len(),
            needed@.len() == n,
            forall|j: int| 0 <= j < n ==> (#[trigger] needed@[j] <==> sole_support(landed, j, n as int)),
            count == free_count(landed, k as int),
            count <= k,
        decreases n - k,
    {
        if !needed[k] {
            count = count + 1;
        }
        k = k + 1;
    }
    count
}

/// Whether brick `k` falls when brick `start` is taken away: it is `start`
/// itself, or it lies on some brick and every brick it lies on falls.
pub open spec fn falls(landed: Seq<Brick>, start: int, k: int) -> bool
    decreases landed.len() - k,
{
    if k == start {
        true
    } else if k < 0 || k > start || k >= landed.len() {
        false
    } else {
        let below = supporters(landed, k, landed.len() as int);
        below.len() > 0 && forall|t: int|
            0 <= t < below.len() ==> k < #[trigger] below[t] < landed.len() && falls(
                landed,
                start,
                below[t] as int,
            )
    }
}

/// The number of bricks among the first `n`, other than `start`, that fall
/// when `start` is taken away.
pub open spec fn fall_count(landed: Seq<Brick>, start: int, n: int) -> nat
    decreases n,
{
    if n <= 0 {
        0
    } else if n - 1 != start && falls(landed, start, n - 1) {
        fall_count(landed, start, n - 1) + 1
    } else {
        fall_count(landed, start, n - 1)
    }
}

/// The sum, over the first `n` bricks, of the number of other bricks that
/// fall when that brick is taken away.
pub open spec fn chain_total(landed: Seq<Brick>, n: int) -> nat
    decreases n,
{
    if n <= 0 {
        0
    } else {
        chain_total(landed, n - 1) + fall_count(landed, n - 1, landed.len() as int)
    }
}

/// The total over more bricks is at least the total over fewer.
pub proof fn lemma_chain_total_grows(landed: Seq<Brick>, i: int, n: int)
    requires
        0 <= i <= n,
    ensures
        chain_total(landed, i) <= chain_total(landed, n),
    decreases n - i,
{
    if i < n {
        lemma_chain_total_grows(landed, i, n - 1);
    }
}

/// Counts the bricks, other than brick `start`, that fall when it is taken
/// away.
fn count_falls(bricks_below: &Vec<Vec<usize>>, start: usize, Ghost(landed): Ghost<Seq<Brick>>) -> (count: usize)
    requires
        start < landed.len(),
        bricks_below@.len() == landed.len(),
        forall|k: int|
            0 <= k < landed.len() ==> (#[trigger] bricks_below@[k])@ == supporters(landed, k, landed.len() as int),
    ensures
        count == fall_count(landed, start as int, landed.len() as int),
{
    let n = bricks_below.len();
    let mut fallen: Vec<bool> = Vec::new();
    let mut a: usize = 0;
    while a < n
        invariant
            a <= n,
            fallen@.len() == a,
            forall|j: int| 0 <= j < a ==> !(#[trigger] fallen@[j]),
        decreases n - a,
    {
        fallen.push(false);
        a = a + 1;
    }
    fallen.set(start, true);
    let mut k: usize = start;
    while k > 0
        invariant
            k <= start < n,
            n == landed.len(),
            fallen@.len() == n,
            bricks_below@.len() == n,
            forall|t: int|
                0 <= t < n ==> (#[trigger] bricks_below@[t])@ == supporters(landed, t, n as int),
            forall|j: int| k <= j < n ==> (#[trigger] fallen@[j] <==> falls(landed, start as int, j)),
        decreases k,
    {
        k = k - 1;
        let below = &bricks_below[k];
        proof {
            lemma_supporters_range(landed, k as int, n as int);
        }
        let mut all: bool = below.len() > 0;
        let mut t: usize = 0;
        while t < below.len()
            invariant
                t <= below.len(),
                k < start < n,
                n == landed.len(),
                fallen@.len() == n,
                below@ == supporters(landed, k as int, n as int),
                forall|u: int| 0 <= u < below@.len() ==> k < #[trigger] below@[u] < n,
                forall|j: int| k < j < n ==> (#[trigger] fallen@[j] <==> falls(landed, start as int, j)),
                all <==> (below@.len() > 0 && forall|u: int|
                    0 <= u < t ==> falls(landed, start as int, #[trigger] below@[u] as int)),
            decreases below.len() - t,
        {
            if !fallen[below[t]] {
                all = false;
            }
            t = t + 1;
        }
        fallen.set(k, all);
    }
    let mut count: usize = 0;
    let mut j: usize = 0;
    while j < n
        invariant
            j <= n,
            start < n,
            n == landed.len(),
            fallen@.len() == n,
            forall|t: int| 0 <= t < n ==> (#[trigger] fallen@[t] <==> falls(landed, start as int, t)),
            count == fall_count(landed, start as int, j as int),
            count <= j,
        decreases n - j,
    {
        if j != start && fallen[j] {
            count = count + 1;
        }
        j = j + 1;
    }
    count
}

/// Adds up, over all bricks, the number of other bricks that fall when that
/// brick is taken away. The bricks must come highest top first. There is no
/// result when the sum does not fit in `usize`.
pub fn part2(landed_bricks: &[Brick]) -> (r: Option<usize>)
    requires
        descending(landed_bricks@),
    ensures
        r == (if chain_total(landed_bricks@, landed_bricks@.len() as int) <= usize::MAX {
            Some(chain_total(landed_bricks@, landed_bricks@.len() as int) as usize)
        } else {
            None
        }),
{
    let n = landed_bricks.len();
    let ghost landed = landed_bricks@;
    let (_, bricks_below) = get_bricks_above_and_below(landed_bricks);
    let mut total: usize = 0;
    let mut i: usize = 0;
    while i < n
        invariant
            i <= n,
            n == landed.len(),
            landed == landed_bricks@,
            bricks_below@.len() == n,
            forall|k: int| 0 <= k < n ==> (#[trigger] bricks_below@[k])@ == supporters(landed, k, n as int),
            total == chain_total(landed, i as int),
        decreases n - i,
    {
        let count = count_falls(&bricks_below, i, Ghost(landed));
        match total.checked_add(count) {
            Some(sum) => {
                total = sum;
            },
            None => {
                proof {
                    lemma_chain_total_grows(landed, i + 1, n as int);
                }
                return None;
            },
        }
        i = i + 1;
    }
    Some(total)
}

} // verus!
