//! Rows of springs of which some are of unknown condition, and the ways in
//! which they can agree with the record of damaged groups.

use crate::text::{lines, lines_of, parse_usize, split, split_on, split_once, split_once_on, to_vec, usize_of, views};
use vstd::prelude::*;
use vstd::string::StringSliceAdditionalSpecFns;

pub mod agree;

use agree::{lemma_tally_agrees, positive};

verus! {

/// A row of springs: `#` for damaged, `.` for operational, `?` for
/// unknown; and the sizes of its groups of damaged springs.
pub struct RecordRow {
    pub damaged_record: Vec<u8>,
    pub pattern: Vec<usize>,
}

/// The byte `#`.
pub const DAMAGED: u8 = 35;

/// The byte `.`.
pub const OPERATIONAL: u8 = 46;

/// The byte `?`.
pub const UNKNOWN: u8 = 63;

/// The sum of `a` and `b`, where both exist and the sum fits in `usize`.
pub open spec fn sum_of(a: Option<usize>, b: Option<usize>) -> Option<usize> {
    match (a, b) {
        (Some(x), Some(y)) => if x + y <= usize::MAX {
            Some((x + y) as usize)
        } else {
            None
        },
        _ => None,
    }
}

/// The number of ways to choose a condition for each unknown spring from
/// `record_index` on so that the row agrees with the groups from
/// `pattern_index` on, when the spring before is the last of `prev_damaged`
/// damaged springs in a row. There is no number when a byte is none of
/// `#`, `.` and `?`, or when a sum leaves `usize`.
pub open spec fn ways_from(
    record: Seq<u8>,
    pattern: Seq<usize>,
    record_index: int,
    pattern_index: int,
    prev_damaged: int,
) -> Option<usize>
    decreases record.len() - record_index, 1nat,
{
    if record_index >= record.len() {
        if pattern_index == pattern.len() {
            Some(if prev_damaged == 0 { 1usize } else { 0usize })
        } else {
            Some(
                if pattern_index + 1 == pattern.len() && 0 <= pattern_index && pattern[pattern_index]
                    == prev_damaged {
                    1usize
                } else {
                    0usize
                },
            )
        }
    } else {
        let c = record[record_index];
        if c == DAMAGED {
            if_damaged(record, pattern, record_index, pattern_index, prev_damaged)
        } else if c == OPERATIONAL {
            if_operational(record, pattern, record_index, pattern_index, prev_damaged)
        } else if c == UNKNOWN {
            sum_of(
                if_damaged(record, pattern, record_index, pattern_index, prev_damaged),
                if_operational(record, pattern, record_index, pattern_index, prev_damaged),
            )
        } else {
            None
        }
    }
}

/// The number of ways when the spring at `record_index` is damaged.
pub open spec fn if_damaged(
    record: Seq<u8>,
    pattern: Seq<usize>,
    record_index: int,
    pattern_index: int,
    prev_damaged: int,
) -> Option<usize>
    decreases record.len() - record_index, 0nat,
    when record_index < record.len()
{
    if pattern_index < 0 || pattern_index >= pattern.len() || prev_damaged + 1 > pattern[pattern_index] {
        Some(0)
    } else {
        ways_from(record, pattern, record_index + 1, pattern_index, prev_damaged + 1)
    }
}

/// The number of ways when the spring at `record_index` is operational.
pub open spec fn if_operational(
    record: Seq<u8>,
    pattern: Seq<usize>,
    record_index: int,
    pattern_index: int,
    prev_damaged: int,
) -> Option<usize>
    decreases record.len() - record_index, 0nat,
    when record_index < record.len()
{
    if prev_damaged == 0 {
        ways_from(record, pattern, record_index + 1, pattern_index, 0)
    } else if pattern_index < 0 || pattern_index >= pattern.len() || pattern[pattern_index] != prev_damaged {
        Some(0)
    } else {
        ways_from(record, pattern, record_index + 1, pattern_index + 1, 0)
    }
}

/// What is known of the numbers of ways: entries of a position in the
/// record, a position in the pattern, a run of damaged springs, and the
/// number of ways from there.
pub open spec fn memo_sound(record: Seq<u8>, pattern: Seq<usize>, memo: Seq<((usize, usize, usize), usize)>) -> bool {
    forall|k: int|
        0 <= k < memo.len() ==> ways_from(
            record,
            pattern,
            (#[trigger] memo[k]).0.0 as int,
            memo[k].0.1 as int,
            memo[k].0.2 as int,
        ) == Some(memo[k].1)
}

impl RecordRow {
    /// The number of ways from the given place on, by trying both
    /// conditions for every unknown spring.
    pub fn _num_ways_recursive_helper(&self, record_index: usize, pattern_index: usize, prev_damaged: usize) -> (r: Option<
        usize,
    >)
        requires
            record_index <= self.damaged_record@.len(),
        ensures
            r == ways_from(
                self.damaged_record@,
                self.pattern@,
                record_index as int,
                pattern_index as int,
                prev_damaged as int,
            ),
        decreases self.damaged_record@.len() - record_index,
    {
        if record_index == self.damaged_record.len() {
            let is_valid = if pattern_index == self.pattern.len() {
                prev_damaged == 0
            } else {
                pattern_index < self.pattern.len() && pattern_index + 1 == self.pattern.len()
                    && self.pattern[pattern_index] == prev_damaged
            };
            return Some(if is_valid { 1 } else { 0 });
        }
        let c = self.damaged_record[record_index];
        if c == DAMAGED {
            self.handle_damaged(record_index, pattern_index, prev_damaged)
        } else if c == OPERATIONAL {
            self.handle_operational(record_index, pattern_index, prev_damaged)
        } else if c == UNKNOWN {
            let damaged = self.handle_damaged(record_index, pattern_index, prev_damaged)?;
            let operational = self.handle_operational(record_index, pattern_index, prev_damaged)?;
            damaged.checked_add(operational)
        } else {
            None
        }
    }

    /// The number of ways when the spring at `record_index` is damaged.
    fn handle_damaged(&self, record_index: usize, pattern_index: usize, prev_damaged: usize) -> (r: Option<usize>)
        requires
            record_index < self.damaged_record@.len(),
        ensures
            r == if_damaged(
                self.damaged_record@,
                self.pattern@,
                record_index as int,
                pattern_index as int,
                prev_damaged as int,
            ),
        decreases self.damaged_record@.len() - record_index, 0nat,
    {
        let _ = self.damaged_record.len();
        if pattern_index >= self.pattern.len() || prev_damaged >= self.pattern[pattern_index] {
            Some(0)
        } else {
            self._num_ways_recursive_helper(record_index + 1, pattern_index, prev_damaged + 1)
        }
    }

    /// The number of ways when the spring at `record_index` is operational.
    fn handle_operational(&self, record_index: usize, pattern_index: usize, prev_damaged: usize) -> (r: Option<
        usize,
    >)
        requires
            record_index < self.damaged_record@.len(),
        ensures
            r == if_operational(
                self.damaged_record@,
                self.pattern@,
                record_index as int,
                pattern_index as int,
                prev_damaged as int,
            ),
        decreases self.damaged_record@.len() - record_index, 0nat,
    {
        let _ = self.damaged_record.len();
        if prev_damaged == 0 {
            self._num_ways_recursive_helper(record_index + 1, pattern_index, 0)
        } else if pattern_index >= self.pattern.len() || self.pattern[pattern_index] != prev_damaged {
            Some(0)
        } else {
            self._num_ways_recursive_helper(record_index + 1, pattern_index + 1, 0)
        }
    }

    /// The number of ways in which the row can agree with its pattern.
    pub fn _num_ways_recursive(&self) -> (r: Option<usize>)
        ensures
            r == ways_from(self.damaged_record@, self.pattern@, 0, 0, 0),
    {
        self._num_ways_recursive_helper(0, 0, 0)
    }

    /// The number of ways from the given place on, looked up in `memoization`
    /// where it is known and put there where it is worked out.
    pub fn _num_ways_memoized_helper(
        &self,
        record_index: usize,
        pattern_index: usize,
        prev_damaged: usize,
        memoization: &mut Vec<((usize, usize, usize), usize)>,
    ) -> (r: Option<usize>)
        requires
            record_index <= self.damaged_record@.len(),
            memo_sound(self.damaged_record@, self.pattern@, old(memoization)@),
        ensures
            r == ways_from(
                self.damaged_record@,
                self.pattern@,
                record_index as int,
                pattern_index as int,
                prev_damaged as int,
            ),
            memo_sound(self.damaged_record@, self.pattern@, final(memoization)@),
        decreases self.damaged_record@.len() - record_index, 1nat,
    {
        let mut k: usize = 0;
        while k < memoization.len()
            invariant
                k <= memoization.len(),
                memoization@ == old(memoization)@,
                memo_sound(self.damaged_record@, self.pattern@, memoization@),
            decreases memoization.len() - k,
        {
            let entry = memoization[k];
            if entry.0.0 == record_index && entry.0.1 == pattern_index && entry.0.2 == prev_damaged {
                return Some(entry.1);
            }
            k = k + 1;
        }
        if record_index == self.damaged_record.len() {
            let is_valid = if pattern_index == self.pattern.len() {
                prev_damaged == 0
            } else {
                pattern_index < self.pattern.len() && pattern_index + 1 == self.pattern.len()
                    && self.pattern[pattern_index] == prev_damaged
            };
            return Some(if is_valid { 1 } else { 0 });
        }
        let c = self.damaged_record[record_index];
        let rv = if c == DAMAGED {
            self.memoized_damaged(record_index, pattern_index, prev_damaged, memoization)
        } else if c == OPERATIONAL {
            self.memoized_operational(record_index, pattern_index, prev_damaged, memoization)
        } else if c == UNKNOWN {
            let damaged = self.memoized_damaged(record_index, pattern_index, prev_damaged, memoization);
            let operational = self.memoized_operational(record_index, pattern_index, prev_damaged, memoization);
            match (damaged, operational) {
                (Some(d), Some(o)) => d.checked_add(o),
                _ => None,
            }
        } else {
            None
        };
        match rv {
            Some(value) => {
                memoization.push(((record_index, pattern_index, prev_damaged), value));
            },
            None => {},
        }
        rv
    }

    /// The number of ways when the spring at `record_index` is damaged.
    fn memoized_damaged(
        &self,
        record_index: usize,
        pattern_index: usize,
        prev_damaged: usize,
        memoization: &mut Vec<((usize, usize, usize), usize)>,
    ) -> (r: Option<usize>)
        requires
            record_index < self.damaged_record@.len(),
            memo_sound(self.damaged_record@, self.pattern@, old(memoization)@),
        ensures
            r == if_damaged(
                self.damaged_record@,
                self.pattern@,
                record_index as int,
                pattern_index as int,
                prev_damaged as int,
            ),
            memo_sound(self.damaged_record@, self.pattern@, final(memoization)@),
        decreases self.damaged_record@.len() - record_index, 0nat,
    {
        let _ = self.damaged_record.len();
        if pattern_index >= self.pattern.len() || prev_damaged >= self.pattern[pattern_index] {
            Some(0)
        } else {
            self._num_ways_memoized_helper(record_index + 1, pattern_index, prev_damaged + 1, memoization)
        }
    }

    /// The number of ways when the spring at `record_index` is operational.
    fn memoized_operational(
        &self,
        record_index: usize,
        pattern_index: usize,
        prev_damaged: usize,
        memoization: &mut Vec<((usize, usize, usize), usize)>,
    ) -> (r: Option<usize>)
        requires
            record_index < self.damaged_record@.len(),
            memo_sound(self.damaged_record@, self.pattern@, old(memoization)@),
        ensures
            r == if_operational(
                self.damaged_record@,
                self.pattern@,
                record_index as int,
                pattern_index as int,
                prev_damaged as int,
            ),
            memo_sound(self.damaged_record@, self.pattern@, final(memoization)@),
        decreases self.damaged_record@.len() - record_index, 0nat,
    {
        let _ = self.damaged_record.len();
        if prev_damaged == 0 {
            self._num_ways_memoized_helper(record_index + 1, pattern_index, 0, memoization)
        } else if pattern_index >= self.pattern.len() || self.pattern[pattern_index] != prev_damaged {
            Some(0)
        } else {
            self._num_ways_memoized_helper(record_index + 1, pattern_index + 1, 0, memoization)
        }
    }

    /// The number of ways in which the row can agree with its pattern,
    /// worked out with a memory of what is known.
    pub fn _num_ways_memoized(&self) -> (r: Option<usize>)
        ensures
            r == ways_from(self.damaged_record@, self.pattern@, 0, 0, 0),
    {
        let mut memoization: Vec<((usize, usize, usize), usize)> = Vec::new();
        self._num_ways_memoized_helper(0, 0, 0, &mut memoization)
    }
}

/// `count` times the number `bin`.
pub open spec fn run_of(bin: usize, count: nat) -> Seq<usize> {
    Seq::new(count, |j: int| bin)
}

/// For every damaged spring that the first `m` groups of the pattern ask
/// for, the number of its group.
pub open spec fn bins_of(pattern: Seq<usize>, m: int) -> Seq<usize>
    decreases m,
{
    if m <= 0 {
        Seq::empty()
    } else {
        bins_of(pattern, m - 1) + run_of((m - 1) as usize, pattern[m - 1] as nat)
    }
}

/// The bins of more groups are no fewer.
pub proof fn lemma_bins_grow(pattern: Seq<usize>, i: int, n: int)
    requires
        0 <= i <= n,
    ensures
        bins_of(pattern, i).len() <= bins_of(pattern, n).len(),
    decreases n - i,
{
    if i < n {
        lemma_bins_grow(pattern, i, n - 1);
    }
}

/// The number of ways to settle the first `k` springs so that `i` of them
/// are damaged, the last one among them, and the groups so far are those
/// that the bins begin with.
pub open spec fn ends_damaged(record: Seq<u8>, bins: Seq<usize>, k: int, i: int) -> int
    decreases k,
{
    if k <= 0 || i <= 0 || record[k - 1] == OPERATIONAL {
        0
    } else {
        ends_operational(record, bins, k - 1, i - 1) + if i >= 2 && bins[i - 1] == bins[i - 2] {
            ends_damaged(record, bins, k - 1, i - 1)
        } else {
            0
        }
    }
}

/// The number of ways to settle the first `k` springs so that `i` of them
/// are damaged, the last spring is operational (or there is none), and the
/// groups so far are those that the bins begin with, each of them whole.
pub open spec fn ends_operational(record: Seq<u8>, bins: Seq<usize>, k: int, i: int) -> int
    decreases k,
{
    if k <= 0 {
        if i == 0 {
            1
        } else {
            0
        }
    } else if record[k - 1] == DAMAGED {
        0
    } else {
        ends_operational(record, bins, k - 1, i) + if i >= 1 && (i == bins.len() || bins[i] != bins[i - 1]) {
            ends_damaged(record, bins, k - 1, i)
        } else {
            0
        }
    }
}

/// Whether every spring of the record is damaged, operational or unknown.
pub open spec fn known(record: Seq<u8>) -> bool {
    forall|j: int| 0 <= j < record.len() ==> {
        ||| #[trigger] record[j] == DAMAGED
        ||| record[j] == OPERATIONAL
        ||| record[j] == UNKNOWN
    }
}

/// Whether the numbers of ways for the first `k` springs and fewer all fit
/// in `usize`.
pub open spec fn fits(record: Seq<u8>, bins: Seq<usize>, k: int) -> bool {
    &&& forall|kk: int, i: int|
        0 <= kk <= k && 0 <= i <= bins.len() ==> #[trigger] ends_damaged(record, bins, kk, i) <= usize::MAX
    &&& forall|kk: int, i: int|
        0 <= kk <= k && 0 <= i <= bins.len() ==> #[trigger] ends_operational(record, bins, kk, i) <= usize::MAX
}

/// The number of ways in which the record can agree with the pattern,
/// counted spring by spring from the left, as far as the counts on the way
/// fit in `usize`.
#[verifier::opaque]
pub open spec fn tally(record: Seq<u8>, pattern: Seq<usize>) -> Option<usize> {
    let bins = bins_of(pattern, pattern.len() as int);
    let n = bins.len() as int;
    let all = ends_damaged(record, bins, record.len() as int, n) + ends_operational(
        record,
        bins,
        record.len() as int,
        n,
    );
    if n < usize::MAX && known(record) && fits(record, bins, record.len() as int) && all <= usize::MAX {
        Some(all as usize)
    } else {
        None
    }
}

/// `n` copies of `record` with an unknown spring between each two.
pub open spec fn joined(record: Seq<u8>, n: int) -> Seq<u8>
    decreases n,
{
    if n <= 0 {
        Seq::empty()
    } else if n == 1 {
        record
    } else {
        joined(record, n - 1).push(UNKNOWN) + record
    }
}

/// `n` copies of `pattern`, one after the other.
pub open spec fn repeated(pattern: Seq<usize>, n: int) -> Seq<usize>
    decreases n,
{
    if n <= 0 {
        Seq::empty()
    } else {
        repeated(pattern, n - 1) + pattern
    }
}

impl RecordRow {
    /// For every damaged spring that the pattern asks for, the number of its
    /// group; nothing when there are `usize::MAX` of them or more.
    fn pattern_bins(&self) -> (r: Option<Vec<usize>>)
        ensures
            match r {
                Some(bins) => bins@ == bins_of(self.pattern@, self.pattern@.len() as int) && bins@.len()
                    < usize::MAX,
                None => bins_of(self.pattern@, self.pattern@.len() as int).len() >= usize::MAX,
            },
    {
        let mut bins: Vec<usize> = Vec::new();
        let mut m: usize = 0;
        while m < self.pattern.len()
            invariant
                m <= self.pattern@.len(),
                bins@ == bins_of(self.pattern@, m as int),
                bins@.len() < usize::MAX,
            decreases self.pattern@.len() - m,
        {
            let count = self.pattern[m];
            if count >= usize::MAX - bins.len() {
                proof {
                    lemma_bins_grow(self.pattern@, m + 1, self.pattern@.len() as int);
                }
                return None;
            }
            let mut t: usize = 0;
            while t < count
                invariant
                    t <= count,
                    m < self.pattern@.len(),
                    count == self.pattern@[m as int],
                    bins@ == bins_of(self.pattern@, m as int) + run_of(m, t as nat),
                    count < usize::MAX - bins_of(self.pattern@, m as int).len(),
                decreases count - t,
            {
                bins.push(m);
                t = t + 1;
                assert(bins@ =~= bins_of(self.pattern@, m as int) + run_of(m, t as nat));
            }
            m = m + 1;
        }
        Some(bins)
    }

    /// The number of ways in which the row can agree with its pattern,
    /// counted spring by spring from the left. Where every group of the
    /// pattern has a damaged spring, a number that is returned is the number
    /// that trying both conditions for every unknown spring gives.
    pub fn num_ways(&self) -> (r: Option<usize>)
        ensures
            r == tally(self.damaged_record@, self.pattern@),
            positive(self.pattern@) ==> (r matches Some(count) ==> ways_from(
                self.damaged_record@,
                self.pattern@,
                0,
                0,
                0,
            ) == Some(count)),
    {
        proof {
            reveal(tally);
            if positive(self.pattern@) {
                lemma_tally_agrees(self.damaged_record@, self.pattern@);
            }
        }
        let bins = self.pattern_bins()?;
        let n = bins.len();
        let ghost record = self.damaged_record@;
        let mut damaged: Vec<usize> = Vec::new();
        let mut operational: Vec<usize> = Vec::new();
        let mut i: usize = 0;
        while i <= n
            invariant
                i <= n + 1,
                n < usize::MAX,
                damaged@.len() == i,
                operational@.len() == i,
                forall|j: int| 0 <= j < i ==> damaged@[j] == #[trigger] ends_damaged(record, bins@, 0, j),
                forall|j: int| 0 <= j < i ==> operational@[j] == #[trigger] ends_operational(record, bins@, 0, j),
            decreases n + 1 - i,
        {
            damaged.push(0);
            operational.push(if i == 0 { 1 } else { 0 });
            i = i + 1;
        }
        let mut k: usize = 0;
        while k < self.damaged_record.len()
            invariant
                k <= record.len(),
                record == self.damaged_record@,
                n == bins@.len(),
                n < usize::MAX,
                bins@ == bins_of(self.pattern@, self.pattern@.len() as int),
                damaged@.len() == n + 1,
                operational@.len() == n + 1,
                forall|j: int| 0 <= j <= n ==> damaged@[j] == #[trigger] ends_damaged(record, bins@, k as int, j),
                forall|j: int|
                    0 <= j <= n ==> operational@[j] == #[trigger] ends_operational(record, bins@, k as int, j),
                fits(record, bins@, k as int),
                forall|j: int|
                    0 <= j < k ==> {
                        ||| #[trigger] record[j] == DAMAGED
                        ||| record[j] == OPERATIONAL
                        ||| record[j] == UNKNOWN
                    },
            decreases record.len() - k,
        {
            proof {
                reveal(tally);
            }
            let c = self.damaged_record[k];
            if c != DAMAGED && c != OPERATIONAL && c != UNKNOWN {
                return None;
            }
            let mut next_damaged: Vec<usize> = Vec::new();
            let mut next_operational: Vec<usize> = Vec::new();
            let mut i: usize = 0;
            while i <= n
                invariant
                    i <= n + 1,
                    k < record.len(),
                    c == record[k as int],
                    c == DAMAGED || c == OPERATIONAL || c == UNKNOWN,
                    record == self.damaged_record@,
                    n == bins@.len(),
                    n < usize::MAX,
                    bins@ == bins_of(self.pattern@, self.pattern@.len() as int),
                    damaged@.len() == n + 1,
                    operational@.len() == n + 1,
                    forall|j: int|
                        0 <= j <= n ==> damaged@[j] == #[trigger] ends_damaged(record, bins@, k as int, j),
                    forall|j: int|
                        0 <= j <= n ==> operational@[j] == #[trigger] ends_operational(record, bins@, k as int, j),
                    next_damaged@.len() == i,
                    next_operational@.len() == i,
                    forall|j: int|
                        0 <= j < i ==> next_damaged@[j] == #[trigger] ends_damaged(record, bins@, k + 1, j),
                    forall|j: int|
                        0 <= j < i ==> next_operational@[j] == #[trigger] ends_operational(
                            record,
                            bins@,
                            k + 1,
                            j,
                        ),
                decreases n + 1 - i,
            {
                proof {
                    reveal(tally);
                    let here = k as int;
                    let slot = i as int;
                    assert(operational@[slot] == ends_operational(record, bins@, here, slot));
                    assert(damaged@[slot] == ends_damaged(record, bins@, here, slot));
                    if i >= 1 {
                        assert(operational@[slot - 1] == ends_operational(record, bins@, here, slot - 1));
                        assert(damaged@[slot - 1] == ends_damaged(record, bins@, here, slot - 1));
                    }
                    assert(here + 1 - 1 == here);
                    assert(record[here + 1 - 1] == c);
                }
                let d: usize = if c == OPERATIONAL || i == 0 {
                    0
                } else {
                    let more: usize = if i >= 2 && bins[i - 1] == bins[i - 2] {
                        damaged[i - 1]
                    } else {
                        0
                    };
                    match operational[i - 1].checked_add(more) {
                        Some(v) => v,
                        None => {
                            assert(ends_damaged(record, bins@, k + 1, i as int) > usize::MAX);
                            return None;
                        },
                    }
                };
                let o: usize = if c == DAMAGED {
                    0
                } else {
                    let more: usize = if i >= 1 && (i == n || bins[i] != bins[i - 1]) {
                        damaged[i]
                    } else {
                        0
                    };
                    match operational[i].checked_add(more) {
                        Some(v) => v,
                        None => {
                            assert(ends_operational(record, bins@, k + 1, i as int) > usize::MAX);
                            return None;
                        },
                    }
                };
                assert(d == ends_damaged(record, bins@, k + 1, i as int));
                assert(o == ends_operational(record, bins@, k + 1, i as int));
                next_damaged.push(d);
                next_operational.push(o);
                i = i + 1;
            }
            damaged = next_damaged;
            operational = next_operational;
            k = k + 1;
        }
        damaged[n].checked_add(operational[n])
    }

    /// Five copies of the record with an unknown spring between each two,
    /// and five copies of the pattern.
    pub fn unfolded(&self) -> (r: RecordRow)
        ensures
            r.damaged_record@ == joined(self.damaged_record@, 5),
            r.pattern@ == repeated(self.pattern@, 5),
    {
        let mut damaged_record: Vec<u8> = Vec::new();
        let mut pattern: Vec<usize> = Vec::new();
        let mut i: usize = 0;
        while i < 5
            invariant
                i <= 5,
                damaged_record@ == joined(self.damaged_record@, i as int),
                pattern@ == repeated(self.pattern@, i as int),
            decreases 5 - i,
        {
            if i != 0 {
                damaged_record.push(UNKNOWN);
            }
            let mut j: usize = 0;
            while j < self.damaged_record.len()
                invariant
                    j <= self.damaged_record@.len(),
                    i < 5,
                    damaged_record@ == (if i == 0 {
                        Seq::<u8>::empty()
                    } else {
                        joined(self.damaged_record@, i as int).push(UNKNOWN)
                    }) + self.damaged_record@.take(j as int),
                decreases self.damaged_record@.len() - j,
            {
                damaged_record.push(self.damaged_record[j]);
                j = j + 1;
                assert(self.damaged_record@.take(j as int) =~= self.damaged_record@.take(j - 1).push(
                    self.damaged_record@[j - 1],
                ));
            }
            let mut j: usize = 0;
            while j < self.pattern.len()
                invariant
                    j <= self.pattern@.len(),
                    i < 5,
                    pattern@ == repeated(self.pattern@, i as int) + self.pattern@.take(j as int),
                decreases self.pattern@.len() - j,
            {
                pattern.push(self.pattern[j]);
                j = j + 1;
                assert(self.pattern@.take(j as int) =~= self.pattern@.take(j - 1).push(self.pattern@[j - 1]));
            }
            assert(self.damaged_record@.take(self.damaged_record@.len() as int) =~= self.damaged_record@);
            assert(self.pattern@.take(self.pattern@.len() as int) =~= self.pattern@);
            assert(joined(self.damaged_record@, 1) =~= Seq::<u8>::empty() + self.damaged_record@);
            i = i + 1;
        }
        RecordRow { damaged_record, pattern }
    }
}

/// The numbers that the first `n` texts denote, if all of them do.
pub open spec fn counts_from(texts: Seq<Seq<u8>>, n: int) -> Option<Seq<usize>>
    decreases n,
{
    if n <= 0 {
        Some(Seq::empty())
    } else {
        match (counts_from(texts, n - 1), usize_of(texts[n - 1])) {
            (Some(counts), Some(v)) => Some(counts.push(v)),
            _ => None,
        }
    }
}

/// If the first `i` texts are no numbers, neither are the first `n`.
pub proof fn lemma_counts_from_prefix(texts: Seq<Seq<u8>>, i: int, n: int)
    requires
        0 <= i <= n,
        counts_from(texts, i) is None,
    ensures
        counts_from(texts, n) is None,
    decreases n - i,
{
    if i < n {
        lemma_counts_from_prefix(texts, i, n - 1);
    }
}

/// The record and the pattern of a line `<springs> <count>,<count>,...`.
pub open spec fn row_of(line: Seq<u8>) -> Option<(Seq<u8>, Seq<usize>)> {
    match split_once_on(line, 32u8) {
        None => None,
        Some((record, counts)) => match counts_from(split_on(counts, 44u8), split_on(counts, 44u8).len() as int) {
            None => None,
            Some(pattern) => Some((record, pattern)),
        },
    }
}

/// The records and patterns of the first `n` lines, if each is a row.
pub open spec fn rows_from(ls: Seq<Seq<u8>>, n: int) -> Option<Seq<(Seq<u8>, Seq<usize>)>>
    decreases n,
{
    if n <= 0 {
        Some(Seq::empty())
    } else {
        match (rows_from(ls, n - 1), row_of(ls[n - 1])) {
            (Some(rows), Some(row)) => Some(rows.push(row)),
            _ => None,
        }
    }
}

/// If the first `i` lines are no rows, neither are the first `n`.
pub proof fn lemma_rows_from_prefix(ls: Seq<Seq<u8>>, i: int, n: int)
    requires
        0 <= i <= n,
        rows_from(ls, i) is None,
    ensures
        rows_from(ls, n) is None,
    decreases n - i,
{
    if i < n {
        lemma_rows_from_prefix(ls, i, n - 1);
    }
}

/// The record and the pattern of every row.
pub open spec fn models(rows: Seq<RecordRow>) -> Seq<(Seq<u8>, Seq<usize>)> {
    rows.map_values(|row: RecordRow| row.model())
}

impl RecordRow {
    /// The record and the pattern of the row.
    pub open spec fn model(&self) -> (Seq<u8>, Seq<usize>) {
        (self.damaged_record@, self.pattern@)
    }

    /// Reads a row from a line `<springs> <count>,<count>,...`.
    pub fn from(line: &str) -> (r: Option<RecordRow>)
        ensures
            match r {
                Some(row) => row_of(line.spec_bytes()) == Some(row.model()),
                None => row_of(line.spec_bytes()) is None,
            },
    {
        RecordRow::from_bytes(line.as_bytes())
    }

    /// Reads a row from the bytes of a line.
    pub fn from_bytes(line: &[u8]) -> (r: Option<RecordRow>)
        ensures
            match r {
                Some(row) => row_of(line@) == Some(row.model()),
                None => row_of(line@) is None,
            },
    {
        let (record, counts) = split_once(line, 32u8)?;
        let texts = split(counts, 44u8);
        let ghost all = split_on(counts@, 44u8);
        let mut pattern: Vec<usize> = Vec::new();
        let mut i: usize = 0;
        while i < texts.len()
            invariant
                i <= texts.len(),
                all == views(texts@),
                all == split_on(counts@, 44u8),
                split_once_on(line@, 32u8) == Some((record@, counts@)),
                counts_from(all, i as int) == Some(pattern@),
            decreases texts.len() - i,
        {
            assert(all[i as int] == texts@[i as int]@);
            match parse_usize(texts[i]) {
                Some(v) => {
                    pattern.push(v);
                },
                None => {
                    proof {
                        lemma_counts_from_prefix(all, i + 1, all.len() as int);
                    }
                    return None;
                },
            }
            i = i + 1;
        }
        Some(RecordRow { damaged_record: to_vec(record), pattern })
    }
}

/// Reads one row from every line of the input.
pub fn parse_input(input: &str) -> (r: Option<Vec<RecordRow>>)
    ensures
        match r {
            Some(rows) => rows_from(lines_of(input.spec_bytes()), lines_of(input.spec_bytes()).len() as int)
                == Some(models(rows@)),
            None => rows_from(lines_of(input.spec_bytes()), lines_of(input.spec_bytes()).len() as int) is None,
        },
{
    let texts = lines(input.as_bytes());
    let ghost all = lines_of(input.spec_bytes());
    let mut rows: Vec<RecordRow> = Vec::new();
    let mut i: usize = 0;
    while i < texts.len()
        invariant
            i <= texts.len(),
            all == views(texts@),
            all == lines_of(input.spec_bytes()),
            rows_from(all, i as int) == Some(models(rows@)),
        decreases texts.len() - i,
    {
        assert(all[i as int] == texts@[i as int]@);
        match RecordRow::from_bytes(texts[i]) {
            Some(row) => {
                let ghost before = rows@;
                rows.push(row);
                assert(models(rows@) =~= models(before).push(row.model()));
            },
            None => {
                proof {
                    lemma_rows_from_prefix(all, i + 1, all.len() as int);
                }
                return None;
            },
        }
        i = i + 1;
    }
    Some(rows)
}

/// The sum of the first `n` counts, if each is there and the sum fits in
/// `usize`.
pub open spec fn total(counts: Seq<Option<usize>>, n: int) -> Option<usize>
    decreases n,
{
    if n <= 0 {
        Some(0)
    } else {
        match (total(counts, n - 1), counts[n - 1]) {
            (Some(sum), Some(count)) => if sum + count <= usize::MAX {
                Some((sum + count) as usize)
            } else {
                None
            },
            _ => None,
        }
    }
}

/// If the first `i` counts have no sum, neither have the first `n`.
pub proof fn lemma_total_prefix(counts: Seq<Option<usize>>, i: int, n: int)
    requires
        0 <= i <= n,
        total(counts, i) is None,
    ensures
        total(counts, n) is None,
    decreases n - i,
{
    if i < n {
        lemma_total_prefix(counts, i, n - 1);
    }
}

/// For every row, the number of ways in which it can agree with its pattern.
pub open spec fn tallies(rows: Seq<RecordRow>) -> Seq<Option<usize>> {
    Seq::new(rows.len(), |i: int| tally(rows[i].damaged_record@, rows[i].pattern@))
}

/// For every row, the number of ways in which it can agree with its pattern
/// once it is unfolded.
pub open spec fn unfolded_tallies(rows: Seq<RecordRow>) -> Seq<Option<usize>> {
    Seq::new(
        rows.len(),
        |i: int| tally(joined(rows[i].damaged_record@, 5), repeated(rows[i].pattern@, 5)),
    )
}

/// For every row, the number of ways to choose a condition for each of its
/// unknown springs so that it agrees with its pattern.
pub open spec fn choices(rows: Seq<RecordRow>) -> Seq<Option<usize>> {
    Seq::new(rows.len(), |i: int| ways_from(rows[i].damaged_record@, rows[i].pattern@, 0, 0, 0))
}

/// For every row, the number of such ways once it is unfolded.
pub open spec fn unfolded_choices(rows: Seq<RecordRow>) -> Seq<Option<usize>> {
    Seq::new(
        rows.len(),
        |i: int| ways_from(joined(rows[i].damaged_record@, 5), repeated(rows[i].pattern@, 5), 0, 0, 0),
    )
}

/// Whether every group of every row has a damaged spring.
pub open spec fn all_positive(rows: Seq<RecordRow>) -> bool {
    forall|i: int| 0 <= i < rows.len() ==> positive(#[trigger] rows[i].pattern@)
}

/// Copies of a pattern whose groups have a damaged spring each have one in
/// each group too.
pub proof fn lemma_repeated_positive(pattern: Seq<usize>, n: int)
    requires
        positive(pattern),
    ensures
        positive(repeated(pattern, n)),
    decreases n,
{
    if n > 0 {
        lemma_repeated_positive(pattern, n - 1);
    }
}

/// Counts that agree wherever the first is there have the same sum when the
/// first have one.
pub proof fn lemma_total_agrees(first: Seq<Option<usize>>, second: Seq<Option<usize>>, n: int)
    requires
        0 <= n <= first.len(),
        first.len() == second.len(),
        forall|i: int| 0 <= i < n && first[i] is Some ==> second[i] == #[trigger] first[i],
        total(first, n) is Some,
    ensures
        total(second, n) == total(first, n),
    decreases n,
{
    if n > 0 {
        lemma_total_agrees(first, second, n - 1);
    }
}

/// The sum over all rows of the number of ways in which the row can agree
/// with its pattern.
pub fn part1(puzzle_input: &[RecordRow]) -> (r: Option<usize>)
    ensures
        r == total(tallies(puzzle_input@), puzzle_input@.len() as int),
        all_positive(puzzle_input@) && r is Some ==> r == total(choices(puzzle_input@), puzzle_input@.len() as int),
{
    proof {
        if all_positive(puzzle_input@) && total(tallies(puzzle_input@), puzzle_input@.len() as int) is Some {
            assert forall|i: int| 0 <= i < puzzle_input@.len() && tallies(puzzle_input@)[i] is Some implies choices(
                puzzle_input@,
            )[i] == #[trigger] tallies(puzzle_input@)[i] by {
                lemma_tally_agrees(puzzle_input@[i].damaged_record@, puzzle_input@[i].pattern@);
            }
            lemma_total_agrees(tallies(puzzle_input@), choices(puzzle_input@), puzzle_input@.len() as int);
        }
    }
    let ghost counts = tallies(puzzle_input@);
    let mut sum: usize = 0;
    let mut i: usize = 0;
    while i < puzzle_input.len()
        invariant
            i <= puzzle_input@.len(),
            counts == tallies(puzzle_input@),
            total(counts, i as int) == Some(sum),
        decreases puzzle_input@.len() - i,
    {
        let next = match puzzle_input[i].num_ways() {
            Some(count) => sum.checked_add(count),
            None => None,
        };
        match next {
            Some(v) => {
                sum = v;
            },
            None => {
                proof {
                    lemma_total_prefix(counts, i + 1, counts.len() as int);
                }
                return None;
            },
        }
        i = i + 1;
    }
    Some(sum)
}

/// The number of ways in which the unfolded row can agree with its pattern.
fn unfolded_ways(row: &RecordRow) -> (r: Option<usize>)
    ensures
        r == tally(joined(row.damaged_record@, 5), repeated(row.pattern@, 5)),
{
    row.unfolded().num_ways()
}

/// The sum over all rows of the number of ways in which the unfolded row
/// can agree with its pattern.
pub fn part2(puzzle_input: &[RecordRow]) -> (r: Option<usize>)
    ensures
        r == total(unfolded_tallies(puzzle_input@), puzzle_input@.len() as int),
        all_positive(puzzle_input@) && r is Some ==> r == total(
            unfolded_choices(puzzle_input@),
            puzzle_input@.len() as int,
        ),
{
    proof {
        if all_positive(puzzle_input@) && total(unfolded_tallies(puzzle_input@), puzzle_input@.len() as int) is Some {
            assert forall|i: int|
                0 <= i < puzzle_input@.len() && unfolded_tallies(puzzle_input@)[i] is Some implies unfolded_choices(
                puzzle_input@,
            )[i] == #[trigger] unfolded_tallies(puzzle_input@)[i] by {
                lemma_repeated_positive(puzzle_input@[i].pattern@, 5);
                lemma_tally_agrees(
                    joined(puzzle_input@[i].damaged_record@, 5),
                    repeated(puzzle_input@[i].pattern@, 5),
                );
            }
            lemma_total_agrees(
                unfolded_tallies(puzzle_input@),
                unfolded_choices(puzzle_input@),
                puzzle_input@.len() as int,
            );
        }
    }
    let ghost counts = unfolded_tallies(puzzle_input@);
    let mut sum: usize = 0;
    let mut i: usize = 0;
    while i < puzzle_input.len()
        invariant
            i <= puzzle_input@.len(),
            counts == unfolded_tallies(puzzle_input@),
            total(counts, i as int) == Some(sum),
        decreases puzzle_input@.len() - i,
    {
        let next = match unfolded_ways(&puzzle_input[i]) {
            Some(count) => sum.checked_add(count),
            None => None,
        };
        match next {
            Some(v) => {
                sum = v;
            },
            None => {
                proof {
                    lemma_total_prefix(counts, i + 1, counts.len() as int);
                }
                return None;
            },
        }
        i = i + 1;
    }
    Some(sum)
}

} // verus!
