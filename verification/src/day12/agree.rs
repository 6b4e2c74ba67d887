//! Why counting from the left agrees with counting by trying both
//! conditions for every unknown spring.

use super::{
    bins_of, ends_damaged, ends_operational, if_damaged, if_operational, known, run_of, sum_of, tally, ways_from,
    DAMAGED, OPERATIONAL, UNKNOWN,
};
use vstd::prelude::*;

verus! {

/// Whether every group of the pattern has a damaged spring.
pub open spec fn positive(pattern: Seq<usize>) -> bool {
    forall|j: int| 0 <= j < pattern.len() ==> #[trigger] pattern[j] >= 1
}

/// The number of damaged springs that the first `m` groups ask for.
pub open spec fn before(pattern: Seq<usize>, m: int) -> int {
    bins_of(pattern, m).len() as int
}

/// A group adds its size to the number of damaged springs.
pub proof fn lemma_before_step(pattern: Seq<usize>, m: int)
    requires
        0 <= m < pattern.len(),
    ensures
        before(pattern, m + 1) == before(pattern, m) + pattern[m],
        before(pattern, 0) == 0,
{
    assert(bins_of(pattern, m + 1) == bins_of(pattern, m) + run_of(m as usize, pattern[m] as nat));
}

/// More groups ask for more damaged springs.
pub proof fn lemma_before_mono(pattern: Seq<usize>, a: int, b: int)
    requires
        positive(pattern),
        0 <= a <= b <= pattern.len(),
    ensures
        before(pattern, a) <= before(pattern, b),
        a < b ==> before(pattern, a) < before(pattern, b),
        before(pattern, a) >= 0,
    decreases b - a,
{
    if a < b {
        lemma_before_mono(pattern, a, b - 1);
        lemma_before_step(pattern, b - 1);
    }
}

/// The bins of the first groups begin the bins of more groups.
pub proof fn lemma_bins_prefix(pattern: Seq<usize>, m: int, more: int, x: int)
    requires
        0 <= m <= more <= pattern.len(),
        0 <= x < before(pattern, m),
    ensures
        x < before(pattern, more),
        bins_of(pattern, more)[x] == bins_of(pattern, m)[x],
    decreases more - m,
{
    if m < more {
        lemma_bins_prefix(pattern, m, more - 1, x);
        assert(bins_of(pattern, more) == bins_of(pattern, more - 1) + run_of(
            (more - 1) as usize,
            pattern[more - 1] as nat,
        ));
    }
}

/// The damaged springs of a group have the number of the group as their
/// bin.
pub proof fn lemma_bins_value(pattern: Seq<usize>, m: int, x: int)
    requires
        0 <= m < pattern.len(),
        pattern.len() <= usize::MAX,
        before(pattern, m) <= x < before(pattern, m + 1),
    ensures
        x < before(pattern, pattern.len() as int),
        bins_of(pattern, pattern.len() as int)[x] == m,
{
    lemma_bins_prefix(pattern, m + 1, pattern.len() as int, x);
    assert(bins_of(pattern, m + 1) == bins_of(pattern, m) + run_of(m as usize, pattern[m] as nat));
}

/// The group of the damaged spring `x` among the first `m` groups.
pub proof fn lemma_bins_group(pattern: Seq<usize>, x: int, m: int) -> (b: int)
    requires
        0 <= m <= pattern.len(),
        pattern.len() <= usize::MAX,
        0 <= x < before(pattern, m),
    ensures
        0 <= b < m,
        before(pattern, b) <= x < before(pattern, b + 1),
        bins_of(pattern, pattern.len() as int)[x] == b,
    decreases m,
{
    lemma_before_step(pattern, m - 1);
    if x >= before(pattern, m - 1) {
        lemma_bins_value(pattern, m - 1, x);
        m - 1
    } else {
        lemma_bins_group(pattern, x, m - 1)
    }
}

/// The bins of the pattern.
pub open spec fn bins(pattern: Seq<usize>) -> Seq<usize> {
    bins_of(pattern, pattern.len() as int)
}

/// Whether a group ends with the `i`-th damaged spring, or no spring is
/// damaged yet.
pub open spec fn at_end(pattern: Seq<usize>, i: int) -> bool {
    i == 0 || i == bins(pattern).len() || bins(pattern)[i] != bins(pattern)[i - 1]
}

/// The next group to begin after `i` damaged springs, the last of which
/// ends a group.
pub open spec fn next_group(pattern: Seq<usize>, i: int) -> int {
    if i == 0 {
        0
    } else {
        bins(pattern)[i - 1] + 1
    }
}

/// The `i`-th damaged spring is in a group that it ends or not.
pub proof fn lemma_damaged_state(pattern: Seq<usize>, i: int)
    requires
        positive(pattern),
        pattern.len() <= usize::MAX,
        1 <= i <= bins(pattern).len(),
    ensures
        0 <= bins(pattern)[i - 1] < pattern.len(),
        1 <= i - before(pattern, bins(pattern)[i - 1] as int) <= pattern[bins(pattern)[i - 1] as int],
        i - before(pattern, bins(pattern)[i - 1] as int) == pattern[bins(pattern)[i - 1] as int] <==> at_end(
            pattern,
            i,
        ),
        i < bins(pattern).len() && !at_end(pattern, i) ==> bins(pattern)[i] == bins(pattern)[i - 1],
{
    let n = bins(pattern).len() as int;
    let len = pattern.len() as int;
    let b = lemma_bins_group(pattern, i - 1, len);
    lemma_before_step(pattern, b);
    if i < n {
        let c = lemma_bins_group(pattern, i, len);
        if c < b {
            lemma_before_mono(pattern, c + 1, b);
        }
        if b < c {
            lemma_before_mono(pattern, b + 1, c);
        }
    } else {
        lemma_before_mono(pattern, b + 1, len);
    }
}

/// After `i` damaged springs of which the last ends a group, the next
/// group begins, if there is one.
pub proof fn lemma_operational_state(pattern: Seq<usize>, i: int)
    requires
        positive(pattern),
        pattern.len() <= usize::MAX,
        0 <= i <= bins(pattern).len(),
        at_end(pattern, i),
    ensures
        0 <= next_group(pattern, i) <= pattern.len(),
        before(pattern, next_group(pattern, i)) == i,
        next_group(pattern, i) < pattern.len() <==> i < bins(pattern).len(),
        i < bins(pattern).len() ==> bins(pattern)[i] == next_group(pattern, i) && pattern[next_group(pattern, i)] >= 1,
{
    let n = bins(pattern).len() as int;
    let len = pattern.len() as int;
    if i == 0 {
        if len > 0 {
            lemma_before_step(pattern, 0);
            lemma_before_mono(pattern, 1, len);
            lemma_bins_value(pattern, 0, 0);
        }
    } else {
        lemma_damaged_state(pattern, i);
        let b = bins(pattern)[i - 1] as int;
        lemma_before_step(pattern, b);
        if b + 1 < len {
            lemma_before_step(pattern, b + 1);
            lemma_before_mono(pattern, b + 2, len);
            lemma_bins_value(pattern, b + 1, i);
        } else {
        }
    }
}

/// The number of ways to choose a condition for each unknown spring from
/// `record_index` on so that the row agrees with the groups from
/// `pattern_index` on, when the spring before is the last of `prev_damaged`
/// damaged springs in a row; 0 from a byte on that is none of `#`, `.` and
/// `?`.
pub open spec fn ways(record: Seq<u8>, pattern: Seq<usize>, record_index: int, pattern_index: int, prev_damaged: int) -> int
    decreases record.len() - record_index,
{
    if record_index >= record.len() {
        if pattern_index == pattern.len() {
            if prev_damaged == 0 {
                1
            } else {
                0
            }
        } else if pattern_index + 1 == pattern.len() && 0 <= pattern_index && pattern[pattern_index] == prev_damaged {
            1
        } else {
            0
        }
    } else {
        let c = record[record_index];
        let damaged = if pattern_index < 0 || pattern_index >= pattern.len() || prev_damaged + 1
            > pattern[pattern_index] {
            0
        } else {
            ways(record, pattern, record_index + 1, pattern_index, prev_damaged + 1)
        };
        let operational = if prev_damaged == 0 {
            ways(record, pattern, record_index + 1, pattern_index, 0)
        } else if pattern_index < 0 || pattern_index >= pattern.len() || pattern[pattern_index] != prev_damaged {
            0
        } else {
            ways(record, pattern, record_index + 1, pattern_index + 1, 0)
        };
        if c == DAMAGED {
            damaged
        } else if c == OPERATIONAL {
            operational
        } else if c == UNKNOWN {
            damaged + operational
        } else {
            0
        }
    }
}

/// There are no fewer ways than none.
pub proof fn lemma_ways_least(record: Seq<u8>, pattern: Seq<usize>, record_index: int, pattern_index: int, prev_damaged: int)
    ensures
        ways(record, pattern, record_index, pattern_index, prev_damaged) >= 0,
    decreases record.len() - record_index,
{
    if record_index < record.len() {
        lemma_ways_least(record, pattern, record_index + 1, pattern_index, prev_damaged + 1);
        lemma_ways_least(record, pattern, record_index + 1, pattern_index, 0);
        lemma_ways_least(record, pattern, record_index + 1, pattern_index + 1, 0);
    }
}

/// No ways end with an operational spring after damaged springs that end no
/// group; and there are no fewer ways than none.
pub proof fn lemma_mid_group(record: Seq<u8>, pattern: Seq<usize>, k: int, i: int)
    requires
        0 <= k <= record.len(),
        0 <= i <= bins(pattern).len(),
    ensures
        !at_end(pattern, i) ==> ends_operational(record, bins(pattern), k, i) == 0,
        ends_operational(record, bins(pattern), k, i) >= 0,
        ends_damaged(record, bins(pattern), k, i) >= 0,
    decreases k,
{
    if k > 0 {
        lemma_mid_group(record, pattern, k - 1, i);
        if i >= 1 {
            lemma_mid_group(record, pattern, k - 1, i - 1);
        }
    }
}

/// The number of ways to go on from the spring `k` after `i` damaged
/// springs, the last of them the spring before.
pub open spec fn left_damaged(record: Seq<u8>, pattern: Seq<usize>, k: int, i: int) -> int {
    ways(
        record,
        pattern,
        k,
        bins(pattern)[i - 1] as int,
        i - before(pattern, bins(pattern)[i - 1] as int),
    )
}

/// The number of ways to go on from the spring `k` after `i` damaged
/// springs in whole groups.
pub open spec fn left_operational(record: Seq<u8>, pattern: Seq<usize>, k: int, i: int) -> int {
    ways(record, pattern, k, next_group(pattern, i), 0)
}

/// The number of ways to settle the whole row that have `i` damaged springs
/// among the first `k`.
pub open spec fn through(record: Seq<u8>, pattern: Seq<usize>, k: int, i: int) -> int {
    (if i >= 1 {
        ends_damaged(record, bins(pattern), k, i) * left_damaged(record, pattern, k, i)
    } else {
        0
    }) + (if at_end(pattern, i) {
        ends_operational(record, bins(pattern), k, i) * left_operational(record, pattern, k, i)
    } else {
        0
    })
}

/// Of the ways counted by `through`, those in which the spring `k` is
/// damaged.
pub open spec fn through_damaged(record: Seq<u8>, pattern: Seq<usize>, k: int, i: int) -> int {
    if 0 <= i < bins(pattern).len() && (record[k] == DAMAGED || record[k] == UNKNOWN) {
        (ends_operational(record, bins(pattern), k, i) + (if i >= 1 && !at_end(pattern, i) {
            ends_damaged(record, bins(pattern), k, i)
        } else {
            0
        })) * left_damaged(record, pattern, k + 1, i + 1)
    } else {
        0
    }
}

/// Of the ways counted by `through`, those in which the spring `k` is
/// operational.
pub open spec fn through_operational(record: Seq<u8>, pattern: Seq<usize>, k: int, i: int) -> int {
    if (record[k] == OPERATIONAL || record[k] == UNKNOWN) && at_end(pattern, i) {
        (ends_operational(record, bins(pattern), k, i) + (if i >= 1 {
            ends_damaged(record, bins(pattern), k, i)
        } else {
            0
        })) * left_operational(record, pattern, k + 1, i)
    } else {
        0
    }
}

/// The ways through `i` damaged springs among the first `k` part by the
/// condition of the spring `k`.
pub proof fn lemma_through_now(record: Seq<u8>, pattern: Seq<usize>, k: int, i: int)
    requires
        positive(pattern),
        pattern.len() <= usize::MAX,
        0 <= k < record.len(),
        record[k] == DAMAGED || record[k] == OPERATIONAL || record[k] == UNKNOWN,
        0 <= i <= bins(pattern).len(),
    ensures
        through(record, pattern, k, i) == through_damaged(record, pattern, k, i) + through_operational(
            record,
            pattern,
            k,
            i,
        ),
{
    let n = bins(pattern).len() as int;
    let d = ends_damaged(record, bins(pattern), k, i);
    let o = ends_operational(record, bins(pattern), k, i);
    lemma_mid_group(record, pattern, k, i);
    if i >= 1 {
        lemma_damaged_state(pattern, i);
    }
    if at_end(pattern, i) {
        lemma_operational_state(pattern, i);
    }
    let next_d = if i < n {
        left_damaged(record, pattern, k + 1, i + 1)
    } else {
        0
    };
    let next_o = left_operational(record, pattern, k + 1, i);
    if i < n {
        lemma_damaged_state(pattern, i + 1);
        if at_end(pattern, i) {
            assert(left_damaged(record, pattern, k + 1, i + 1) == ways(record, pattern, k + 1, next_group(pattern, i), 1));
        } else {
            assert(bins(pattern)[i] == bins(pattern)[i - 1]);
        }
    }
    if record[k] == DAMAGED {
        if i >= 1 {
            assert(left_damaged(record, pattern, k, i) == (if !at_end(pattern, i) {
                next_d
            } else {
                0
            }));
        }
        if at_end(pattern, i) {
            assert(left_operational(record, pattern, k, i) == next_d);
        }
        assert(through(record, pattern, k, i) == through_damaged(record, pattern, k, i)) by (nonlinear_arith)
            requires
                through(record, pattern, k, i) == (if i >= 1 {
                    d * (if !at_end(pattern, i) {
                        next_d
                    } else {
                        0
                    })
                } else {
                    0
                }) + (if at_end(pattern, i) {
                    o * next_d
                } else {
                    0
                }),
                through_damaged(record, pattern, k, i) == (if i < n {
                    (o + (if i >= 1 && !at_end(pattern, i) {
                        d
                    } else {
                        0
                    })) * next_d
                } else {
                    0
                }),
                !at_end(pattern, i) ==> o == 0,
                i >= n ==> next_d == 0,
        ;
    } else if record[k] == OPERATIONAL {
        if i >= 1 {
            assert(left_damaged(record, pattern, k, i) == (if at_end(pattern, i) {
                next_o
            } else {
                0
            }));
        }
        if at_end(pattern, i) {
            assert(left_operational(record, pattern, k, i) == next_o);
        }
        assert(through(record, pattern, k, i) == through_operational(record, pattern, k, i)) by (nonlinear_arith)
            requires
                through(record, pattern, k, i) == (if i >= 1 {
                    d * (if at_end(pattern, i) {
                        next_o
                    } else {
                        0
                    })
                } else {
                    0
                }) + (if at_end(pattern, i) {
                    o * next_o
                } else {
                    0
                }),
                through_operational(record, pattern, k, i) == (if at_end(pattern, i) {
                    (o + (if i >= 1 {
                        d
                    } else {
                        0
                    })) * next_o
                } else {
                    0
                }),
        ;
    } else {
        if i >= 1 {
            assert(left_damaged(record, pattern, k, i) == (if !at_end(pattern, i) {
                next_d
            } else {
                next_o
            }));
        }
        if at_end(pattern, i) {
            assert(left_operational(record, pattern, k, i) == next_d + next_o);
        }
        assert(through(record, pattern, k, i) == through_damaged(record, pattern, k, i) + through_operational(
            record,
            pattern,
            k,
            i,
        )) by (nonlinear_arith)
            requires
                through(record, pattern, k, i) == (if i >= 1 {
                    d * (if !at_end(pattern, i) {
                        next_d
                    } else {
                        next_o
                    })
                } else {
                    0
                }) + (if at_end(pattern, i) {
                    o * (next_d + next_o)
                } else {
                    0
                }),
                through_damaged(record, pattern, k, i) == (if i < n {
                    (o + (if i >= 1 && !at_end(pattern, i) {
                        d
                    } else {
                        0
                    })) * next_d
                } else {
                    0
                }),
                through_operational(record, pattern, k, i) == (if at_end(pattern, i) {
                    (o + (if i >= 1 {
                        d
                    } else {
                        0
                    })) * next_o
                } else {
                    0
                }),
                !at_end(pattern, i) ==> o == 0,
                i >= n ==> next_d == 0,
        ;
    }
}

/// The ways through `j` damaged springs among the first `k + 1` are those
/// through one fewer among the first `k` with the spring `k` damaged, and
/// those through as many with the spring `k` operational.
pub proof fn lemma_through_next(record: Seq<u8>, pattern: Seq<usize>, k: int, j: int)
    requires
        0 <= k < record.len(),
        record[k] == DAMAGED || record[k] == OPERATIONAL || record[k] == UNKNOWN,
        0 <= j <= bins(pattern).len(),
    ensures
        through(record, pattern, k + 1, j) == through_damaged(record, pattern, k, j - 1) + through_operational(
            record,
            pattern,
            k,
            j,
        ),
{
    let d_next = ends_damaged(record, bins(pattern), k + 1, j);
    let o_next = ends_operational(record, bins(pattern), k + 1, j);
    assert(k + 1 - 1 == k);
    if j >= 1 {
        assert(j - 1 >= 1 && !at_end(pattern, j - 1) <==> j >= 2 && bins(pattern)[j - 1] == bins(pattern)[j - 2]);
    }
}

/// The number of ways to settle the whole row that have fewer than `m`
/// damaged springs among the first `k`.
pub open spec fn sum_through(record: Seq<u8>, pattern: Seq<usize>, k: int, m: int) -> int
    decreases m,
{
    if m <= 0 {
        0
    } else {
        sum_through(record, pattern, k, m - 1) + through(record, pattern, k, m - 1)
    }
}

/// Looking at one more spring changes the sum only by the ways that pass
/// on to more damaged springs than are summed.
pub proof fn lemma_shift(record: Seq<u8>, pattern: Seq<usize>, k: int, m: int)
    requires
        positive(pattern),
        pattern.len() <= usize::MAX,
        0 <= k < record.len(),
        record[k] == DAMAGED || record[k] == OPERATIONAL || record[k] == UNKNOWN,
        0 <= m <= bins(pattern).len() + 1,
    ensures
        sum_through(record, pattern, k, m) == sum_through(record, pattern, k + 1, m) + (if m >= 1 {
            through_damaged(record, pattern, k, m - 1)
        } else {
            0
        }),
    decreases m,
{
    if m > 0 {
        lemma_shift(record, pattern, k, m - 1);
        lemma_through_now(record, pattern, k, m - 1);
        lemma_through_next(record, pattern, k, m - 1);
    }
}

/// The sum over all numbers of damaged springs is one and the same for
/// every number of springs looked at.
pub proof fn lemma_chain(record: Seq<u8>, pattern: Seq<usize>, k: int)
    requires
        positive(pattern),
        pattern.len() <= usize::MAX,
        known(record),
        0 <= k <= record.len(),
    ensures
        sum_through(record, pattern, 0, (bins(pattern).len() + 1) as int) == sum_through(
            record,
            pattern,
            k,
            (bins(pattern).len() + 1) as int,
        ),
    decreases k,
{
    if k > 0 {
        lemma_chain(record, pattern, k - 1);
        assert(record[k - 1] == DAMAGED || record[k - 1] == OPERATIONAL || record[k - 1] == UNKNOWN);
        lemma_shift(record, pattern, k - 1, (bins(pattern).len() + 1) as int);
    }
}

/// Before any spring is looked at, all ways are through no damaged spring.
pub proof fn lemma_sum_start(record: Seq<u8>, pattern: Seq<usize>, m: int)
    requires
        0 <= m <= bins(pattern).len() + 1,
    ensures
        sum_through(record, pattern, 0, m) == (if m >= 1 {
            ways(record, pattern, 0, 0, 0)
        } else {
            0
        }),
    decreases m,
{
    if m > 0 {
        lemma_sum_start(record, pattern, m - 1);
        let i = m - 1;
        assert(ends_damaged(record, bins(pattern), 0, i) == 0);
        assert(ends_operational(record, bins(pattern), 0, i) == (if i == 0 {
            1int
        } else {
            0int
        }));
        assert(through(record, pattern, 0, i) == (if i == 0 {
            ways(record, pattern, 0, 0, 0)
        } else {
            0
        })) by (nonlinear_arith)
            requires
                through(record, pattern, 0, i) == (if i >= 1 {
                    ends_damaged(record, bins(pattern), 0, i) * left_damaged(record, pattern, 0, i)
                } else {
                    0
                }) + (if at_end(pattern, i) {
                    ends_operational(record, bins(pattern), 0, i) * left_operational(record, pattern, 0, i)
                } else {
                    0
                }),
                ends_damaged(record, bins(pattern), 0, i) == 0,
                ends_operational(record, bins(pattern), 0, i) == (if i == 0 {
                    1int
                } else {
                    0int
                }),
                i == 0 ==> at_end(pattern, i) && left_operational(record, pattern, 0, i) == ways(
                    record,
                    pattern,
                    0,
                    0,
                    0,
                ),
        ;
    }
}

/// Once all springs are looked at, the ways are those through all the
/// damaged springs that the pattern asks for.
pub proof fn lemma_sum_end(record: Seq<u8>, pattern: Seq<usize>, m: int)
    requires
        positive(pattern),
        pattern.len() <= usize::MAX,
        0 <= m <= bins(pattern).len() + 1,
    ensures
        sum_through(record, pattern, record.len() as int, m) == (if m == bins(pattern).len() + 1 {
            ends_damaged(record, bins(pattern), record.len() as int, bins(pattern).len() as int) + ends_operational(
                record,
                bins(pattern),
                record.len() as int,
                bins(pattern).len() as int,
            )
        } else {
            0
        }),
    decreases m,
{
    let n = bins(pattern).len() as int;
    let whole = record.len() as int;
    if m > 0 {
        lemma_sum_end(record, pattern, m - 1);
        let i = m - 1;
        let d = ends_damaged(record, bins(pattern), whole, i);
        let o = ends_operational(record, bins(pattern), whole, i);
        if i >= 1 {
            lemma_damaged_state(pattern, i);
        }
        if at_end(pattern, i) {
            lemma_operational_state(pattern, i);
        }
        let ld = if i >= 1 {
            left_damaged(record, pattern, whole, i)
        } else {
            0
        };
        let lo = if at_end(pattern, i) {
            left_operational(record, pattern, whole, i)
        } else {
            0
        };
        assert(i >= 1 ==> ld == (if i == n {
            1int
        } else {
            0int
        }));
        assert(at_end(pattern, i) ==> lo == (if i == n {
            1int
        } else {
            0int
        }));
        assert(i == n ==> at_end(pattern, i));
        assert(i == 0 ==> d == 0);
        assert(d * 1 == d && o * 1 == o && d * 0 == 0 && o * 0 == 0) by (nonlinear_arith);
        if i == n {
            assert(through(record, pattern, whole, i) == d + o);
        } else {
            assert(through(record, pattern, whole, i) == 0);
        }
    }
}

/// A number of ways that fits in `usize` is what trying both conditions
/// for every unknown spring gives, in a row of known springs.
pub proof fn lemma_ways_from(record: Seq<u8>, pattern: Seq<usize>, record_index: int, pattern_index: int, prev_damaged: int)
    requires
        known(record),
        0 <= record_index,
        ways(record, pattern, record_index, pattern_index, prev_damaged) <= usize::MAX,
    ensures
        ways_from(record, pattern, record_index, pattern_index, prev_damaged) == Some(
            ways(record, pattern, record_index, pattern_index, prev_damaged) as usize,
        ),
    decreases record.len() - record_index,
{
    if record_index < record.len() {
        let c = record[record_index];
        assert(c == DAMAGED || c == OPERATIONAL || c == UNKNOWN);
        lemma_ways_least(record, pattern, record_index + 1, pattern_index, prev_damaged + 1);
        lemma_ways_least(record, pattern, record_index + 1, pattern_index, 0);
        lemma_ways_least(record, pattern, record_index + 1, pattern_index + 1, 0);
        let try_damaged = !(pattern_index < 0 || pattern_index >= pattern.len() || prev_damaged + 1
            > pattern[pattern_index]);
        let try_whole = prev_damaged != 0 && !(pattern_index < 0 || pattern_index >= pattern.len()
            || pattern[pattern_index] != prev_damaged);
        if c != OPERATIONAL && try_damaged {
            lemma_ways_from(record, pattern, record_index + 1, pattern_index, prev_damaged + 1);
        }
        if c != DAMAGED && prev_damaged == 0 {
            lemma_ways_from(record, pattern, record_index + 1, pattern_index, 0);
        }
        if c != DAMAGED && try_whole {
            lemma_ways_from(record, pattern, record_index + 1, pattern_index + 1, 0);
        }
    }
}

/// A pattern of groups with a damaged spring each has no more groups than
/// it asks for damaged springs.
pub proof fn lemma_before_least(pattern: Seq<usize>, m: int)
    requires
        positive(pattern),
        0 <= m <= pattern.len(),
    ensures
        before(pattern, m) >= m,
    decreases m,
{
    if m > 0 {
        lemma_before_least(pattern, m - 1);
        lemma_before_step(pattern, m - 1);
    }
}

/// For a pattern of groups with a damaged spring each, counting spring by
/// spring from the left agrees with trying both conditions for every
/// unknown spring.
pub proof fn lemma_tally_agrees(record: Seq<u8>, pattern: Seq<usize>)
    requires
        positive(pattern),
    ensures
        tally(record, pattern) matches Some(count) ==> ways_from(record, pattern, 0, 0, 0) == Some(count),
{
    reveal(tally);
    if tally(record, pattern) is Some {
        lemma_before_least(pattern, pattern.len() as int);
        lemma_chain(record, pattern, record.len() as int);
        lemma_sum_start(record, pattern, (bins(pattern).len() + 1) as int);
        lemma_sum_end(record, pattern, (bins(pattern).len() + 1) as int);
        lemma_ways_from(record, pattern, 0, 0, 0);
    }
}

} // verus!
