//! Greatest common divisors and least common multiples.

use vstd::prelude::*;

verus! {

/// The greatest common divisor of `a` and `b`, by Euclid's rule; it is 0 only
/// when both are.
pub open spec fn gcd_of(a: nat, b: nat) -> nat
    decreases b,
{
    if b == 0 {
        a
    } else {
        gcd_of(b, a % b)
    }
}

/// The least common multiple of `a` and `b`: 0 when both are 0, and otherwise
/// `a` times the quotient of `b` by their greatest common divisor.
pub open spec fn lcm_of(a: nat, b: nat) -> nat {
    if a == 0 && b == 0 {
        0
    } else {
        a * (b / gcd_of(a, b))
    }
}

/// `num::integer::gcd` on `usize`: the greatest common divisor of its two
/// arguments.
#[verifier::external_body]
pub(crate) fn gcd(a: usize, b: usize) -> (g: usize)
    ensures
        g == gcd_of(a as nat, b as nat),
{
    num::integer::gcd(a, b)
}

/// The greatest common divisor of two numbers that are not both 0 is not 0.
pub proof fn lemma_gcd_positive(a: nat, b: nat)
    requires
        a > 0 || b > 0,
    ensures
        gcd_of(a, b) > 0,
    decreases b,
{
    if b != 0 {
        lemma_gcd_positive(b, a % b);
    }
}

/// The least common multiple of `a` and `b`, or nothing when it does not fit
/// in `usize`.
pub fn lcm(a: usize, b: usize) -> (r: Option<usize>)
    ensures
        r == (if lcm_of(a as nat, b as nat) <= usize::MAX {
            Some(lcm_of(a as nat, b as nat) as usize)
        } else {
            None
        }),
{
    if a == 0 && b == 0 {
        return Some(0);
    }
    let g = gcd(a, b);
    proof {
        lemma_gcd_positive(a as nat, b as nat);
    }
    a.checked_mul(b / g)
}

/// In a grid of `h` rows of `w` cells, the cells are counted row by row below
/// `h * w`.
pub proof fn lemma_cell_bound(row: int, column: int, h: int, w: int)
    requires
        0 <= row < h,
        0 <= column < w,
    ensures
        0 <= row * w + column < h * w,
{
    assert(row * w + column < h * w) by (nonlinear_arith)
        requires
            0 <= row < h,
            0 <= column < w,
    ;
    assert(0 <= row * w) by (nonlinear_arith)
        requires
            0 <= row,
            0 <= w,
    ;
}

/// More numbers than `bound`, each of them below `bound` and none
/// negative, cannot all differ.
pub proof fn lemma_pigeonhole(s: Seq<int>, bound: int)
    requires
        0 <= bound < s.len(),
        forall|i: int| 0 <= i < s.len() ==> 0 <= #[trigger] s[i] < bound,
    ensures
        exists|a: int, b: int| 0 <= a < b < s.len() && s[a] == s[b],
{
    if s.no_duplicates() {
        s.unique_seq_to_set();
        vstd::set_lib::lemma_int_range(0, bound);
        assert(s.to_set().subset_of(vstd::set_lib::set_int_range(0, bound))) by {
            assert forall|v: int| s.to_set().contains(v) implies vstd::set_lib::set_int_range(0, bound).contains(v) by {
                let i = choose|i: int| 0 <= i < s.len() && s[i] == v;
                assert(0 <= s[i] < bound);
            }
        }
        vstd::set_lib::lemma_len_subset(s.to_set(), vstd::set_lib::set_int_range(0, bound));
    } else {
        let (i, j) = choose|i: int, j: int| 0 <= i < s.len() && 0 <= j < s.len() && i != j && s[i] == s[j];
        if i < j {
            assert(0 <= i < j < s.len() && s[i] == s[j]);
        } else {
            assert(0 <= j < i < s.len() && s[j] == s[i]);
        }
    }
}

} // verus!
