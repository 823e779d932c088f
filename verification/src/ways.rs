//! The counting model: how many ordered rolls of `n` dice reach a total.

use vstd::prelude::*;

verus! {

/// Number of ordered rolls of `n` dice, each showing a face in `1..=sides`,
/// whose faces add up to `x`.
///
/// No dice reach the total zero in exactly one way; otherwise the last die
/// shows some face `i` and the other `n - 1` dice reach `x - i`.
pub open spec fn ways(sides: nat, n: nat, x: int) -> nat
    decreases n, sides + 1,
{
    if n == 0 {
        if x == 0 {
            1
        } else {
            0
        }
    } else {
        ways_upto(sides, n, x, sides)
    }
}

/// The part of `ways(sides, n, x)` in which the last die shows a face in
/// `1..=k`.
pub open spec fn ways_upto(sides: nat, n: nat, x: int, k: nat) -> nat
    decreases n, k,
{
    if n == 0 || k == 0 {
        0
    } else {
        ways_upto(sides, n, x, (k - 1) as nat) + ways(sides, (n - 1) as nat, x - k)
    }
}

/// Number of ordered rolls of `n` dice with `sides` faces: `sides` to the
/// power `n`.
pub open spec fn outcomes(sides: nat, n: nat) -> nat
    decreases n,
{
    if n == 0 {
        1
    } else {
        sides * outcomes(sides, (n - 1) as nat)
    }
}

/// Number of ordered rolls of `n` dice whose total `s` satisfies
/// `lo <= s < hi`.
pub open spec fn total_ways(sides: nat, n: nat, lo: int, hi: int) -> nat
    decreases hi - lo,
{
    if hi <= lo {
        0
    } else {
        total_ways(sides, n, lo, hi - 1) + ways(sides, n, hi - 1)
    }
}

/// The part of `total_ways(sides, n, lo, hi)` in which the last die shows a
/// face in `1..=k`.
pub open spec fn total_upto(sides: nat, n: nat, lo: int, hi: int, k: nat) -> nat
    decreases hi - lo,
{
    if hi <= lo {
        0
    } else {
        total_upto(sides, n, lo, hi - 1, k) + ways_upto(sides, n, hi - 1, k)
    }
}

/// Allowing the last die more faces never loses a roll.
pub proof fn lemma_upto_monotone(sides: nat, n: nat, x: int, j: nat, k: nat)
    requires
        j <= k,
    ensures
        ways_upto(sides, n, x, j) <= ways_upto(sides, n, x, k),
    decreases k,
{
    if j < k && n > 0 {
        lemma_upto_monotone(sides, n, x, j, (k - 1) as nat);
    }
}

/// No total lies below the number of dice: every die shows at least 1.
pub proof fn lemma_ways_below(sides: nat, n: nat, x: int)
    requires
        x < n,
    ensures
        ways(sides, n, x) == 0,
    decreases n, sides + 1,
{
    if n > 0 {
        lemma_upto_below(sides, n, x, sides);
    }
}

proof fn lemma_upto_below(sides: nat, n: nat, x: int, k: nat)
    requires
        n > 0,
        x < n,
    ensures
        ways_upto(sides, n, x, k) == 0,
    decreases n, k,
{
    if k > 0 {
        lemma_upto_below(sides, n, x, (k - 1) as nat);
        lemma_ways_below(sides, (n - 1) as nat, x - k);
    }
}

/// No total lies above `n * sides`: every die shows at most `sides`.
pub proof fn lemma_ways_above(sides: nat, n: nat, x: int)
    requires
        x > n * sides,
    ensures
        ways(sides, n, x) == 0,
    decreases n, sides + 1,
{
    if n > 0 {
        lemma_upto_above(sides, n, x, sides);
    }
}

proof fn lemma_upto_above(sides: nat, n: nat, x: int, k: nat)
    requires
        n > 0,
        k <= sides,
        x > n * sides,
    ensures
        ways_upto(sides, n, x, k) == 0,
    decreases n, k,
{
    if k > 0 {
        lemma_upto_above(sides, n, x, (k - 1) as nat);
        assert((n - 1) * sides == n * sides - sides) by (nonlinear_arith);
        lemma_ways_above(sides, (n - 1) as nat, x - k);
    }
}

/// The lowest total, every die showing 1, is reached in exactly one way.
pub proof fn lemma_ways_all_ones(sides: nat, n: nat)
    requires
        sides >= 1,
    ensures
        ways(sides, n, n as int) == 1,
    decreases n, sides + 1,
{
    if n > 0 {
        lemma_upto_all_ones(sides, n, sides);
    }
}

proof fn lemma_upto_all_ones(sides: nat, n: nat, k: nat)
    requires
        sides >= 1,
        n > 0,
        k >= 1,
    ensures
        ways_upto(sides, n, n as int, k) == 1,
    decreases n, k,
{
    if k == 1 {
        assert(ways_upto(sides, n, n as int, 0) == 0);
        lemma_ways_all_ones(sides, (n - 1) as nat);
    } else {
        lemma_upto_all_ones(sides, n, (k - 1) as nat);
        lemma_ways_below(sides, (n - 1) as nat, n - k);
    }
}

proof fn lemma_upto_holds_face(sides: nat, n: nat, x: int, k: nat, face: nat)
    requires
        n >= 1,
        1 <= face <= k,
    ensures
        ways(sides, (n - 1) as nat, x - face) <= ways_upto(sides, n, x, k),
    decreases k,
{
    if face < k {
        lemma_upto_holds_face(sides, n, x, (k - 1) as nat, face);
    }
}

/// Every total from all ones to all highest faces is reached by some roll.
pub proof fn lemma_ways_positive(sides: nat, n: nat, x: int)
    requires
        n <= x <= n * sides,
    ensures
        ways(sides, n, x) >= 1,
    decreases n,
{
    if n == 0 {
        assert(n * sides == 0) by (nonlinear_arith)
            requires
                n == 0,
        ;
    } else {
        let rest = (n - 1) * sides;
        assert(sides >= 1) by (nonlinear_arith)
            requires
                1 <= n <= n * sides,
        ;
        assert(rest == n * sides - sides && rest >= n - 1) by (nonlinear_arith)
            requires
                rest == (n - 1) * sides,
                n >= 1,
                sides >= 1,
        ;
        let face: nat = if x - 1 <= rest {
            1
        } else {
            (x - rest) as nat
        };
        lemma_ways_positive(sides, (n - 1) as nat, x - face);
        lemma_upto_holds_face(sides, n, x, sides, face);
    }
}

/// A single total is reached by no more rolls than there are.
pub proof fn lemma_ways_le_outcomes(sides: nat, n: nat, x: int)
    ensures
        ways(sides, n, x) <= outcomes(sides, n),
    decreases n, sides + 1,
{
    if n > 0 {
        lemma_upto_le_outcomes(sides, n, x, sides);
    }
}

proof fn lemma_upto_le_outcomes(sides: nat, n: nat, x: int, k: nat)
    requires
        n > 0,
    ensures
        ways_upto(sides, n, x, k) <= k * outcomes(sides, (n - 1) as nat),
    decreases n, k,
{
    let each = outcomes(sides, (n - 1) as nat);
    if k > 0 {
        lemma_upto_le_outcomes(sides, n, x, (k - 1) as nat);
        lemma_ways_le_outcomes(sides, (n - 1) as nat, x - k);
        assert(k * each == (k - 1) * each + each) by (nonlinear_arith);
    } else {
        assert(0 * each == 0);
    }
}

/// With at least one side, more dice never give fewer rolls.
pub proof fn lemma_outcomes_monotone(sides: nat, m: nat, n: nat)
    requires
        sides >= 1,
        m <= n,
    ensures
        1 <= outcomes(sides, m) <= outcomes(sides, n),
    decreases n,
{
    if n == 0 {
    } else if m == n {
        lemma_outcomes_monotone(sides, (m - 1) as nat, (n - 1) as nat);
        let fewer = outcomes(sides, (n - 1) as nat);
        assert(sides * fewer >= fewer) by (nonlinear_arith)
            requires
                sides >= 1,
        ;
    } else {
        lemma_outcomes_monotone(sides, m, (n - 1) as nat);
        let fewer = outcomes(sides, (n - 1) as nat);
        assert(sides * fewer >= fewer) by (nonlinear_arith)
            requires
                sides >= 1,
        ;
    }
}

/// With two sides or more, there are at least as many rolls as the highest
/// total.
pub proof fn lemma_outcomes_ge_highest(sides: nat, n: nat)
    requires
        sides >= 2,
        n >= 1,
    ensures
        outcomes(sides, n) >= sides * n,
    decreases n,
{
    let fewer = outcomes(sides, (n - 1) as nat);
    if n == 1 {
        assert(outcomes(sides, 0) == 1);
        assert(sides * fewer == sides * n) by (nonlinear_arith)
            requires
                fewer == 1,
                n == 1,
        ;
    } else {
        lemma_outcomes_ge_highest(sides, (n - 1) as nat);
        assert(sides * fewer >= sides * n) by (nonlinear_arith)
            requires
                fewer >= sides * (n - 1),
                sides >= 2,
                n >= 2,
        ;
    }
}

/// One die reaches each of its faces in one way, and nothing else.
pub proof fn lemma_single_die(sides: nat, x: int)
    ensures
        ways(sides, 1, x) == if 1 <= x <= sides {
            1nat
        } else {
            0nat
        },
{
    lemma_upto_single_die(sides, x, sides);
}

proof fn lemma_upto_single_die(sides: nat, x: int, k: nat)
    ensures
        ways_upto(sides, 1, x, k) == if 1 <= x <= k {
            1nat
        } else {
            0nat
        },
    decreases k,
{
    if k > 0 {
        lemma_upto_single_die(sides, x, (k - 1) as nat);
        assert(ways(sides, 0, x - k) == if x == k {
            1nat
        } else {
            0nat
        });
    }
}

proof fn lemma_upto_peel_first(sides: nat, n: nat, x: int, k: nat)
    requires
        n >= 1,
        k >= 1,
    ensures
        ways_upto(sides, n, x, k) == ways(sides, (n - 1) as nat, x - 1) + ways_upto(
            sides,
            n,
            x - 1,
            (k - 1) as nat,
        ),
    decreases k,
{
    if k == 1 {
        assert(ways_upto(sides, n, x, 0) == 0);
        assert(ways_upto(sides, n, x - 1, 0) == 0);
    } else {
        lemma_upto_peel_first(sides, n, x, (k - 1) as nat);
    }
}

/// Turning every die upside down, face `i` to `sides + 1 - i`,
/// pairs the rolls with total `x` with those with total
/// `n * (sides + 1) - x`.
pub proof fn lemma_ways_symmetric(sides: nat, n: nat, x: int)
    ensures
        ways(sides, n, x) == ways(sides, n, n * (sides + 1) - x),
    decreases n, sides + 1,
{
    if n > 0 {
        let centre = (n - 1) * (sides + 1);
        lemma_upto_mirrored(sides, n, x, sides);
        assert(centre + sides + 1 == n * (sides + 1)) by (nonlinear_arith)
            requires
                centre == (n - 1) * (sides + 1),
        ;
        assert(centre - x + sides + 1 == n * (sides + 1) - x);
    } else {
        assert(n * (sides + 1) == 0) by (nonlinear_arith)
            requires
                n == 0,
        ;
    }
}

proof fn lemma_upto_mirrored(sides: nat, n: nat, x: int, k: nat)
    requires
        n >= 1,
    ensures
        ways_upto(sides, n, x, k) == ways_upto(
            sides,
            n,
            (n - 1) * (sides + 1) - x + k + 1,
            k,
        ),
    decreases n, k,
{
    if k > 0 {
        let centre = (n - 1) * (sides + 1);
        lemma_upto_mirrored(sides, n, x, (k - 1) as nat);
        lemma_upto_peel_first(sides, n, centre - x + k + 1, k);
        lemma_ways_symmetric(sides, (n - 1) as nat, x - k);
    }
}

/// A window of totals is the sum of its two parts.
pub proof fn lemma_total_split(sides: nat, n: nat, lo: int, mid: int, hi: int)
    requires
        lo <= mid <= hi,
    ensures
        total_ways(sides, n, lo, hi) == total_ways(sides, n, lo, mid) + total_ways(
            sides,
            n,
            mid,
            hi,
        ),
    decreases hi - mid,
{
    if mid < hi {
        lemma_total_split(sides, n, lo, mid, hi - 1);
    }
}

/// A window that ends at or below the lowest total holds no roll.
pub proof fn lemma_total_none_below(sides: nat, n: nat, lo: int, hi: int)
    requires
        hi <= n,
    ensures
        total_ways(sides, n, lo, hi) == 0,
    decreases hi - lo,
{
    if lo < hi {
        lemma_total_none_below(sides, n, lo, hi - 1);
        lemma_ways_below(sides, n, hi - 1);
    }
}

/// A window that starts above the highest total holds no roll.
pub proof fn lemma_total_none_above(sides: nat, n: nat, lo: int, hi: int)
    requires
        lo > n * sides,
    ensures
        total_ways(sides, n, lo, hi) == 0,
    decreases hi - lo,
{
    if lo < hi {
        lemma_total_none_above(sides, n, lo, hi - 1);
        lemma_ways_above(sides, n, hi - 1);
    }
}

proof fn lemma_total_is_upto(sides: nat, n: nat, lo: int, hi: int)
    requires
        n >= 1,
    ensures
        total_ways(sides, n, lo, hi) == total_upto(sides, n, lo, hi, sides),
    decreases hi - lo,
{
    if lo < hi {
        lemma_total_is_upto(sides, n, lo, hi - 1);
    }
}

proof fn lemma_total_upto_step(sides: nat, n: nat, lo: int, hi: int, k: nat)
    requires
        n >= 1,
        k >= 1,
    ensures
        total_upto(sides, n, lo, hi, k) == total_upto(sides, n, lo, hi, (k - 1) as nat)
            + total_ways(sides, (n - 1) as nat, lo - k, hi - k),
    decreases hi - lo,
{
    if lo < hi {
        lemma_total_upto_step(sides, n, lo, hi - 1, k);
    }
}

proof fn lemma_total_upto_none(sides: nat, n: nat, lo: int, hi: int)
    ensures
        total_upto(sides, n, lo, hi, 0) == 0,
    decreases hi - lo,
{
    if lo < hi {
        lemma_total_upto_none(sides, n, lo, hi - 1);
    }
}

proof fn lemma_total_upto_all(sides: nat, n: nat, lo: int, hi: int, k: nat)
    requires
        sides >= 1,
        n >= 1,
        k <= sides,
        lo <= n,
        n * sides < hi,
    ensures
        total_upto(sides, n, lo, hi, k) == k * outcomes(sides, (n - 1) as nat),
    decreases n, k,
{
    let each = outcomes(sides, (n - 1) as nat);
    if k == 0 {
        lemma_total_upto_none(sides, n, lo, hi);
        assert(0 * each == 0);
    } else {
        lemma_total_upto_all(sides, n, lo, hi, (k - 1) as nat);
        lemma_total_upto_step(sides, n, lo, hi, k);
        assert((n - 1) * sides == n * sides - sides) by (nonlinear_arith);
        lemma_total_covering(sides, (n - 1) as nat, lo - k, hi - k);
        assert(k * each == (k - 1) * each + each) by (nonlinear_arith);
    }
}

/// A window that holds every total from `n` to `n * sides`
/// holds every roll, `sides` to the power `n` of them.
pub proof fn lemma_total_covering(sides: nat, n: nat, lo: int, hi: int)
    requires
        sides >= 1,
        lo <= n,
        n * sides < hi,
    ensures
        total_ways(sides, n, lo, hi) == outcomes(sides, n),
    decreases n, sides + 1,
{
    if n == 0 {
        assert(n * sides == 0) by (nonlinear_arith)
            requires
                n == 0,
        ;
        lemma_total_split(sides, n, lo, 0, hi);
        lemma_total_split(sides, n, 0, 1, hi);
        lemma_total_none_below(sides, n, lo, 0);
        lemma_total_none_above(sides, n, 1, hi);
        assert(total_ways(sides, n, 0, 0) == 0);
        assert(total_ways(sides, n, 0, 1) == 1);
    } else {
        lemma_total_is_upto(sides, n, lo, hi);
        lemma_total_upto_all(sides, n, lo, hi, sides);
    }
}

/// No roll is lost or counted twice: the counts of the
/// totals from `n` to `n * sides` add up to `sides` to the power `n`.
pub proof fn lemma_conservation(sides: nat, n: nat)
    requires
        sides >= 1,
    ensures
        total_ways(sides, n, n as int, (n * sides + 1) as int) == outcomes(sides, n),
{
    lemma_total_covering(sides, n, n as int, (n * sides + 1) as int);
}

} // verus!
