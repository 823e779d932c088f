//! The chance that one group of dice out-rolls another, as an exact
//! fraction of the pairs of rolls.

use crate::dice::Player;
use crate::ways::{
    lemma_total_covering, lemma_total_split, lemma_ways_le_outcomes, outcomes, total_ways, ways,
};
use std::collections::BTreeMap;
use vstd::prelude::*;

verus! {

/// A chance as a fraction: `favourable` of `possible` equally likely pairs
/// of rolls.
#[derive(Clone, Copy, Debug, PartialEq, Eq, Structural)]
pub struct Odds {
    pub favourable: u64,
    pub possible: u64,
}

/// Number of rolls of `count` dice that are counted as beating the total
/// `v`: all of them where `v` is at most the lowest total, none where `v` is
/// at least the highest, and otherwise those with a total above `v`.
pub open spec fn beating_rolls(sides: nat, count: nat, v: int) -> nat {
    if v <= count {
        outcomes(sides, count)
    } else if v >= sides * count {
        0
    } else {
        total_ways(sides, count, v + 1, (sides * count + 1) as int)
    }
}

/// Number of pairs of rolls counted as a win of the first group, among
/// those in which the second group's total `v` satisfies `lo <= v < hi`.
pub open spec fn winning_pairs(
    a_sides: nat,
    a_count: nat,
    b_sides: nat,
    b_count: nat,
    lo: int,
    hi: int,
) -> nat
    decreases hi - lo,
{
    if hi <= lo {
        0
    } else {
        winning_pairs(a_sides, a_count, b_sides, b_count, lo, hi - 1) + ways(
            b_sides,
            b_count,
            hi - 1,
        ) * beating_rolls(a_sides, a_count, hi - 1)
    }
}

/// The count `beating_rolls` is the number of rolls with a total above `v`,
/// but for one case: where `v` is the lowest total, it also counts the roll
/// of all ones, which only ties.
pub proof fn lemma_beating_rolls_exact(sides: nat, count: nat, v: int)
    requires
        sides >= 1,
    ensures
        beating_rolls(sides, count, v) == total_ways(sides, count, v + 1, (sides * count + 1) as int) + (if v
            == count {
            1nat
        } else {
            0nat
        }),
{
    let top = (sides * count) as int;
    assert(count * sides == top && count <= top) by (nonlinear_arith)
        requires
            sides >= 1,
            top == sides * count,
    ;
    if v < count {
        lemma_total_covering(sides, count, v + 1, top + 1);
    } else if v == count {
        lemma_total_covering(sides, count, v, top + 1);
        lemma_total_split(sides, count, v, v + 1, top + 1);
        crate::ways::lemma_ways_all_ones(sides, count);
        assert(total_ways(sides, count, v, v) == 0);
        assert(total_ways(sides, count, v, v + 1) == 1);
    }
}

/// Number of pairs of rolls in which the first group's total is above the
/// second's, among those in which the second group's total `v` satisfies
/// `lo <= v < hi`.
pub open spec fn higher_pairs(
    a_sides: nat,
    a_count: nat,
    b_sides: nat,
    b_count: nat,
    lo: int,
    hi: int,
) -> nat
    decreases hi - lo,
{
    if hi <= lo {
        0
    } else {
        higher_pairs(a_sides, a_count, b_sides, b_count, lo, hi - 1) + ways(
            b_sides,
            b_count,
            hi - 1,
        ) * total_ways(a_sides, a_count, hi, (a_sides * a_count + 1) as int)
    }
}

/// The pairs counted as wins are the pairs in which the first group's total
/// is higher, and besides them the pairs in which the second group rolls
/// the first group's lowest total and the first group rolls all ones.
pub proof fn lemma_winning_pairs_exact(
    a_sides: nat,
    a_count: nat,
    b_sides: nat,
    b_count: nat,
    lo: int,
    hi: int,
)
    requires
        a_sides >= 1,
    ensures
        winning_pairs(a_sides, a_count, b_sides, b_count, lo, hi) == higher_pairs(
            a_sides,
            a_count,
            b_sides,
            b_count,
            lo,
            hi,
        ) + (if lo <= a_count < hi {
            ways(b_sides, b_count, a_count as int)
        } else {
            0nat
        }),
    decreases hi - lo,
{
    if lo < hi {
        lemma_winning_pairs_exact(a_sides, a_count, b_sides, b_count, lo, hi - 1);
        lemma_beating_rolls_exact(a_sides, a_count, hi - 1);
        let here = ways(b_sides, b_count, hi - 1);
        let above = total_ways(a_sides, a_count, hi, (a_sides * a_count + 1) as int);
        if hi - 1 == a_count {
            assert(here * (above + 1) == here * above + here) by (nonlinear_arith);
        }
    }
}

proof fn lemma_winning_pairs_low(
    a_sides: nat,
    a_count: nat,
    b_sides: nat,
    b_count: nat,
    lo: int,
    hi: int,
)
    requires
        hi <= a_count + 1,
    ensures
        winning_pairs(a_sides, a_count, b_sides, b_count, lo, hi) == total_ways(
            b_sides,
            b_count,
            lo,
            hi,
        ) * outcomes(a_sides, a_count),
    decreases hi - lo,
{
    let all = outcomes(a_sides, a_count);
    if lo < hi {
        lemma_winning_pairs_low(a_sides, a_count, b_sides, b_count, lo, hi - 1);
        let seen = total_ways(b_sides, b_count, lo, hi - 1);
        let here = ways(b_sides, b_count, hi - 1);
        assert((seen + here) * all == seen * all + here * all) by (nonlinear_arith);
    } else {
        assert(0 * all == 0);
    }
}

proof fn lemma_winning_pairs_high(
    a_sides: nat,
    a_count: nat,
    b_sides: nat,
    b_count: nat,
    lo: int,
    hi: int,
)
    requires
        lo > a_count,
        lo >= a_sides * a_count,
    ensures
        winning_pairs(a_sides, a_count, b_sides, b_count, lo, hi) == 0,
    decreases hi - lo,
{
    if lo < hi {
        lemma_winning_pairs_high(a_sides, a_count, b_sides, b_count, lo, hi - 1);
        assert(ways(b_sides, b_count, hi - 1) * 0 == 0);
    }
}

/// Where the second group's highest total is at most the first group's
/// number of dice, every pair of rolls is counted as a win of the first.
pub proof fn lemma_certain_win(a_sides: nat, a_count: nat, b_sides: nat, b_count: nat)
    requires
        b_sides >= 1,
        b_sides * b_count <= a_count,
    ensures
        winning_pairs(
            a_sides,
            a_count,
            b_sides,
            b_count,
            b_count as int,
            (b_sides * b_count + 1) as int,
        ) == outcomes(a_sides, a_count) * outcomes(b_sides, b_count),
{
    let top = (b_sides * b_count) as int;
    assert(b_count * b_sides == top && b_count <= top) by (nonlinear_arith)
        requires
            b_sides >= 1,
            top == b_sides * b_count,
    ;
    lemma_winning_pairs_low(a_sides, a_count, b_sides, b_count, b_count as int, top + 1);
    lemma_total_covering(b_sides, b_count, b_count as int, top + 1);
    assert(outcomes(b_sides, b_count) * outcomes(a_sides, a_count) == outcomes(a_sides, a_count)
        * outcomes(b_sides, b_count)) by (nonlinear_arith);
}

/// Where the second group's lowest total is above the first group's number
/// of dice and at least its highest total, no pair of rolls is counted as a
/// win of the first.
pub proof fn lemma_certain_loss(a_sides: nat, a_count: nat, b_sides: nat, b_count: nat)
    requires
        b_count > a_count,
        b_count >= a_sides * a_count,
    ensures
        winning_pairs(
            a_sides,
            a_count,
            b_sides,
            b_count,
            b_count as int,
            (b_sides * b_count + 1) as int,
        ) == 0,
{
    lemma_winning_pairs_high(
        a_sides,
        a_count,
        b_sides,
        b_count,
        b_count as int,
        (b_sides * b_count + 1) as int,
    );
}

/// No total is beaten by more rolls than there are.
pub proof fn lemma_beating_rolls_bound(sides: nat, count: nat, v: int)
    requires
        sides >= 1,
    ensures
        beating_rolls(sides, count, v) <= outcomes(sides, count),
{
    let top = (sides * count) as int;
    assert(count * sides == top) by (nonlinear_arith)
        requires
            top == sides * count,
    ;
    if count < v < top {
        lemma_total_covering(sides, count, count as int, top + 1);
        lemma_total_split(sides, count, count as int, v + 1, top + 1);
    }
}

/// Number of rolls of `a` with a total above `roll`, for a `roll` strictly
/// between the lowest and the highest total of `a`.
pub fn ways_above(a: &Player, a_sums: &BTreeMap<u32, u32>, roll: u32) -> (sum: u32)
    requires
        a.wf(),
        a.in_range(),
        a_sums@ == a.distribution(),
        a.dice_count < roll < a.dice_type.sides * a.dice_count,
    ensures
        sum == total_ways(
            a.dice_type.sides as nat,
            a.dice_count as nat,
            roll + 1,
            a.dice_type.sides * a.dice_count + 1,
        ),
{
    broadcast use vstd::std_specs::btree::group_btree_axioms;

    let ghost sides = a.dice_type.sides as nat;
    let ghost count = a.dice_count as nat;
    proof {
        a.lemma_highest_total_fits();
    }
    let max: u32 = a.dice_type.sides * a.dice_count;
    proof {
        assert(count * sides == max) by (nonlinear_arith)
            requires
                max == sides * count,
        ;
        lemma_total_covering(sides, count, count as int, max + 1);
        lemma_total_split(sides, count, count as int, roll + 1, max + 1);
    }
    let mut sum: u32 = 0;
    let mut u: u64 = roll as u64 + 1;
    while u <= max as u64
        invariant
            a_sums@ == a.distribution(),
            sides == a.dice_type.sides,
            count == a.dice_count,
            max == sides * count,
            count < roll + 1 <= u <= max + 1,
            sum == total_ways(sides, count, roll + 1, u as int),
            total_ways(sides, count, roll + 1, max + 1) <= u32::MAX,
            outcomes(sides, count) <= u32::MAX,
        decreases max + 1 - u,
    {
        proof {
            lemma_total_split(sides, count, roll + 1, u + 1, max + 1);
            lemma_ways_le_outcomes(sides, count, u as int);
            assert(a_sums@.contains_key(u as u32));
        }
        let key: u32 = u as u32;
        let w = a_sums.get(&key).unwrap();
        sum = sum + *w;
        u += 1;
    }
    sum
}

/// Number of rolls of `a`, out of `a_poss`, that are counted as beating the
/// total `roll`.
pub fn ways_to_beat(a: &Player, a_sums: &BTreeMap<u32, u32>, a_poss: u32, roll: u32) -> (wins: u32)
    requires
        a.wf(),
        a.in_range(),
        a_sums@ == a.distribution(),
        a_poss == outcomes(a.dice_type.sides as nat, a.dice_count as nat),
    ensures
        wins == beating_rolls(a.dice_type.sides as nat, a.dice_count as nat, roll as int),
        roll <= a.dice_count ==> wins == a_poss,
        roll > a.dice_count && roll >= a.dice_type.sides * a.dice_count ==> wins == 0,
{
    proof {
        a.lemma_highest_total_fits();
    }
    if roll <= a.dice_count {
        a_poss
    } else if roll >= a.dice_type.sides * a.dice_count {
        0
    } else {
        ways_above(a, a_sums, roll)
    }
}

/// The chance that `a` out-rolls `b` when both roll all their dice once.
pub fn a_beats_b(a: Player, b: Player) -> (odds: Odds)
    requires
        a.wf(),
        a.in_range(),
        b.wf(),
        b.in_range(),
    ensures
        odds.favourable == winning_pairs(
            a.dice_type.sides as nat,
            a.dice_count as nat,
            b.dice_type.sides as nat,
            b.dice_count as nat,
            b.dice_count as int,
            b.dice_type.sides * b.dice_count + 1,
        ),
        odds.possible == outcomes(a.dice_type.sides as nat, a.dice_count as nat) * outcomes(
            b.dice_type.sides as nat,
            b.dice_count as nat,
        ),
        odds.favourable <= odds.possible,
        b.dice_type.sides * b.dice_count <= a.dice_count ==> odds.favourable == odds.possible,
        b.dice_count > a.dice_count && b.dice_count >= a.dice_type.sides * a.dice_count
            ==> odds.favourable == 0,
{
    broadcast use vstd::std_specs::btree::group_btree_axioms;

    let ghost a_sides = a.dice_type.sides as nat;
    let ghost a_count = a.dice_count as nat;
    let ghost b_sides = b.dice_type.sides as nat;
    let ghost b_count = b.dice_count as nat;
    let a_sums = a.get_sums();
    let b_sums = b.get_sums();
    let a_poss: u32 = a.possibilities().unwrap();
    let b_poss: u32 = b.possibilities().unwrap();
    proof {
        b.lemma_highest_total_fits();
    }
    let b_max: u32 = b.dice_type.sides * b.dice_count;
    proof {
        assert(b_count * b_sides == b_max) by (nonlinear_arith)
            requires
                b_max == b_sides * b_count,
        ;
        assert(b_count <= b_max) by (nonlinear_arith)
            requires
                b_max == b_sides * b_count,
                b_sides >= 1,
        ;
        lemma_total_covering(b_sides, b_count, b_count as int, b_max + 1);
        assert(a_poss * b_poss <= 0xffff_ffff * 0xffff_ffff) by (nonlinear_arith)
            requires
                a_poss <= 0xffff_ffff,
                b_poss <= 0xffff_ffff,
        ;
    }
    let mut favourable: u64 = 0;
    let mut v: u64 = b.dice_count as u64;
    while v <= b_max as u64
        invariant
            a.wf(),
            a.in_range(),
            a_sums@ == a.distribution(),
            b_sums@ == b.distribution(),
            a_sides == a.dice_type.sides,
            a_count == a.dice_count,
            b_sides == b.dice_type.sides,
            b_count == b.dice_count,
            a_sides >= 1,
            a_poss == outcomes(a_sides, a_count),
            b_poss == outcomes(b_sides, b_count),
            b_max == b_sides * b_count,
            b_count <= v <= b_max + 1,
            total_ways(b_sides, b_count, b_count as int, b_max + 1) == b_poss,
            favourable == winning_pairs(a_sides, a_count, b_sides, b_count, b_count as int, v as int),
            favourable <= total_ways(b_sides, b_count, b_count as int, v as int) * a_poss,
        decreases b_max + 1 - v,
    {
        let roll: u32 = v as u32;
        let wins = ways_to_beat(&a, &a_sums, a_poss, roll);
        proof {
            lemma_total_split(b_sides, b_count, b_count as int, v + 1, b_max + 1);
            lemma_ways_le_outcomes(b_sides, b_count, v as int);
            lemma_beating_rolls_bound(a_sides, a_count, v as int);
            assert(b_sums@.contains_key(roll));
            let seen = total_ways(b_sides, b_count, b_count as int, v as int);
            let here = ways(b_sides, b_count, v as int);
            assert(seen * a_poss + here * wins <= (seen + here) * a_poss <= b_poss * a_poss)
                by (nonlinear_arith)
                requires
                    wins <= a_poss,
                    seen + here <= b_poss,
            ;
            assert(here * wins <= 0xffff_ffff * 0xffff_ffff && b_poss * a_poss <= 0xffff_ffff
                * 0xffff_ffff) by (nonlinear_arith)
                requires
                    here <= 0xffff_ffff,
                    wins <= 0xffff_ffff,
                    a_poss <= 0xffff_ffff,
                    b_poss <= 0xffff_ffff,
            ;
        }
        let w = b_sums.get(&roll).unwrap();
        favourable = favourable + (*w as u64) * (wins as u64);
        v += 1;
    }
    proof {
        assert(total_ways(b_sides, b_count, b_count as int, v as int) * a_poss == a_poss * b_poss)
            by (nonlinear_arith)
            requires
                total_ways(b_sides, b_count, b_count as int, v as int) == b_poss,
        ;
    }
    proof {
        if b_sides * b_count <= a_count {
            lemma_certain_win(a_sides, a_count, b_sides, b_count);
        }
        if b_count > a_count && b_count >= a_sides * a_count {
            lemma_certain_loss(a_sides, a_count, b_sides, b_count);
        }
    }
    Odds { favourable, possible: a_poss as u64 * b_poss as u64 }
}

} // verus!
