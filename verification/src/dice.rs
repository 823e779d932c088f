//! Dice, groups of identical dice, and the table of their totals.

use crate::ways::{
    lemma_outcomes_ge_highest, lemma_outcomes_monotone, lemma_single_die, lemma_total_covering, lemma_upto_monotone,
    lemma_ways_above, lemma_ways_all_ones, lemma_ways_below, lemma_ways_le_outcomes,
    lemma_ways_positive, lemma_ways_symmetric, outcomes, total_ways, ways, ways_upto,
};
use std::collections::BTreeMap;
use vstd::prelude::*;

verus! {

/// Why a value was refused.
#[derive(Clone, Copy, Debug, PartialEq, Eq, Structural)]
pub enum DiceError {
    /// A die needs at least one side.
    InvalidArgument,
}

/// One kind of die: its faces are numbered from 1 to `sides`.
#[derive(Clone, Debug)]
pub struct Dice {
    pub sides: u32,
    pub faces: Vec<u32>,
    /// Twice the mean face value, which is `sides + 1`.
    pub doubled_average: u64,
}

/// A group of `dice_count` dice of one kind, rolled together.
#[derive(Clone, Debug)]
pub struct Player {
    pub dice_type: Dice,
    pub dice_count: u32,
}

/// Every entry of the first `n + 1` rows of `table` is either zero, meaning
/// not yet counted, or the number of ways its row's dice reach its column.
pub open spec fn memo_sound(sides: nat, table: Vec<Vec<u32>>, n: int) -> bool {
    forall|i: int, j: int|
        0 <= i <= n && i < table.len() && 0 <= j < table[i].len() ==> (#[trigger] table[i][j]) == 0
            || table[i][j] == ways(sides, i as nat, j)
}

/// `table` has a row for each of `0..=n` dice, each with a column for `x`.
pub open spec fn memo_covers(table: Vec<Vec<u32>>, n: int, x: int) -> bool {
    &&& n < table.len()
    &&& forall|i: int| 0 <= i <= n ==> x < (#[trigger] table[i]).len()
}

/// `after` has the shape of `before`, and differs from it only in cells
/// that a count of `n` dice reaching `x` may fill: a cell that held zero,
/// in a row `i` of `1..=n` and a column above `i` that `i` dice can reach
/// while the other `n - i` dice show at least 1 each, now holds its count.
pub open spec fn memo_extends(
    sides: nat,
    before: Vec<Vec<u32>>,
    after: Vec<Vec<u32>>,
    n: int,
    x: int,
) -> bool {
    &&& after.len() == before.len()
    &&& forall|i: int| 0 <= i < before.len() ==> (#[trigger] after[i]).len() == before[i].len()
    &&& forall|i: int, j: int|
        0 <= i < before.len() && 0 <= j < before[i].len() ==> (#[trigger] after[i][j])
            == before[i][j] || {
            &&& before[i][j] == 0
            &&& 1 <= i <= n
            &&& i < j <= sides * i
            &&& j + (n - i) <= x
            &&& after[i][j] == ways(sides, i as nat, j)
        }
}

/// Sum of the counts that `table` holds for the totals `s` with
/// `lo <= s < hi`.
pub open spec fn table_total(table: Map<u32, u32>, lo: int, hi: int) -> nat
    decreases hi - lo,
{
    if hi <= lo {
        0
    } else {
        table_total(table, lo, hi - 1) + if table.contains_key((hi - 1) as u32) {
            table[(hi - 1) as u32] as nat
        } else {
            0
        }
    }
}

impl Dice {
    /// The faces are exactly `1, 2, .., sides`, and there is at least one.
    pub open spec fn wf(&self) -> bool {
        &&& self.sides >= 1
        &&& self.faces@.len() == self.sides
        &&& forall|i: int| 0 <= i < self.faces@.len() ==> #[trigger] self.faces@[i] == i + 1
        &&& self.doubled_average == self.sides + 1
    }

    /// Whether the faces are `1, 2, .., sides`, there is at least one, and
    /// the doubled mean is `sides + 1`.
    pub fn is_valid(&self) -> (ok: bool)
        ensures
            ok == self.wf(),
    {
        if self.sides == 0 || self.faces.len() != self.sides as usize || self.doubled_average
            != self.sides as u64 + 1 {
            return false;
        }
        let mut i: usize = 0;
        while i < self.faces.len()
            invariant
                i <= self.faces@.len(),
                forall|k: int| 0 <= k < i ==> #[trigger] self.faces@[k] == k + 1,
            decreases self.faces@.len() - i,
        {
            if self.faces[i] as u64 != i as u64 + 1 {
                return false;
            }
            i += 1;
        }
        true
    }

    /// A die with the given number of sides; none has zero sides.
    pub fn new(sides: u32) -> (made: Result<Dice, DiceError>)
        ensures
            sides == 0 <==> made == Err::<Dice, DiceError>(DiceError::InvalidArgument),
            sides >= 1 <==> made is Ok,
            made is Ok ==> made->Ok_0.wf() && made->Ok_0.sides == sides,
    {
        if sides == 0 {
            return Err(DiceError::InvalidArgument);
        }
        let mut faces: Vec<u32> = Vec::new();
        let mut i: u32 = 0;
        while i < sides
            invariant
                i <= sides,
                faces@.len() == i,
                forall|k: int| 0 <= k < faces@.len() ==> #[trigger] faces@[k] == k + 1,
            decreases sides - i,
        {
            faces.push(i + 1);
            i += 1;
        }
        let doubled_average: u64 = sides as u64 + 1;
        Ok(Dice { sides, faces, doubled_average })
    }
}

impl Player {
    /// The group's kind of die is well formed.
    pub open spec fn wf(&self) -> bool {
        self.dice_type.wf()
    }

    /// The table of totals: each total from all ones to all highest faces,
    /// with the number of ordered rolls that reach it.
    pub open spec fn distribution(&self) -> Map<u32, u32> {
        Map::new(
            |s: u32| self.dice_count <= s <= self.dice_type.sides * self.dice_count,
            |s: u32| ways(self.dice_type.sides as nat, self.dice_count as nat, s as int) as u32,
        )
    }

    /// There is at least one die, the number of ordered rolls fits in 32
    /// bits, and a table with a column for each total up to the highest can
    /// be indexed.
    pub open spec fn in_range(&self) -> bool {
        &&& self.dice_count >= 1
        &&& self.dice_type.sides * self.dice_count < usize::MAX
        &&& outcomes(self.dice_type.sides as nat, self.dice_count as nat) <= u32::MAX
    }

    /// A group whose number of rolls fits in 32 bits has a highest total
    /// that does.
    pub proof fn lemma_highest_total_fits(&self)
        requires
            self.wf(),
            outcomes(self.dice_type.sides as nat, self.dice_count as nat) <= u32::MAX,
        ensures
            self.dice_type.sides * self.dice_count <= u32::MAX,
    {
        let sides = self.dice_type.sides as nat;
        let count = self.dice_count as nat;
        if sides == 1 || count <= 1 {
            assert(sides * count <= u32::MAX) by (nonlinear_arith)
                requires
                    sides == 1 || count <= 1,
                    sides <= u32::MAX,
                    count <= u32::MAX,
            ;
        } else {
            lemma_outcomes_ge_highest(sides, count);
        }
    }

    proof fn lemma_distribution_window(&self, lo: int, hi: int)
        requires
            self.wf(),
            outcomes(self.dice_type.sides as nat, self.dice_count as nat) <= u32::MAX,
            0 <= lo,
            hi <= u32::MAX + 1,
        ensures
            table_total(self.distribution(), lo, hi) == total_ways(
                self.dice_type.sides as nat,
                self.dice_count as nat,
                lo,
                hi,
            ),
        decreases hi - lo,
    {
        let sides = self.dice_type.sides as nat;
        let count = self.dice_count as nat;
        if lo < hi {
            self.lemma_distribution_window(lo, hi - 1);
            assert(count * sides == sides * count) by (nonlinear_arith);
            if hi - 1 < count {
                lemma_ways_below(sides, count, hi - 1);
            } else if hi - 1 > sides * count {
                lemma_ways_above(sides, count, hi - 1);
            } else {
                lemma_ways_le_outcomes(sides, count, hi - 1);
            }
        }
    }

    /// The counts in the table of totals add up to the number
    /// of ordered rolls, `sides` to the power `dice_count`.
    pub proof fn lemma_distribution_total(&self)
        requires
            self.wf(),
            outcomes(self.dice_type.sides as nat, self.dice_count as nat) <= u32::MAX,
        ensures
            table_total(self.distribution(), 0, u32::MAX + 1) == outcomes(
                self.dice_type.sides as nat,
                self.dice_count as nat,
            ),
    {
        let sides = self.dice_type.sides as nat;
        let count = self.dice_count as nat;
        self.lemma_distribution_window(0, u32::MAX + 1);
        self.lemma_highest_total_fits();
        assert(count * sides == sides * count) by (nonlinear_arith);
        lemma_total_covering(sides, count, 0, u32::MAX + 1);
    }

    /// The table of totals holds exactly the totals from all ones
    /// to all highest faces, each with a count of at least one; every other
    /// total is reached by no roll.
    pub proof fn lemma_distribution_support(&self, s: u32)
        requires
            self.wf(),
            outcomes(self.dice_type.sides as nat, self.dice_count as nat) <= u32::MAX,
        ensures
            self.distribution().contains_key(s) <==> self.dice_count <= s <= self.dice_count
                * self.dice_type.sides,
            self.distribution().contains_key(s) ==> self.distribution()[s] >= 1,
            !self.distribution().contains_key(s) ==> ways(
                self.dice_type.sides as nat,
                self.dice_count as nat,
                s as int,
            ) == 0,
    {
        let sides = self.dice_type.sides as nat;
        let count = self.dice_count as nat;
        assert(count * sides == sides * count) by (nonlinear_arith);
        if s < count {
            lemma_ways_below(sides, count, s as int);
        } else if s > sides * count {
            lemma_ways_above(sides, count, s as int);
        } else {
            lemma_ways_positive(sides, count, s as int);
            lemma_ways_le_outcomes(sides, count, s as int);
        }
    }

    /// The table of a single die holds each face once and nothing else.
    pub proof fn lemma_distribution_single_die(&self)
        requires
            self.wf(),
            self.dice_count == 1,
        ensures
            self.distribution() == Map::new(
                |s: u32| 1 <= s <= self.dice_type.sides,
                |s: u32| 1u32,
            ),
    {
        let sides = self.dice_type.sides as nat;
        assert(sides * 1 == sides) by (nonlinear_arith);
        assert forall|s: u32| 1 <= s <= sides implies ways(sides, 1, s as int) as u32 == 1u32 by {
            lemma_single_die(sides, s as int);
        }
        assert(self.distribution() =~= Map::new(
            |s: u32| 1 <= s <= self.dice_type.sides,
            |s: u32| 1u32,
        ));
    }

    /// A total `s` in the table and its mirror image
    /// `dice_count * (sides + 1) - s` have the same count.
    pub proof fn lemma_distribution_symmetric(&self, s: u32)
        requires
            self.wf(),
            outcomes(self.dice_type.sides as nat, self.dice_count as nat) <= u32::MAX,
            self.distribution().contains_key(s),
        ensures
            0 <= self.dice_count * (self.dice_type.sides + 1) - s <= u32::MAX,
            self.distribution().contains_key(
                (self.dice_count * (self.dice_type.sides + 1) - s) as u32,
            ),
            self.distribution()[(self.dice_count * (self.dice_type.sides + 1) - s) as u32]
                == self.distribution()[s],
    {
        let sides = self.dice_type.sides as nat;
        let count = self.dice_count as nat;
        assert(count * (sides + 1) == sides * count + count) by (nonlinear_arith);
        self.lemma_highest_total_fits();
        lemma_ways_symmetric(sides, count, s as int);
    }

    /// A group of `dice_count` dice of the kind `dice_type`.
    pub fn new(dice_type: Dice, dice_count: u32) -> (made: Player)
        ensures
            made.dice_type == dice_type,
            made.dice_count == dice_count,
    {
        Self { dice_type, dice_count }
    }

    /// Whether the group's kind of die is well formed.
    pub fn is_valid(&self) -> (ok: bool)
        ensures
            ok == self.wf(),
    {
        self.dice_type.is_valid()
    }

    /// Number of ordered rolls of the whole group, `sides` to the power
    /// `dice_count`, or `None` where that number does not fit in 32 bits.
    pub fn possibilities(&self) -> (all: Option<u32>)
        requires
            self.wf(),
        ensures
            all is Some <==> outcomes(self.dice_type.sides as nat, self.dice_count as nat)
                <= u32::MAX,
            all is Some ==> all->Some_0 == outcomes(
                self.dice_type.sides as nat,
                self.dice_count as nat,
            ),
    {
        let ghost sides = self.dice_type.sides as nat;
        let mut acc: u32 = 1;
        let mut i: u32 = 0;
        while i < self.dice_count
            invariant
                i <= self.dice_count,
                sides == self.dice_type.sides,
                sides >= 1,
                acc == outcomes(sides, i as nat),
            decreases self.dice_count - i,
        {
            assert(acc * sides <= 0xffff_ffff * 0xffff_ffff) by (nonlinear_arith)
                requires
                    acc <= 0xffff_ffff,
                    sides <= 0xffff_ffff,
            ;
            let next: u64 = acc as u64 * self.dice_type.sides as u64;
            assert(next == outcomes(sides, (i + 1) as nat)) by (nonlinear_arith)
                requires
                    next == acc * sides,
                    outcomes(sides, (i + 1) as nat) == sides * acc,
            ;
            if next > u32::MAX as u64 {
                proof {
                    lemma_outcomes_monotone(sides, (i + 1) as nat, self.dice_count as nat);
                }
                return None;
            }
            acc = next as u32;
            i += 1;
        }
        Some(acc)
    }

    /// Whether the group is small enough for its totals to be counted in
    /// 32-bit numbers and tabled.
    pub fn fits(&self) -> (ok: bool)
        requires
            self.wf(),
        ensures
            ok == self.in_range(),
    {
        if self.dice_count == 0 {
            return false;
        }
        assert(self.dice_type.sides * self.dice_count <= 0xffff_ffff * 0xffff_ffff)
            by (nonlinear_arith)
            requires
                self.dice_type.sides <= 0xffff_ffff,
                self.dice_count <= 0xffff_ffff,
        ;
        let top: u64 = self.dice_type.sides as u64 * self.dice_count as u64;
        if top >= usize::MAX as u64 {
            return false;
        }
        self.possibilities().is_some()
    }

    /// The totals this group can roll, each with the number of ordered
    /// rolls that reach it.
    pub fn get_sums(&self) -> (sums: BTreeMap<u32, u32>)
        requires
            self.wf(),
            self.in_range(),
        ensures
            sums@ == self.distribution(),
    {
        broadcast use vstd::std_specs::btree::group_btree_axioms;

        let ghost sides = self.dice_type.sides as nat;
        let ghost count = self.dice_count as nat;
        proof {
            self.lemma_highest_total_fits();
            assert(self.dice_count <= sides * count) by (nonlinear_arith)
                requires
                    sides >= 1,
                    count == self.dice_count,
            ;
        }
        let max: u32 = self.dice_type.sides * self.dice_count;
        let width: usize = max as usize + 1;
        let rows: usize = self.dice_count as usize + 1;
        let mut lookup: Vec<Vec<u32>> = Vec::new();
        let mut r: usize = 0;
        while r < rows
            invariant
                r <= rows,
                lookup.len() == r,
                forall|i: int| 0 <= i < lookup.len() ==> (#[trigger] lookup[i]).len() == width,
                forall|i: int, j: int|
                    0 <= i < lookup.len() && 0 <= j < lookup[i].len() ==> (#[trigger] lookup[i][j])
                        == 0,
            decreases rows - r,
        {
            let mut throw: Vec<u32> = Vec::new();
            let mut c: usize = 0;
            while c < width
                invariant
                    c <= width,
                    throw.len() == c,
                    forall|j: int| 0 <= j < throw.len() ==> #[trigger] throw[j] == 0,
                decreases width - c,
            {
                throw.push(0);
                c += 1;
            }
            lookup.push(throw);
            r += 1;
        }
        let mut sums: BTreeMap<u32, u32> = BTreeMap::new();
        let mut val: u64 = self.dice_count as u64;
        while val <= max as u64
            invariant
                self.wf(),
                sides == self.dice_type.sides,
                count == self.dice_count,
                max == sides * count,
                self.dice_count <= val <= max + 1,
                outcomes(sides, count) <= u32::MAX,
                memo_covers(lookup, count as int, max as int),
                memo_sound(sides, lookup, count as int),
                sums@ =~= Map::new(
                    |s: u32| count <= s < val,
                    |s: u32| ways(sides, count, s as int) as u32,
                ),
            decreases max + 1 - val,
        {
            proof {
                lemma_ways_le_outcomes(sides, count, val as int);
            }
            let t = self.combinations(self.dice_count as i64, val as i64, &mut lookup);
            sums.insert(val as u32, t);
            val += 1;
        }
        sums
    }

    /// Number of ordered rolls of `n` of this group's dice that add up to `x`.
    ///
    /// `lookup` remembers counts between calls: entry `[i][j]` is zero until
    /// the count for `i` dice and total `j` is first needed, and holds it
    /// from then on. A count that is plain from `n` and `x` alone (no dice,
    /// all ones, a total out of reach) is answered without the table; any
    /// other is stored in entry `[n][x]`, and a call that finds it there
    /// writes nothing.
    pub fn get_combinations(&self, n: i32, x: i32, lookup: &mut Vec<Vec<u32>>) -> (total: u32)
        requires
            self.wf(),
            0 <= n,
            n < x <= self.dice_type.sides * n ==> {
                &&& memo_covers(*old(lookup), n as int, x as int)
                &&& memo_sound(self.dice_type.sides as nat, *old(lookup), n as int)
                &&& ways(self.dice_type.sides as nat, n as nat, x as int) <= u32::MAX
            },
        ensures
            total == ways(self.dice_type.sides as nat, n as nat, x as int),
            memo_extends(
                self.dice_type.sides as nat,
                *old(lookup),
                *final(lookup),
                n as int,
                x as int,
            ),
            memo_sound(self.dice_type.sides as nat, *old(lookup), n as int) ==> memo_sound(
                self.dice_type.sides as nat,
                *final(lookup),
                n as int,
            ),
            n == x ==> total == 1,
            n != x && (n == 0 || x < n || self.dice_type.sides * n < x) ==> total == 0,
            !(n < x <= self.dice_type.sides * n) ==> *final(lookup) == *old(lookup),
            n < x <= self.dice_type.sides * n ==> total >= 1 && final(lookup)[n as int][x as int]
                == total,
            n < x <= self.dice_type.sides * n && old(lookup)[n as int][x as int] != 0
                ==> *final(lookup) == *old(lookup),
    {
        proof {
            assert(self.dice_type.sides * n <= 0xffff_ffff * 0x7fff_ffff) by (nonlinear_arith)
                requires
                    self.dice_type.sides <= 0xffff_ffff,
                    0 <= n <= 0x7fff_ffff,
            ;
        }
        self.combinations(n as i64, x as i64, lookup)
    }

    /// The count of `get_combinations`, for numbers of dice and totals of any
    /// size that the table has room for.
    fn combinations(&self, n: i64, x: i64, lookup: &mut Vec<Vec<u32>>) -> (total: u32)
        requires
            self.wf(),
            0 <= n,
            n < x ==> self.dice_type.sides * n <= i64::MAX,
            n < x <= self.dice_type.sides * n ==> {
                &&& memo_covers(*old(lookup), n as int, x as int)
                &&& memo_sound(self.dice_type.sides as nat, *old(lookup), n as int)
                &&& ways(self.dice_type.sides as nat, n as nat, x as int) <= u32::MAX
            },
        ensures
            total == ways(self.dice_type.sides as nat, n as nat, x as int),
            memo_extends(
                self.dice_type.sides as nat,
                *old(lookup),
                *final(lookup),
                n as int,
                x as int,
            ),
            memo_sound(self.dice_type.sides as nat, *old(lookup), n as int) ==> memo_sound(
                self.dice_type.sides as nat,
                *final(lookup),
                n as int,
            ),
            n == x ==> total == 1,
            n != x && (n == 0 || x < n || self.dice_type.sides * n < x) ==> total == 0,
            !(n < x <= self.dice_type.sides * n) ==> *final(lookup) == *old(lookup),
            n < x <= self.dice_type.sides * n ==> total >= 1 && final(lookup)[n as int][x as int]
                == total,
            n < x <= self.dice_type.sides * n && old(lookup)[n as int][x as int] != 0
                ==> *final(lookup) == *old(lookup),
        decreases n,
    {
        let ghost sides = self.dice_type.sides as nat;
        if n == x {
            proof {
                lemma_ways_all_ones(sides, n as nat);
                assert(sides * n >= n) by (nonlinear_arith)
                    requires
                        sides >= 1,
                        n >= 0,
                ;
            }
            return 1;
        } else if n == 0 || x < n {
            proof {
                if n != 0 {
                    lemma_ways_below(sides, n as nat, x as int);
                } else {
                    assert(sides * n == 0) by (nonlinear_arith)
                        requires
                            n == 0,
                    ;
                }
            }
            return 0;
        }
        let f: i64 = self.dice_type.sides as i64;
        proof {
            assert((n as nat) * sides == f * n && f * n == sides * n) by (nonlinear_arith)
                requires
                    f == sides,
                    n >= 0,
            ;
        }
        if f * n < x {
            proof {
                lemma_ways_above(sides, n as nat, x as int);
            }
            return 0;
        }
        proof {
            lemma_ways_positive(sides, n as nat, x as int);
        }
        let row: usize = n as usize;
        let col: usize = x as usize;
        if lookup[row][col] == 0 {
            let mut sum: u32 = 0;
            let mut i: i64 = 0;
            while i < f
                invariant
                    0 <= i <= f,
                    f == sides,
                    sides == self.dice_type.sides,
                    self.wf(),
                    1 <= n < x,
                    sides * n <= i64::MAX,
                    row == n,
                    col == x,
                    sum == ways_upto(sides, n as nat, x as int, i as nat),
                    ways(sides, n as nat, x as int) <= u32::MAX,
                    memo_covers(*lookup, n as int, x as int),
                    memo_sound(sides, *lookup, n as int),
                    memo_extends(sides, *old(lookup), *lookup, n - 1, x - 1),
                decreases f - i,
            {
                let face: i64 = i + 1;
                proof {
                    lemma_upto_monotone(sides, n as nat, x as int, face as nat, sides);
                    assert(sides * (n - 1) <= sides * n) by (nonlinear_arith)
                        requires
                            n >= 1,
                    ;
                }
                let part = self.combinations(n - 1, x - face, lookup);
                sum = sum + part;
                i = face;
            }
            lookup[row][col] = sum;
        }
        lookup[row][col]
    }
}

} // verus!
