//! What the counts count: the rolls themselves, as sequences of faces.

use crate::ways::{ways, ways_upto};
use vstd::prelude::*;
use vstd::relations::injective_on;
use vstd::set_lib::{lemma_map_size, lemma_set_disjoint_lens};

verus! {

/// The total of a roll: the sum of its faces.
pub open spec fn face_sum(roll: Seq<int>) -> int
    decreases roll.len(),
{
    if roll.len() == 0 {
        0
    } else {
        face_sum(roll.drop_last()) + roll.last()
    }
}

/// Whether `roll` gives a face in `1..=sides` for each of `n` dice.
pub open spec fn is_roll(sides: nat, n: nat, roll: Seq<int>) -> bool {
    &&& roll.len() == n
    &&& forall|i: int| 0 <= i < roll.len() ==> 1 <= #[trigger] roll[i] <= sides
}

/// The ordered rolls of `n` dice whose total is `x`.
pub open spec fn rolls(sides: nat, n: nat, x: int) -> Set<Seq<int>> {
    Set::new(|roll: Seq<int>| is_roll(sides, n, roll) && face_sum(roll) == x)
}

/// The rolls of `rolls(sides, n, x)` whose last die shows a face in `1..=k`.
pub open spec fn rolls_upto(sides: nat, n: nat, x: int, k: nat) -> Set<Seq<int>> {
    Set::new(
        |roll: Seq<int>| is_roll(sides, n, roll) && face_sum(roll) == x && n >= 1 && roll.last() <= k,
    )
}

/// `ways(sides, n, x)` is the number of ordered rolls of `n` dice with
/// faces `1..=sides` whose total is `x`.
pub proof fn lemma_ways_counts_rolls(sides: nat, n: nat, x: int)
    ensures
        rolls(sides, n, x).finite(),
        rolls(sides, n, x).len() == ways(sides, n, x),
    decreases n, sides + 1,
{
    let all = rolls(sides, n, x);
    if n == 0 {
        let none = Seq::<int>::empty();
        assert forall|roll: Seq<int>| all.contains(roll) implies roll == none && x == 0 by {
            assert(roll =~= none);
        }
        if x == 0 {
            assert(is_roll(sides, 0, none));
            assert(all =~= Set::empty().insert(none));
        } else {
            assert(all =~= Set::empty());
        }
    } else {
        lemma_upto_counts_rolls(sides, n, x, sides);
        assert forall|roll: Seq<int>| all.contains(roll) implies rolls_upto(
            sides,
            n,
            x,
            sides,
        ).contains(roll) by {
            assert(roll.last() == roll[n - 1]);
        }
        assert(all =~= rolls_upto(sides, n, x, sides));
    }
}

proof fn lemma_upto_counts_rolls(sides: nat, n: nat, x: int, k: nat)
    requires
        n >= 1,
        k <= sides,
    ensures
        rolls_upto(sides, n, x, k).finite(),
        rolls_upto(sides, n, x, k).len() == ways_upto(sides, n, x, k),
    decreases n, k,
{
    let all = rolls_upto(sides, n, x, k);
    if k == 0 {
        assert forall|roll: Seq<int>| !all.contains(roll) by {
            if is_roll(sides, n, roll) {
                assert(roll.last() == roll[n - 1]);
            }
        }
        assert(all =~= Set::empty());
    } else {
        let lower = rolls_upto(sides, n, x, (k - 1) as nat);
        let shorter = rolls(sides, (n - 1) as nat, x - k);
        let push = |roll: Seq<int>| roll.push(k as int);
        let longer = shorter.map(push);
        lemma_upto_counts_rolls(sides, n, x, (k - 1) as nat);
        lemma_ways_counts_rolls(sides, (n - 1) as nat, x - k);
        assert(injective_on(push, shorter)) by {
            assert forall|r1: Seq<int>, r2: Seq<int>|
                shorter.contains(r1) && shorter.contains(r2) && #[trigger] push(r1) == #[trigger] push(
                    r2,
                ) implies r1 == r2 by {
                assert(r1 =~= push(r1).drop_last());
                assert(r2 =~= push(r2).drop_last());
            }
        }
        lemma_map_size(shorter, longer, push);
        assert forall|roll: Seq<int>| all.contains(roll) implies lower.contains(roll)
            || longer.contains(roll) by {
            assert(roll.last() == roll[n - 1]);
            if roll.last() == k {
                let front = roll.drop_last();
                assert(is_roll(sides, (n - 1) as nat, front)) by {
                    assert forall|i: int| 0 <= i < front.len() implies 1 <= #[trigger] front[i]
                        <= sides by {
                        assert(front[i] == roll[i]);
                    }
                }
                assert(shorter.contains(front));
                assert(roll =~= push(front));
            }
        }
        assert forall|roll: Seq<int>| longer.contains(roll) implies all.contains(roll)
            && !lower.contains(roll) by {
            let front = choose|front: Seq<int>| shorter.contains(front) && roll == push(front);
            assert(roll.drop_last() =~= front);
            assert(roll.last() == k);
            assert(is_roll(sides, n, roll)) by {
                assert forall|i: int| 0 <= i < roll.len() implies 1 <= #[trigger] roll[i]
                    <= sides by {
                    if i < n - 1 {
                        assert(roll[i] == front[i]);
                    }
                }
            }
        }
        assert(all =~= lower + longer);
        assert(lower.disjoint(longer));
        lemma_set_disjoint_lens(lower, longer);
    }
}

} // verus!
