use dice_odds::dice::{Dice, Player};
use dice_odds::odds::{a_beats_b, ways_above, ways_to_beat, Odds};

fn party(sides: u32, count: u32) -> Player {
    Player::new(Dice::new(sides).unwrap(), count)
}

// Counts by enumeration of every pair of totals, with no shortcut at the
// ends of the range.
fn pairs_strictly_above(a: &Player, b: &Player) -> u64 {
    let a_sums = a.get_sums();
    let b_sums = b.get_sums();
    let mut pairs = 0u64;
    for (bv, bw) in b_sums.iter() {
        for (av, aw) in a_sums.iter() {
            if av > bv {
                pairs += *aw as u64 * *bw as u64;
            }
        }
    }
    pairs
}

fn as_probability(a: &Player, b: &Player) -> f64 {
    let a_sums = a.get_sums();
    let a_poss = a.possibilities().unwrap();
    let b_poss = b.possibilities().unwrap() as f64;
    let mut probability = 0.0;
    for (roll, b_ways) in b.get_sums() {
        let wins = ways_to_beat(a, &a_sums, a_poss, roll);
        probability += (b_ways as f64 / b_poss) * (wins as f64 / a_poss as f64);
    }
    probability
}

#[test]
fn rolls_above_a_total_in_between() {
    let peter = party(4, 9);
    let sums = peter.get_sums();
    assert_eq!(ways_above(&peter, &sums, 35), 1);
    assert_eq!(ways_above(&peter, &sums, 10), 262134);
    assert_eq!(ways_above(&peter, &sums, 20), 189224);
}

#[test]
fn low_totals_are_always_beaten() {
    let peter = party(4, 9);
    let sums = peter.get_sums();
    for roll in [0u32, 1, 8, 9] {
        assert_eq!(ways_to_beat(&peter, &sums, 262144, roll), 262144);
    }
}

#[test]
fn high_totals_are_never_beaten() {
    let peter = party(4, 9);
    let sums = peter.get_sums();
    for roll in [36u32, 37, 1000, u32::MAX] {
        assert_eq!(ways_to_beat(&peter, &sums, 262144, roll), 0);
    }
}

#[test]
fn totals_in_between_are_counted() {
    let peter = party(4, 9);
    let sums = peter.get_sums();
    assert_eq!(ways_to_beat(&peter, &sums, 262144, 10), 262134);
    assert_eq!(ways_to_beat(&peter, &sums, 262144, 35), 1);
    assert_eq!(ways_to_beat(&peter, &sums, 262144, 20), 189224);
}

#[test]
fn one_sided_dice_count_their_only_total_as_beaten() {
    let ones = party(1, 3);
    let sums = ones.get_sums();
    assert_eq!(ways_to_beat(&ones, &sums, 1, 3), 1);
    assert_eq!(ways_to_beat(&ones, &sums, 1, 4), 0);
}

#[test]
fn peter_against_colin() {
    let odds = a_beats_b(party(4, 9), party(6, 6));
    assert_eq!(odds, Odds { favourable: 7009890536, possible: 12230590464 });
}

#[test]
fn peter_against_colin_to_seven_places() {
    let peter = party(4, 9);
    let colin = party(6, 6);
    let odds = a_beats_b(peter.clone(), colin.clone());
    let counted = odds.favourable as f64 / odds.possible as f64;
    assert_eq!(format!("{:.7}", counted), "0.5731441");
    assert_eq!(counted, 0.5731440813616634);
    let summed = as_probability(&peter, &colin);
    assert_eq!(format!("{:.7}", summed), "0.5731441");
    assert_eq!(summed, 0.5731440813616634);
    let strict = pairs_strictly_above(&peter, &colin) as f64 / odds.possible as f64;
    assert_eq!(format!("{:.7}", strict), "0.5731441");
}

#[test]
fn tie_at_the_lowest_total_is_counted_as_a_win() {
    let peter = party(4, 9);
    let colin = party(6, 6);
    let odds = a_beats_b(peter.clone(), colin.clone());
    let strict = pairs_strictly_above(&peter, &colin);
    assert_eq!(strict, 7009890480);
    // Colin rolls 9, Peter's lowest total, in 56 ways.
    assert_eq!(colin.get_sums()[&9], 56);
    assert_eq!(odds.favourable - strict, 56);
}

#[test]
fn without_a_shared_lowest_total_the_count_is_strict() {
    let a = party(6, 1);
    let b = party(6, 2);
    let odds = a_beats_b(a.clone(), b.clone());
    assert_eq!(odds.favourable, pairs_strictly_above(&a, &b));
    assert_eq!(odds.possible, 216);
}

#[test]
fn two_dice_against_one() {
    let odds = a_beats_b(party(6, 2), party(6, 1));
    assert_eq!(odds, Odds { favourable: 182, possible: 216 });
}

#[test]
fn one_die_against_its_like() {
    let odds = a_beats_b(party(6, 1), party(6, 1));
    assert_eq!(odds, Odds { favourable: 16, possible: 36 });
}

#[test]
fn favourable_pairs_never_exceed_all_pairs() {
    for (a, b) in [((4u32, 9u32), (6u32, 6u32)), ((1, 1), (1, 1)), ((2, 3), (20, 1)), ((20, 2), (2, 2))] {
        let odds = a_beats_b(party(a.0, a.1), party(b.0, b.1));
        assert!(odds.favourable <= odds.possible);
        assert_eq!(odds.possible, (a.0 as u64).pow(a.1) * (b.0 as u64).pow(b.1));
    }
}

#[test]
fn same_groups_same_answer() {
    let first = as_probability(&party(4, 9), &party(6, 6));
    let second = as_probability(&party(4, 9), &party(6, 6));
    assert_eq!(first.to_bits(), second.to_bits());
    assert_eq!(a_beats_b(party(4, 9), party(6, 6)), a_beats_b(party(4, 9), party(6, 6)));
}

#[test]
fn a_group_that_cannot_be_reached_always_wins() {
    let odds = a_beats_b(party(2, 12), party(6, 2));
    assert_eq!(odds, Odds { favourable: 4096 * 36, possible: 4096 * 36 });
}

#[test]
fn a_group_that_cannot_reach_never_wins() {
    let odds = a_beats_b(party(2, 3), party(4, 6));
    assert_eq!(odds, Odds { favourable: 0, possible: 8 * 4096 });
}
