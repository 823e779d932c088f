use dice_odds::dice::{Dice, DiceError, Player};
use std::collections::BTreeMap;

fn group(sides: u32, count: u32) -> Player {
    Player::new(Dice::new(sides).unwrap(), count)
}

fn blank_table(rows: usize, columns: usize) -> Vec<Vec<u32>> {
    vec![vec![0u32; columns]; rows]
}

#[test]
fn die_has_faces_one_to_sides() {
    let d = Dice::new(4).unwrap();
    assert_eq!(d.sides, 4);
    assert_eq!(d.faces, vec![1, 2, 3, 4]);
    assert_eq!(d.doubled_average, 5);
}

#[test]
fn die_with_one_side() {
    let d = Dice::new(1).unwrap();
    assert_eq!(d.faces, vec![1]);
    assert_eq!(d.doubled_average, 2);
}

#[test]
fn die_without_sides_is_refused() {
    assert_eq!(Dice::new(0).err(), Some(DiceError::InvalidArgument));
}

#[test]
fn player_keeps_its_parts() {
    let p = Player::new(Dice::new(6).unwrap(), 3);
    assert_eq!(p.dice_count, 3);
    assert_eq!(p.dice_type.sides, 6);
    assert_eq!(p.dice_type.faces, vec![1, 2, 3, 4, 5, 6]);
}

#[test]
fn two_six_sided_dice() {
    let sums = group(6, 2).get_sums();
    let mut expected = BTreeMap::new();
    let counts = [1u32, 2, 3, 4, 5, 6, 5, 4, 3, 2, 1];
    for (i, c) in counts.iter().enumerate() {
        expected.insert(i as u32 + 2, *c);
    }
    assert_eq!(sums, expected);
    assert_eq!(sums.values().sum::<u32>(), 36);
}

#[test]
fn nine_four_sided_dice() {
    let sums = group(4, 9).get_sums();
    let counts: Vec<u32> = sums.values().copied().collect();
    assert_eq!(
        counts,
        vec![
            1, 9, 45, 165, 486, 1206, 2598, 4950, 8451, 13051, 18351, 23607, 27876, 30276, 30276,
            27876, 23607, 18351, 13051, 8451, 4950, 2598, 1206, 486, 165, 45, 9, 1
        ]
    );
    let keys: Vec<u32> = sums.keys().copied().collect();
    assert_eq!(keys, (9..=36).collect::<Vec<u32>>());
}

#[test]
fn counts_add_up_to_all_rolls() {
    for (sides, count) in [(4u32, 9u32), (6, 6), (1, 5), (2, 10), (20, 3), (7, 1)] {
        let p = group(sides, count);
        let total: u64 = p.get_sums().values().map(|w| *w as u64).sum();
        assert_eq!(total, (sides as u64).pow(count));
        assert_eq!(p.possibilities(), Some(sides.pow(count)));
    }
}

#[test]
fn keys_run_from_all_ones_to_all_highest() {
    for (sides, count) in [(4u32, 9u32), (6, 6), (1, 5), (3, 4)] {
        let sums = group(sides, count).get_sums();
        assert_eq!(sums.len() as u32, count * sides - count + 1);
        assert_eq!(sums.keys().next(), Some(&count));
        assert_eq!(sums.keys().last(), Some(&(count * sides)));
        assert!(sums.values().all(|w| *w >= 1));
    }
}

#[test]
fn single_die_reaches_each_face_once() {
    let sums = group(8, 1).get_sums();
    let keys: Vec<u32> = sums.keys().copied().collect();
    assert_eq!(keys, vec![1, 2, 3, 4, 5, 6, 7, 8]);
    assert!(sums.values().all(|w| *w == 1));
}

#[test]
fn one_sided_dice_have_one_total() {
    let sums = group(1, 7).get_sums();
    let mut expected = BTreeMap::new();
    expected.insert(7u32, 1u32);
    assert_eq!(sums, expected);
}

#[test]
fn counts_mirror_about_the_mean() {
    for (sides, count) in [(6u32, 2u32), (4, 9), (5, 3)] {
        let sums = group(sides, count).get_sums();
        for (s, w) in sums.iter() {
            assert_eq!(sums.get(&(count * (sides + 1) - s)), Some(w));
        }
    }
    let two = group(6, 2).get_sums();
    assert_eq!(two[&2], 1);
    assert_eq!(two[&12], 1);
    assert_eq!(two[&7], 6);
}

#[test]
fn combinations_of_two_dice() {
    let p = group(6, 2);
    let mut table = blank_table(3, 13);
    assert_eq!(p.get_combinations(2, 7, &mut table), 6);
    assert_eq!(table[2][7], 6);
    assert_eq!(table[1][6], 1);
    assert_eq!(table[1][2], 1);
    // a single die showing 1 is answered without the table
    assert_eq!(table[1][1], 0);
    assert_eq!(table[0], vec![0u32; 13]);
    assert_eq!(p.get_combinations(2, 7, &mut table), 6);
    assert_eq!(p.get_combinations(2, 8, &mut table), 5);
    assert_eq!(table[2][8], 5);
    assert_eq!(table[2][7], 6);
}

#[test]
fn combinations_at_the_edges() {
    let p = group(6, 3);
    let mut table = blank_table(4, 19);
    assert_eq!(p.get_combinations(3, 3, &mut table), 1);
    assert_eq!(p.get_combinations(3, 18, &mut table), 1);
    assert_eq!(p.get_combinations(3, 2, &mut table), 0);
    assert_eq!(p.get_combinations(3, -4, &mut table), 0);
    assert_eq!(p.get_combinations(0, 0, &mut table), 1);
    assert_eq!(p.get_combinations(0, 5, &mut table), 0);
    assert_eq!(p.get_combinations(3, 10, &mut table), 27);
    assert_eq!(p.get_combinations(3, 11, &mut table), 27);
}

#[test]
fn combinations_above_the_highest_total_need_no_table() {
    let p = group(6, 3);
    let mut table: Vec<Vec<u32>> = Vec::new();
    assert_eq!(p.get_combinations(3, 19, &mut table), 0);
    assert_eq!(p.get_combinations(2, 1, &mut table), 0);
    assert_eq!(p.get_combinations(4, 4, &mut table), 1);
    assert!(table.is_empty());
}

#[test]
fn combinations_keep_what_the_table_holds() {
    let p = group(4, 2);
    let mut table = blank_table(3, 9);
    table[1][3] = 1;
    assert_eq!(p.get_combinations(2, 5, &mut table), 4);
    assert_eq!(table[1][3], 1);
    assert_eq!(table[2][5], 4);
}

#[test]
fn possibilities_up_to_thirty_two_bits() {
    assert_eq!(group(4, 9).possibilities(), Some(262144));
    assert_eq!(group(6, 6).possibilities(), Some(46656));
    assert_eq!(group(2, 31).possibilities(), Some(2147483648));
    assert_eq!(group(2, 32).possibilities(), None);
    assert_eq!(group(65536, 2).possibilities(), None);
    assert_eq!(group(65535, 2).possibilities(), Some(4294836225));
    assert_eq!(group(9, 0).possibilities(), Some(1));
    assert_eq!(group(1, 1000).possibilities(), Some(1));
}

#[test]
fn fits_tells_small_groups_from_large() {
    assert!(group(4, 9).fits());
    assert!(group(6, 6).fits());
    assert!(group(2, 31).fits());
    assert!(!group(6, 0).fits());
    assert!(!group(2, 32).fits());
    assert!(!group(65536, 2).fits());
    assert!(group(1, 1000).fits());
    assert!(group(100000, 1).fits());
    assert!(!group(46341, 46341).fits());
}

#[test]
fn total_out_of_reach_leaves_the_table_alone() {
    let p = group(6, 2);
    let mut table = blank_table(3, 14);
    assert_eq!(p.get_combinations(2, 13, &mut table), 0);
    assert_eq!(table, blank_table(3, 14));
    assert_eq!(p.get_combinations(2, 2, &mut table), 1);
    assert_eq!(p.get_combinations(0, 0, &mut table), 1);
    assert_eq!(p.get_combinations(0, 3, &mut table), 0);
    assert_eq!(p.get_combinations(2, 1, &mut table), 0);
    assert_eq!(table, blank_table(3, 14));
}

#[test]
fn counted_total_is_stored_in_its_cell_only_with_what_it_needs() {
    let p = group(6, 2);
    let mut table = blank_table(3, 8);
    assert_eq!(p.get_combinations(2, 7, &mut table), 6);
    assert_eq!(table[0], vec![0u32; 8]);
    assert_eq!(table[1], vec![0, 0, 1, 1, 1, 1, 1, 0]);
    assert_eq!(table[2], vec![0, 0, 0, 0, 0, 0, 0, 6]);
}

#[test]
fn repeated_count_writes_nothing() {
    let p = group(4, 3);
    let mut table = blank_table(4, 13);
    let first = p.get_combinations(3, 7, &mut table);
    let kept = table.clone();
    assert_eq!(p.get_combinations(3, 7, &mut table), first);
    assert_eq!(first, 12);
    assert_eq!(table, kept);
}

#[test]
fn dice_from_new_are_valid() {
    assert!(Dice::new(6).unwrap().is_valid());
    assert!(group(4, 9).is_valid());
    assert!(group(1, 0).is_valid());
}

#[test]
fn dice_put_together_wrongly_are_not_valid() {
    let good = Dice::new(3).unwrap();
    let mut short = good.clone();
    short.faces.pop();
    assert!(!short.is_valid());
    let mut shifted = good.clone();
    shifted.faces[1] = 5;
    assert!(!shifted.is_valid());
    let mut mean = good.clone();
    mean.doubled_average = 3;
    assert!(!mean.is_valid());
    let none = Dice { sides: 0, faces: Vec::new(), doubled_average: 1 };
    assert!(!none.is_valid());
    assert!(!Player::new(none, 2).is_valid());
}

#[test]
fn one_die_with_many_sides() {
    let sums = group(2000, 1).get_sums();
    assert_eq!(sums.len(), 2000);
    assert_eq!(sums.get(&1), Some(&1));
    assert_eq!(sums.get(&2000), Some(&1));
    assert_eq!(sums.get(&2001), None);
}

#[test]
fn combinations_with_many_sides() {
    let p = group(100000, 1);
    let mut table = blank_table(2, 8);
    assert_eq!(p.get_combinations(1, 7, &mut table), 1);
    assert_eq!(table[1][7], 1);
    assert_eq!(p.get_combinations(1, 1, &mut table), 1);
    assert_eq!(p.get_combinations(1, 0, &mut table), 0);
}
