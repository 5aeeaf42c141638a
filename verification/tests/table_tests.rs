use quackulator::table::{best_other_vp, black_result, die_winners, leader_vp, winners};

#[test]
fn black_two_players() {
    assert_eq!(black_result(&[1, 1], 0), (true, false));
    assert_eq!(black_result(&[2, 1], 0), (true, true));
    assert_eq!(black_result(&[1, 2], 0), (false, false));
    assert_eq!(black_result(&[0, 0], 1), (false, false));
}

#[test]
fn black_against_neighbours() {
    // seat 1's neighbours are seats 0 and 2
    assert_eq!(black_result(&[1, 2, 1, 5], 1), (true, true));
    assert_eq!(black_result(&[3, 2, 1, 5], 1), (true, false));
    assert_eq!(black_result(&[3, 2, 2, 5], 1), (false, false));
    // seat 0's neighbours are seats 3 and 1
    assert_eq!(black_result(&[2, 1, 9, 1], 0), (true, true));
    assert_eq!(black_result(&[2, 2, 9], 0), (false, false));
}

#[test]
fn die_goes_to_the_furthest_unexploded_pots() {
    assert_eq!(die_winners(&[false, true, false, false], &[20, 40, 25, 25]), vec![false, false, true, true]);
    assert_eq!(die_winners(&[true, true], &[20, 40]), vec![false, false]);
    assert_eq!(die_winners(&[false, false], &[30, 10]), vec![true, false]);
}

#[test]
fn leaders_and_winners() {
    assert_eq!(leader_vp(&[3, 9, 9, 1]), 9);
    assert_eq!(best_other_vp(&[3, 9, 7, 1], 1), 7);
    assert_eq!(best_other_vp(&[3, 9, 9, 1], 1), 9);
    assert_eq!(winners(&[30, 41, 41, 12]), vec![false, true, true, false]);
}
