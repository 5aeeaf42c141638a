use quackulator::data::{
    fmt_bag, parse_bag, rat_tails, starting_bag, total, track_i, unlock_round, Bag, COLOR_P,
    COLOR_R, COLOR_Y, I_K, I_O, N,
};

#[test]
fn starting_bag_contents() {
    let b = starting_bag();
    assert_eq!(b, [4, 2, 1, 1, 1, 0, 0, 0, 0, 0, 0, 0, 0, 0, 0, 0, 0, 0]);
    assert_eq!(total(&b), 9);
}

#[test]
fn track_reads_coins_vp_ruby() {
    assert_eq!(track_i(0), (0, 0, 0));
    assert_eq!(track_i(5), (5, 0, 1));
    assert_eq!(track_i(16), (15, 3, 1));
    assert_eq!(track_i(53), (35, 15, 0));
    // past the end reads the last space
    assert_eq!(track_i(60), (35, 15, 0));
    assert_eq!(track_i(usize::MAX), (35, 15, 0));
}

#[test]
fn track_never_decreases() {
    for s in 0..53 {
        let (c0, v0, _) = track_i(s);
        let (c1, v1, _) = track_i(s + 1);
        assert!(c0 <= c1 && v0 <= v1, "space {}", s);
    }
}

#[test]
fn unlock_rounds() {
    assert_eq!(unlock_round(COLOR_Y), 2);
    assert_eq!(unlock_round(COLOR_P), 3);
    assert_eq!(unlock_round(COLOR_R), 1);
}

#[test]
fn rat_tails_counts_marks_between() {
    assert_eq!(rat_tails(0, 0), 0);
    assert_eq!(rat_tails(10, 4), 0);
    // marks 1, 3, 6, 8 lie strictly between 0 and 10
    assert_eq!(rat_tails(0, 10), 4);
    assert_eq!(rat_tails(1, 3), 0);
    assert_eq!(rat_tails(0, 51), 25);
    assert_eq!(rat_tails(-5, 2), 1);
}

#[test]
fn parse_starting_bag_text() {
    assert_eq!(parse_bag("W1x4 W2x2 W3 O1 G1"), starting_bag());
}

#[test]
fn parse_accepts_case_separators_and_white_space() {
    let mut want: Bag = [0; N];
    want[0] = 3;
    want[I_O] = 2;
    want[I_K] = 1;
    assert_eq!(parse_bag("  w1*2\tw1 o1:2\nk1  "), want);
    // a count that is not a byte falls back to 1; '+' is accepted before the digits
    let mut b2: Bag = [0; N];
    b2[0] = 1;
    b2[1] = 7;
    assert_eq!(parse_bag("W1x999 W2x+7"), b2);
    // a separator right after the first letter belongs to the name; repeated chips add up
    let mut b3: Bag = [0; N];
    b3[4] = 2;
    assert_eq!(parse_bag("G1 G1"), b3);
    assert_eq!(parse_bag(""), [0; N]);
}

#[test]
fn fmt_writes_counts() {
    assert_eq!(fmt_bag(&starting_bag()), "W1x4 W2x2 W3 O1 G1");
    assert_eq!(fmt_bag(&[0; N]), "");
    let mut b: Bag = [0; N];
    b[17] = 255;
    b[9] = 12;
    assert_eq!(fmt_bag(&b), "B4x12 K1x255");
}

#[test]
fn fmt_then_parse_gives_the_bag_back() {
    let mut b: Bag = [0; N];
    for seed in 0..200u32 {
        for i in 0..N {
            b[i] = ((seed.wrapping_mul(2654435761).wrapping_add(i as u32 * 97)) % 7) as u8 * ((seed % 37) as u8 + 1);
        }
        assert_eq!(parse_bag(&fmt_bag(&b)), b);
    }
}
