use quackulator::data::{parse_bag, starting_bag, Bag, I_W, N};
use quackulator::solver::{comb, combos, pay_index, pay_len, pay_slot, AbstractState, Brew, FxHasher, State, DDMAX, RUBMAX};

fn state(bag: Bag, pos: u8, white: u8, lastw: u8) -> State {
    State { bag, pos, white, lastw, g1: false, g2: false, flask: true }
}

#[test]
fn white_chip_explodes_past_seven() {
    let brew = Brew::new(7, starting_bag(), true, 1);
    let s = state(starting_bag(), 10, 5, 0);
    let (s2, boom) = brew.placed(&s.without(I_W[2]), I_W[2], false);
    assert!(!boom);
    assert_eq!((s2.pos, s2.white, s2.lastw), (12, 7, 2));
    let (s3, boom) = brew.placed(&s.without(I_W[3]), I_W[3], false);
    assert!(boom);
    assert_eq!((s3.pos, s3.white), (13, 8));
    assert_eq!(brew.explode_count(&s), 1);
    assert_eq!(brew.explode_count(&state(starting_bag(), 0, 7, 0)), 7);
}

#[test]
fn red_chip_pumpkin_bonus() {
    let start = parse_bag("W1 O1x3 R1 R2");
    let brew = Brew::new(7, start, true, 1);
    let mut bag = start;
    // no orange placed yet
    let (s, _) = brew.placed(&state(bag, 0, 0, 0).without(10), 10, false);
    assert_eq!(s.pos, 1);
    bag[3] = 2;
    let (s, _) = brew.placed(&state(bag, 0, 0, 0).without(10), 10, false);
    assert_eq!(s.pos, 2);
    bag[3] = 0;
    let (s, _) = brew.placed(&state(bag, 0, 0, 0).without(11), 11, false);
    assert_eq!(s.pos, 4);
}

#[test]
fn mandrake_returns_the_white() {
    let start = parse_bag("W1 W2 W3 Y1");
    let brew = Brew::new(7, start, true, 1);
    let mut bag = start;
    bag[1] = 0;
    let s = state(bag, 12, 6, 2);
    let (keep, _) = brew.placed(&s.without(13), 13, false);
    let (ret, _) = brew.placed(&s.without(13), 13, true);
    assert_eq!((keep.pos, keep.white, keep.bag[1]), (13, 6, 0));
    assert_eq!((ret.pos, ret.white, ret.bag[1]), (11, 4, 1));
}

#[test]
fn greens_tracked_over_last_two_chips() {
    let start = parse_bag("G1x2 O1");
    let brew = Brew::new(7, start, true, 1);
    let s0 = state(start, 0, 0, 0);
    let (s1, _) = brew.placed(&s0.without(4), 4, false);
    assert!(s1.g1 && !s1.g2);
    let (s2, _) = brew.placed(&s1.without(3), 3, false);
    assert!(!s2.g1 && s2.g2);
    assert_eq!(brew.pot_counts(&s2).0, 1);
}

#[test]
fn flask_puts_the_white_back() {
    let s = state(starting_bag(), 9, 4, 0);
    let f = Brew::use_flask(&s);
    assert_eq!((f.bag, f.pos, f.white, f.flask), (s.bag, 9, 4, false));
}

#[test]
fn start_state_and_clamp() {
    let brew = Brew::new(7, starting_bag(), false, 2);
    let s = brew.start(3, 2);
    assert_eq!((s.pos, s.white, s.flask), (5, 0, false));
    assert_eq!(brew.start(50, 10).pos, 53);
}

#[test]
fn binomials() {
    assert_eq!(comb(9, 0), 1);
    assert_eq!(comb(9, 2), 36);
    assert_eq!(comb(20, 4), 4845);
    assert_eq!(comb(3, 4), 0);
    assert_eq!(comb(4590, 4), 18_470_202_244_065);
}

#[test]
fn reveal_counts_add_up() {
    let bag = parse_bag("W1x4 W2x2 W3 O1 G1 B2 R1x3");
    let n: u32 = bag.iter().map(|&x| x as u32).sum();
    for k in 0..=4u32 {
        let mut out = vec![];
        let mut cur = vec![];
        combos(&bag, k, 0, &mut cur, 1, &mut out);
        assert!(cur.is_empty());
        let sum: u64 = out.iter().map(|(_, w)| *w).sum();
        assert_eq!(sum, comb(n, k), "k {}", k);
        for (c, _) in &out {
            assert_eq!(c.len(), k as usize);
            assert!(c.windows(2).all(|w| w[0] <= w[1]));
        }
    }
    let mut out = vec![];
    combos(&parse_bag("W1x2 O1"), 2, 0, &mut vec![], 1, &mut out);
    assert_eq!(out, vec![(vec![0, 3], 2), (vec![0, 0], 1)]);
}

#[test]
fn memo_keys_are_distinct() {
    let a = state(starting_bag(), 5, 3, 1);
    let mut b = a;
    b.bag[N - 1] = 1;
    let mut c = a;
    c.g2 = true;
    assert_ne!(a.key(1), b.key(1));
    assert_ne!(a.key(1), c.key(1));
    assert_ne!(a.key(1), a.key(2));
    assert_eq!(a.key(1), a.key(1));
    // the packing: bag digits, then pos, white, lastw, flags, depth
    let z = state([0; N], 0, 0, 0);
    assert_eq!(z.key(3), (1u128 << 7) | 3);
}

#[test]
fn fx_hasher_steps() {
    fn step(h: u64, x: u64) -> u64 {
        (h.rotate_left(5) ^ x).wrapping_mul(0x517cc1b727220a95)
    }
    let mut h = FxHasher::new();
    assert_eq!(h.finish(), 0);
    h.write_u64(12345);
    let mut want = step(0, 12345);
    assert_eq!(h.finish(), want);
    h.write(&[1, 2, 3]);
    for b in [1u64, 2, 3] {
        want = step(want, b);
    }
    assert_eq!(h.finish(), want);
    let big: u128 = (7u128 << 64) | 9;
    h.write_u128(big);
    want = step(step(want, 9), 7);
    assert_eq!(h.finish(), want);
}

#[test]
fn payout_slots() {
    assert_eq!(pay_len(), 1512);
    assert_eq!(pay_index(0, 0, 0, 0), 0);
    assert_eq!(pay_index(0, 0, 0, 1), 1);
    assert_eq!(pay_index(0, 0, 1, 0), 2);
    assert_eq!(pay_index(0, 1, 0, 0), 6);
    assert_eq!(pay_index(1, 0, 0, 0), 42);
    assert_eq!(pay_index(35, RUBMAX, DDMAX, 1), 1511);
    // every slot is used exactly once
    let mut seen = vec![false; pay_len()];
    for c in 0..36 {
        for r in 0..=RUBMAX {
            for d in 0..=DDMAX {
                for f in 0..2 {
                    let k = pay_index(c, r, d, f);
                    assert!(!seen[k]);
                    seen[k] = true;
                }
            }
        }
    }
    assert!(seen.iter().all(|&x| x));
    // out-of-range results are clamped
    assert_eq!(pay_slot(-3, -1, -2, false), 0);
    assert_eq!(pay_slot(40, 9, 5, true), 1511);
    assert_eq!(pay_slot(12, 2, 1, true), pay_index(12, 2, 1, 1));
}

#[test]
fn abstract_state_key_packs_fields() {
    let zero = AbstractState { w: [0; 3], safe: [0; 8], pr: 0, kr: 0, pos: 0, white: 0, flask: false, g: 0, p: 0, b: 0 };
    assert_eq!(zero.key(), 0);
    assert_eq!(AbstractState { b: 5, ..zero }.key(), 5);
    assert_eq!(AbstractState { p: 1, ..zero }.key(), 8);
    assert_eq!(AbstractState { g: 1, ..zero }.key(), 64);
    assert_eq!(AbstractState { flask: true, ..zero }.key(), 256);
    assert_eq!(AbstractState { white: 1, ..zero }.key(), 512);
    assert_eq!(AbstractState { pos: 1, ..zero }.key(), 1 << 13);
    assert_eq!(AbstractState { kr: 1, ..zero }.key(), 1 << 19);
    assert_eq!(AbstractState { pr: 1, ..zero }.key(), 1 << 23);
    let mut safe = [0; 8];
    safe[7] = 1;
    assert_eq!(AbstractState { safe, ..zero }.key(), 1 << 27);
    safe[7] = 0;
    safe[0] = 1;
    assert_eq!(AbstractState { safe, ..zero }.key(), 1 << 62);
    assert_eq!(AbstractState { w: [1, 0, 0], ..zero }.key(), 1u128 << 75);
    assert_eq!(AbstractState { w: [0, 0, 1], ..zero }.key(), 1u128 << 67);
    // distinct states, distinct keys
    let a = AbstractState { w: [4, 2, 1], safe: [0, 3, 1, 0, 2, 0, 0, 1], pr: 1, kr: 2, pos: 17, white: 5, flask: true, g: 1, p: 0, b: 2 };
    let b = AbstractState { white: 6, ..a };
    assert_ne!(a.key(), b.key());
}

#[test]
fn safe_draw_never_explodes_and_moves_forward() {
    let start = parse_bag("W1x2 W2 W3 O1 R1 G1 B1 Y1 P1 K1");
    let brew = Brew::new(7, start, true, 1);
    let s = state(start, 20, 4, 0);
    assert_eq!(brew.explode_count(&s), 0);
    for i in 0..N {
        if s.bag[i] > 0 {
            let (s2, boom) = brew.placed(&s.without(i), i, false);
            assert!(!boom);
            assert!(s2.pos > s.pos);
        }
    }
    // on the last space the marker stays
    let last = state(start, 53, 4, 0);
    let (s2, boom) = brew.placed(&last.without(0), 0, false);
    assert!(!boom);
    assert_eq!(s2.pos, 53);
}
