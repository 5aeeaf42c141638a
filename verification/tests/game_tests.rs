use quackulator::data::{starting_bag, Bag, I_O, N};
use quackulator::game::{
    cash_out, new_player, purple_bonus, round_rats, settle, spend_rubies, start_round, worker_share, Outcome, Rng,
};

/// The generator as a plain double computation, for comparison.
struct FloatRng(u64);
impl FloatRng {
    fn new(seed: u64) -> FloatRng {
        FloatRng(seed.wrapping_mul(0x9E3779B97F4A7C15).wrapping_add(0xD1B54A32D192ED03) | 1)
    }
    fn next_u64(&mut self) -> u64 {
        let mut x = self.0;
        x ^= x << 13;
        x ^= x >> 7;
        x ^= x << 17;
        self.0 = x;
        x.wrapping_mul(0x2545F4914F6CDD1D)
    }
    fn f64(&mut self) -> f64 {
        (self.next_u64() >> 11) as f64 / (1u64 << 53) as f64
    }
    fn below(&mut self, n: u32) -> u32 {
        (self.f64() * n as f64) as u32
    }
}

#[test]
fn rng_matches_double_arithmetic() {
    for seed in 0..300u64 {
        let mut a = Rng::new(seed);
        let mut b = FloatRng::new(seed);
        for step in 0..200u32 {
            let n = match step % 6 {
                0 => 6,
                1 => 9,
                2 => step + 1,
                3 => u32::MAX - step,
                4 => 0x8000_0001,
                _ => (seed as u32).wrapping_mul(2654435761) | 1,
            };
            assert_eq!(a.below(n), b.below(n), "seed {} step {} n {}", seed, step, n);
        }
    }
}

#[test]
fn rng_raw_numbers() {
    let mut a = Rng::new(7);
    let mut b = FloatRng::new(7);
    for _ in 0..100 {
        assert_eq!(a.next_u64(), b.next_u64());
    }
}

#[test]
fn below_zero_is_zero() {
    let mut a = Rng::new(3);
    assert_eq!(a.below(0), 0);
    for n in 1..50u32 {
        assert!(a.below(n) < n);
    }
}

#[test]
fn pick_chip_draws_from_the_bag() {
    let mut r = Rng::new(11);
    let mut b = FloatRng::new(11);
    let bag = starting_bag();
    let mut seen = [0u32; N];
    for _ in 0..9000 {
        let i = r.pick_chip(&bag);
        // same draw as walking the bag by the double-based position
        let mut pos = b.below(9);
        let mut want = N - 1;
        for j in 0..N {
            if pos < bag[j] as u32 {
                want = j;
                break;
            }
            pos -= bag[j] as u32;
        }
        assert_eq!(i, want);
        assert!(bag[i] > 0);
        seen[i] += 1;
    }
    // four W1 out of nine chips: roughly 4000 draws
    assert!(seen[0] > 3600 && seen[0] < 4400, "{}", seen[0]);
    let empty: Bag = [0; N];
    assert_eq!(r.pick_chip(&empty), N - 1);
}

#[test]
fn new_player_holdings() {
    let p = new_player();
    assert_eq!(p.bag, starting_bag());
    assert_eq!((p.droplet, p.rubies, p.vp, p.flask), (0, 0, 0, true));
}

#[test]
fn cash_out_final_round() {
    let mut p = new_player();
    p.vp = 40;
    p.rubies = 5;
    cash_out(&mut p, 23);
    assert_eq!(p.vp, 40 + 4 + 2);
    assert_eq!(p.rubies, 1);
}

#[test]
fn round_six_adds_a_white() {
    let mut p = new_player();
    start_round(&mut p, 5);
    assert_eq!(p.bag[0], 4);
    start_round(&mut p, 6);
    assert_eq!(p.bag[0], 5);
}

#[test]
fn no_rats_in_round_one() {
    assert_eq!(round_rats(1, 0, 30), 0);
    assert_eq!(round_rats(2, 0, 10), 4);
}

#[test]
fn spend_rubies_steps_and_refill() {
    let mut p = new_player();
    p.rubies = 7;
    p.flask = false;
    spend_rubies(&mut p, 2, true);
    assert_eq!((p.droplet, p.rubies, p.flask), (2, 1, true));
}

fn outcome(exploded: bool, purples: i32, blacks: i32) -> Outcome {
    Outcome { space: 20, exploded, coins: 17, vp: 4, ruby: 1, greens: 1, purples, blacks, flask: false }
}

#[test]
fn settle_purples_and_black() {
    let mut r = Rng::new(1);
    let mut p = new_player();
    let s = settle(&mut p, &outcome(false, 3, 1), (true, true), false, true, &mut r);
    assert_eq!(s.coins, 17);
    assert!(!s.took_coins);
    assert_eq!(s.face, None);
    // 4 VP + 2 for three purples; droplet +1 purples +1 black; rubies 1 space + 1 green + 1 black
    assert_eq!((p.vp, p.droplet, p.rubies, p.flask), (6, 2, 3, false));

    let mut p = new_player();
    settle(&mut p, &outcome(false, 2, 0), (false, false), false, true, &mut r);
    assert_eq!((p.vp, p.droplet, p.rubies), (5, 0, 3));
}

#[test]
fn settle_explosion_keeps_one_of_vp_or_coins() {
    let mut r = Rng::new(1);
    let mut p = new_player();
    let s = settle(&mut p, &outcome(true, 0, 0), (false, false), true, true, &mut r);
    assert_eq!((s.coins, s.took_coins, s.face), (0, false, None));
    assert_eq!(p.vp, 4);
    let mut p = new_player();
    let s = settle(&mut p, &outcome(true, 0, 0), (false, false), true, false, &mut r);
    assert_eq!((s.coins, s.took_coins), (17, true));
    assert_eq!(p.vp, 0);
}

#[test]
fn settle_bonus_die_faces() {
    let die = [0u8, 0, 1, 2, 3, 4];
    for seed in 0..60u64 {
        let mut r = Rng::new(seed);
        let mut probe = Rng::new(seed);
        let face = die[probe.below(6) as usize];
        let mut p = new_player();
        let s = settle(&mut p, &outcome(false, 0, 0), (false, false), true, true, &mut r);
        assert_eq!(s.face, Some(face));
        let (vp, ruby, drop, orange) = match face {
            0 => (1, 0, 0, 0),
            1 => (2, 0, 0, 0),
            2 => (0, 1, 0, 0),
            3 => (0, 0, 1, 0),
            _ => (0, 0, 0, 1),
        };
        assert_eq!(p.vp, 4 + vp);
        assert_eq!(p.rubies, 2 + ruby);
        assert_eq!(p.droplet, drop);
        assert_eq!(p.bag[I_O], 1 + orange);
    }
}

#[test]
fn crow_skull_draws_without_replacement() {
    let bag: Bag = [3, 0, 1, 1, 0, 0, 0, 2, 0, 0, 0, 0, 0, 0, 0, 0, 0, 0];
    for seed in 0..50u64 {
        let mut a = Rng::new(seed);
        let mut b = Rng::new(seed);
        let picks = a.draw_many(&bag, 4);
        assert_eq!(picks.len(), 4);
        // the same draws one by one from a shrinking bag
        let mut pool = bag;
        for &p in &picks {
            let q = b.pick_chip(&pool);
            assert_eq!(p, q);
            assert!(pool[p] > 0);
            pool[p] -= 1;
        }
        assert_eq!(a.next_u64(), b.next_u64());
    }
    // drawing the whole bag returns every chip once
    let mut r = Rng::new(7);
    let mut all = r.draw_many(&bag, 7);
    all.sort();
    assert_eq!(all, vec![0, 0, 0, 2, 3, 7, 7]);
    assert!(Rng::new(1).draw_many(&bag, 0).is_empty());
}

#[test]
fn purple_bonus_by_count() {
    assert_eq!(purple_bonus(0), (0, 0, 0));
    assert_eq!(purple_bonus(1), (1, 0, 0));
    assert_eq!(purple_bonus(2), (1, 1, 0));
    assert_eq!(purple_bonus(3), (2, 0, 1));
    assert_eq!(purple_bonus(7), (2, 0, 1));
}

#[test]
fn games_shared_among_workers() {
    assert_eq!(worker_share(10, 4, 0), (0, 3));
    assert_eq!(worker_share(10, 4, 3), (9, 10));
    assert_eq!(worker_share(2, 4, 3), (3, 2));
    for n in 0..40usize {
        for w in 1..9usize {
            let mut played = vec![0; n];
            for t in 0..w {
                let (lo, hi) = worker_share(n, w, t);
                for i in lo..hi {
                    played[i] += 1;
                }
            }
            assert!(played.iter().all(|&k| k == 1), "n {} workers {}", n, w);
        }
    }
}

#[test]
fn generator_output_is_never_zero() {
    for seed in [0u64, 1, u64::MAX, 0x9E3779B97F4A7C15] {
        let mut r = Rng::new(seed);
        for _ in 0..10_000 {
            assert_ne!(r.next_u64(), 0);
        }
    }
}
