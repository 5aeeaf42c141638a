use quackulator::data::{starting_bag, COLOR, N, PRICE};
use quackulator::shop::{apply, cost, purchase_options, set_only, shop_plans, ShopLimits};

fn legal(opt: &[usize], coins: i32, rnd: u32) -> bool {
    let ok = |i: usize| PRICE[i] > 0 && PRICE[i] <= coins && match COLOR[i] { b'Y' => 2 <= rnd, b'P' => 3 <= rnd, _ => true };
    match opt.len() {
        0 => true,
        1 => ok(opt[0]),
        2 => opt[0] < opt[1] && ok(opt[0]) && ok(opt[1]) && COLOR[opt[0]] != COLOR[opt[1]] && PRICE[opt[0]] + PRICE[opt[1]] <= coins,
        _ => false,
    }
}

#[test]
fn options_are_exactly_the_legal_purchases() {
    let lim = ShopLimits::new();
    for rnd in 1..9u32 {
        for coins in [0, 2, 3, 4, 9, 10, 14, 17, 22, 35] {
            let opts = purchase_options(&starting_bag(), coins, rnd, &lim);
            for o in &opts {
                assert!(legal(o, coins, rnd), "{:?}", o);
            }
            let mut count = 1;
            for i in 0..N {
                if legal(&[i], coins, rnd) {
                    count += 1;
                }
                for j in i + 1..N {
                    if legal(&[i, j], coins, rnd) {
                        count += 1;
                        assert!(opts.contains(&vec![i, j]));
                    }
                }
            }
            assert_eq!(opts.len(), count);
            assert_eq!(opts[0], Vec::<usize>::new());
        }
    }
}

#[test]
fn ten_coins_in_round_one() {
    let opts = purchase_options(&starting_bag(), 10, 1, &ShopLimits::new());
    let singles: Vec<usize> = opts.iter().filter(|o| o.len() == 1).map(|o| o[0]).collect();
    // O1 G1 G2 B1 B2 R1 R2 K1 (yellow and purple not yet)
    assert_eq!(singles, vec![3, 4, 5, 7, 8, 10, 11, 17]);
    // yellow from round 2, purple from round 3
    let in_round = |rnd: u32| -> Vec<usize> {
        purchase_options(&starting_bag(), 10, rnd, &ShopLimits::new()).iter().filter(|o| o.len() == 1).map(|o| o[0]).collect()
    };
    assert!(in_round(2).contains(&13) && !in_round(2).contains(&16));
    assert!(in_round(3).contains(&13) && in_round(3).contains(&16));
    assert!(opts.contains(&vec![3, 7]));
    assert!(!opts.contains(&vec![4, 5]));
    assert!(!opts.contains(&vec![5, 7]));
    // below the cheapest chip only "nothing" is offered
    assert_eq!(purchase_options(&starting_bag(), 2, 1, &ShopLimits::new()).len(), 1);
}

#[test]
fn limits_restrict_the_shop() {
    let mut lim = ShopLimits::new();
    set_only(&mut lim, "b2, b4,O");
    assert_eq!(lim.allow, (1 << 8) | (1 << 9) | (1 << 3));
    let opts = purchase_options(&starting_bag(), 30, 4, &lim);
    assert_eq!(opts, vec![vec![], vec![3], vec![8], vec![9], vec![3, 8], vec![3, 9]]);
    set_only(&mut lim, "R");
    assert_eq!(lim.allow, (1 << 10) | (1 << 11) | (1 << 12));
    set_only(&mut lim, " , z ,");
    assert_eq!(lim.allow, 0);
    let mut cap = ShopLimits::new();
    cap.max_orange = 1;
    cap.max_black = 0;
    let opts = purchase_options(&starting_bag(), 10, 1, &cap);
    assert!(!opts.iter().any(|o| o.contains(&3) || o.contains(&17)));
}

#[test]
fn cost_and_apply() {
    assert_eq!(cost(&[]), 0);
    assert_eq!(cost(&[3, 16]), 12);
    let b = apply(&starting_bag(), &[3, 16]);
    assert_eq!(b[3], 2);
    assert_eq!(b[16], 1);
    assert_eq!(b[0], 4);
}

#[test]
fn plans_pair_purchases_with_ruby_spends() {
    let lim = ShopLimits::new();
    let opts = purchase_options(&starting_bag(), 4, 2, &lim);
    // 5 rubies, flask empty: steps 0..=2, refill when 2 rubies remain after the steps
    let plans = shop_plans(&starting_bag(), 4, 5, 2, 1, false, &lim);
    assert_eq!(plans.len(), opts.len() * 5);
    let first: Vec<(i32, bool)> = plans.iter().take(5).map(|p| (p.steps, p.refill)).collect();
    assert_eq!(first, vec![(0, false), (0, true), (1, false), (1, true), (2, false)]);
    let p = &plans[3];
    assert_eq!((p.droplet, p.rubies, p.flask), (2, 1, true));
    // a full flask is never refilled; negative rubies allow no plan at all
    assert_eq!(shop_plans(&starting_bag(), 4, 5, 2, 0, true, &lim).len(), opts.len() * 3);
    assert_eq!(shop_plans(&starting_bag(), 4, -2, 2, 0, true, &lim).len(), 0);
}
