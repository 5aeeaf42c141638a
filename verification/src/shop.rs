//! What the shop may sell: the legal purchases for a round (one or two chips of different
//! colours within the coins, respecting unlock rounds and the player's restrictions), their
//! cost, adding them to the bag, and spending rubies on droplet steps and flask refills.

use vstd::prelude::*;
use crate::data::{Bag, COLOR, COLOR_K, COLOR_O, COLOR_P, COLOR_Y, I_K, I_O, N, PRICE, VALUE, chip_name, unlock_round, unlock_spec};
use crate::text::{chars_of, comma_pieces, to_upper, trim_end, trim_piece, trim_start, upper_seq};

verus! {

/// Restrictions on what the shop may buy: a bitmask of allowed chip types, and caps on the
/// oranges and blacks in the bag beyond which no more are bought.
pub struct ShopLimits {
    pub allow: u32,
    pub max_orange: u32,
    pub max_black: u32,
}

impl ShopLimits {
    /// No restriction.
    pub fn new() -> (l: ShopLimits)
        ensures
            l.allow == u32::MAX,
            l.max_orange == u32::MAX,
            l.max_black == u32::MAX,
    {
        ShopLimits { allow: u32::MAX, max_orange: u32::MAX, max_black: u32::MAX }
    }
}

/// Bit `i` of `m` is set.
pub open spec fn bit_set(m: u32, i: u32) -> bool {
    (m >> i) & 1u32 == 1u32
}

proof fn lemma_clear_bit(m: u32, i: u32, j: u32)
    requires
        i < 32,
        j < 32,
    ensures
        bit_set(m & !(1u32 << j), i) == (bit_set(m, i) && i != j),
{
    assert(((m & !(1u32 << j)) >> i) & 1u32 == 1u32 <==> (((m >> i) & 1u32 == 1u32) && i != j))
        by (bit_vector)
        requires
            i < 32,
            j < 32,
    ;
}

/// The shop may offer chip type `i` to this bag.
pub open spec fn allowed(bag: Seq<u8>, limits: ShopLimits, i: int) -> bool {
    &&& bit_set(limits.allow, i as u32)
    &&& !(i == I_O && bag[I_O as int] >= limits.max_orange)
    &&& !(i == I_K && bag[I_K as int] >= limits.max_black)
}

/// Chip type `i` can be bought in the shop of round `rnd` with `coins`.
pub open spec fn buyable(bag: Seq<u8>, coins: i32, rnd: u32, limits: ShopLimits, i: int) -> bool {
    &&& 0 <= i < 18
    &&& PRICE@[i] > 0
    &&& allowed(bag, limits, i)
    &&& unlock_spec(COLOR@[i]) <= rnd
    &&& PRICE@[i] <= coins
}

/// The buyable chip types below `n`, in increasing order.
pub open spec fn avail_upto(bag: Seq<u8>, coins: i32, rnd: u32, limits: ShopLimits, n: int) -> Seq<usize>
    decreases n,
{
    if n <= 0 {
        seq![]
    } else if buyable(bag, coins, rnd, limits, n - 1) {
        avail_upto(bag, coins, rnd, limits, n - 1).push((n - 1) as usize)
    } else {
        avail_upto(bag, coins, rnd, limits, n - 1)
    }
}

proof fn lemma_avail_facts(bag: Seq<u8>, coins: i32, rnd: u32, limits: ShopLimits, n: int)
    ensures
        forall|k: int| 0 <= k < avail_upto(bag, coins, rnd, limits, n).len() ==> {
            let x = #[trigger] avail_upto(bag, coins, rnd, limits, n)[k];
            &&& x < n
            &&& buyable(bag, coins, rnd, limits, x as int)
        },
        forall|k: int, l: int| 0 <= k < l < avail_upto(bag, coins, rnd, limits, n).len() ==>
            avail_upto(bag, coins, rnd, limits, n)[k] < avail_upto(bag, coins, rnd, limits, n)[l],
        forall|x: int| 0 <= x < n && buyable(bag, coins, rnd, limits, x) ==> avail_upto(bag, coins, rnd, limits, n).contains(x as usize),
    decreases n,
{
    if n > 0 {
        lemma_avail_facts(bag, coins, rnd, limits, n - 1);
        let prev = avail_upto(bag, coins, rnd, limits, n - 1);
        if buyable(bag, coins, rnd, limits, n - 1) {
            let cur = prev.push((n - 1) as usize);
            assert(cur[prev.len() as int] == (n - 1) as usize);
            assert forall|x: int| 0 <= x < n && buyable(bag, coins, rnd, limits, x) implies cur.contains(x as usize) by {
                if x < n - 1 {
                    let k = choose|k: int| 0 <= k < prev.len() && prev[k] == x as usize;
                    assert(cur[k] == x as usize);
                } else {
                    assert(cur[prev.len() as int] == x as usize);
                }
            }
        }
    }
}

/// Two chips can be bought together: different colours and within the coins.
pub open spec fn pair_ok(i: usize, j: usize, coins: i32) -> bool {
    COLOR@[i as int] != COLOR@[j as int] && PRICE@[i as int] + PRICE@[j as int] <= coins
}

/// Pairs (avail[a], avail[b]) with b from `b` on.
pub open spec fn pairs_with(avail: Seq<usize>, a: int, b: int, coins: i32) -> Seq<Seq<usize>>
    decreases avail.len() - b,
{
    if b >= avail.len() || b < 0 {
        seq![]
    } else if pair_ok(avail[a], avail[b], coins) {
        seq![seq![avail[a], avail[b]]] + pairs_with(avail, a, b + 1, coins)
    } else {
        pairs_with(avail, a, b + 1, coins)
    }
}

/// Pairs (avail[x], avail[y]) with a <= x < y, in lexicographic order.
pub open spec fn pairs_from(avail: Seq<usize>, a: int, coins: i32) -> Seq<Seq<usize>>
    decreases avail.len() - a,
{
    if a >= avail.len() || a < 0 {
        seq![]
    } else {
        pairs_with(avail, a, a + 1, coins) + pairs_from(avail, a + 1, coins)
    }
}

/// The purchase options in the order the shop lists them: nothing, each single chip, then
/// each affordable pair of different colours.
pub open spec fn options_spec(bag: Seq<u8>, coins: i32, rnd: u32, limits: ShopLimits) -> Seq<Seq<usize>> {
    let avail = avail_upto(bag, coins, rnd, limits, 18);
    seq![seq![]] + avail.map_values(|i: usize| seq![i]) + pairs_from(avail, 0, coins)
}

proof fn lemma_pairs_with_contains(av: Seq<usize>, a: int, b: int, coins: i32, o: Seq<usize>)
    requires
        0 <= a < av.len(),
        0 <= b,
    ensures
        pairs_with(av, a, b, coins).contains(o) <==> exists|y: int|
            b <= y < av.len() && o == seq![av[a], av[y]] && pair_ok(av[a], av[y], coins),
    decreases av.len() - b,
{
    if b < av.len() {
        lemma_pairs_with_contains(av, a, b + 1, coins, o);
        let rest = pairs_with(av, a, b + 1, coins);
        if pair_ok(av[a], av[b], coins) {
            let head = seq![seq![av[a], av[b]]];
            assert((head + rest).contains(o) <==> (o == head[0] || rest.contains(o))) by {
                if (head + rest).contains(o) {
                    let k = choose|k: int| 0 <= k < (head + rest).len() && (head + rest)[k] == o;
                    if k > 0 {
                        assert(rest[k - 1] == o);
                    }
                }
                if rest.contains(o) {
                    let k = choose|k: int| 0 <= k < rest.len() && rest[k] == o;
                    assert((head + rest)[k + 1] == o);
                }
                if o == head[0] {
                    assert((head + rest)[0] == o);
                }
            }
        }
    } else {
        assert(pairs_with(av, a, b, coins) =~= seq![]);
    }
}

proof fn lemma_pairs_from_contains(av: Seq<usize>, a: int, coins: i32, o: Seq<usize>)
    requires
        0 <= a,
    ensures
        pairs_from(av, a, coins).contains(o) <==> exists|x: int, y: int|
            a <= x < y < av.len() && o == seq![av[x], av[y]] && pair_ok(av[x], av[y], coins),
    decreases av.len() - a,
{
    if a < av.len() {
        lemma_pairs_from_contains(av, a + 1, coins, o);
        lemma_pairs_with_contains(av, a, a + 1, coins, o);
        let first = pairs_with(av, a, a + 1, coins);
        let rest = pairs_from(av, a + 1, coins);
        assert((first + rest).contains(o) <==> (first.contains(o) || rest.contains(o))) by {
            if (first + rest).contains(o) {
                let k = choose|k: int| 0 <= k < (first + rest).len() && (first + rest)[k] == o;
                if k >= first.len() {
                    assert(rest[k - first.len()] == o);
                } else {
                    assert(first[k] == o);
                }
            }
            if rest.contains(o) {
                let k = choose|k: int| 0 <= k < rest.len() && rest[k] == o;
                assert((first + rest)[k + first.len()] == o);
            }
            if first.contains(o) {
                let k = choose|k: int| 0 <= k < first.len() && first[k] == o;
                assert((first + rest)[k] == o);
            }
        }
        if exists|x: int, y: int|
            a <= x < y < av.len() && o == seq![av[x], av[y]] && pair_ok(av[x], av[y], coins) {
            let (x, y) = choose|x: int, y: int|
                a <= x < y < av.len() && o == seq![av[x], av[y]] && pair_ok(av[x], av[y], coins);
            if x == a {
                assert(exists|yy: int|
                    a + 1 <= yy < av.len() && o == seq![av[a], av[yy]] && pair_ok(av[a], av[yy], coins));
            } else {
                assert(exists|xx: int, yy: int|
                    a + 1 <= xx < yy < av.len() && o == seq![av[xx], av[yy]] && pair_ok(av[xx], av[yy], coins));
            }
        }
    } else {
        assert(pairs_from(av, a, coins) =~= seq![]);
    }
}

/// A legal purchase: nothing, one buyable chip, or two buyable chips (listed in type order) of
/// different colours that the coins cover together.
pub open spec fn legal_purchase(bag: Seq<u8>, coins: i32, rnd: u32, limits: ShopLimits, o: Seq<usize>) -> bool {
    ||| o.len() == 0
    ||| o.len() == 1 && buyable(bag, coins, rnd, limits, o[0] as int)
    ||| o.len() == 2 && o[0] < o[1] && buyable(bag, coins, rnd, limits, o[0] as int) && buyable(
        bag,
        coins,
        rnd,
        limits,
        o[1] as int,
    ) && pair_ok(o[0], o[1], coins)
}

/// The shop lists exactly the legal purchases: nothing, one chip, or two chips of different
/// colours, each unlocked and allowed, within the coins.
pub proof fn lemma_options_are_legal(bag: Seq<u8>, coins: i32, rnd: u32, limits: ShopLimits, o: Seq<usize>)
    ensures
        options_spec(bag, coins, rnd, limits).contains(o) <==> legal_purchase(bag, coins, rnd, limits, o),
{
    let av = avail_upto(bag, coins, rnd, limits, 18);
    lemma_avail_facts(bag, coins, rnd, limits, 18);
    lemma_pairs_from_contains(av, 0, coins, o);
    let e: Seq<Seq<usize>> = seq![seq![]];
    let singles = av.map_values(|i: usize| seq![i]);
    let pairs = pairs_from(av, 0, coins);
    let all = e + singles + pairs;
    assert(all.contains(o) <==> (o.len() == 0 || singles.contains(o) || pairs.contains(o))) by {
        if all.contains(o) {
            let k = choose|k: int| 0 <= k < all.len() && all[k] == o;
            if k == 0 {
            } else if k < 1 + singles.len() {
                assert(singles[k - 1] == o);
            } else {
                assert(pairs[k - 1 - singles.len()] == o);
            }
        }
        if o.len() == 0 {
            assert(o =~= e[0]);
            assert(all[0] == o);
        }
        if singles.contains(o) {
            let k = choose|k: int| 0 <= k < singles.len() && singles[k] == o;
            assert(all[k + 1] == o);
        }
        if pairs.contains(o) {
            let k = choose|k: int| 0 <= k < pairs.len() && pairs[k] == o;
            assert(all[k + 1 + singles.len()] == o);
        }
    }
    assert(singles.contains(o) <==> (o.len() == 1 && buyable(bag, coins, rnd, limits, o[0] as int))) by {
        if singles.contains(o) {
            let k = choose|k: int| 0 <= k < singles.len() && singles[k] == o;
            assert(o == seq![av[k]]);
        }
        if o.len() == 1 && buyable(bag, coins, rnd, limits, o[0] as int) {
            assert(av.contains(o[0]));
            let k = choose|k: int| 0 <= k < av.len() && av[k] == o[0];
            assert(singles[k] =~= o);
        }
    }
    if o.len() == 2 && o[0] < o[1] && buyable(bag, coins, rnd, limits, o[0] as int) && buyable(
        bag,
        coins,
        rnd,
        limits,
        o[1] as int,
    ) && pair_ok(o[0], o[1], coins) {
        assert(av.contains(o[0]));
        assert(av.contains(o[1]));
        let x = choose|k: int| 0 <= k < av.len() && av[k] == o[0];
        let y = choose|k: int| 0 <= k < av.len() && av[k] == o[1];
        if y <= x {
            if y < x {
                assert(av[y] < av[x]);
            }
        }
        assert(o =~= seq![av[x], av[y]]);
    }
    if pairs.contains(o) {
        let (x, y) = choose|x: int, y: int|
            0 <= x < y < av.len() && o == seq![av[x], av[y]] && pair_ok(av[x], av[y], coins);
        assert(av[x] < av[y]);
    }
}

pub open spec fn opts_view(v: Seq<Vec<usize>>) -> Seq<Seq<usize>> {
    v.map_values(|o: Vec<usize>| o@)
}

proof fn lemma_opts_view_push(v: Seq<Vec<usize>>, o: Vec<usize>)
    ensures
        opts_view(v.push(o)) == opts_view(v).push(o@),
{
    assert(opts_view(v.push(o)) =~= opts_view(v).push(o@));
}

/// Every legal purchase in the shop of round `rnd` with `coins`: nothing, one chip, or two chips of
/// different colours, each unlocked and allowed, within the coins.
pub fn purchase_options(bag: &Bag, coins: i32, rnd: u32, limits: &ShopLimits) -> (opts: Vec<Vec<usize>>)
    ensures
        opts_view(opts@) == options_spec(bag@, coins, rnd, *limits),
{
    let mut allow = limits.allow;
    if bag[I_O] as u32 >= limits.max_orange {
        allow = allow & !(1u32 << I_O as u32);
    }
    if bag[I_K] as u32 >= limits.max_black {
        allow = allow & !(1u32 << I_K as u32);
    }
    proof {
        assert forall|i: int| 0 <= i < 18 implies bit_set(allow, i as u32) == allowed(bag@, *limits, i) by {
            lemma_clear_bit(limits.allow, i as u32, 3);
            lemma_clear_bit(limits.allow, i as u32, 17);
            lemma_clear_bit(limits.allow & !(1u32 << 3u32), i as u32, 17);
        }
    }
    let mut avail: Vec<usize> = Vec::new();
    let mut i: usize = 0;
    while i < N
        invariant
            i <= N,
            avail@ == avail_upto(bag@, coins, rnd, *limits, i as int),
            forall|j: int| 0 <= j < 18 ==> bit_set(allow, j as u32) == allowed(bag@, *limits, j),
        decreases N - i,
    {
        if PRICE[i] > 0 && (allow >> i as u32) & 1 == 1 && unlock_round(COLOR[i]) <= rnd
            && PRICE[i] <= coins {
            avail.push(i);
        }
        i = i + 1;
    }
    let mut opts: Vec<Vec<usize>> = Vec::new();
    let ghost av = avail@;
    proof {
        lemma_avail_facts(bag@, coins, rnd, *limits, 18);
    }
    let empty: Vec<usize> = Vec::new();
    proof {
        lemma_opts_view_push(opts@, empty);
    }
    opts.push(empty);
    let mut a: usize = 0;
    while a < avail.len()
        invariant
            avail@ == av,
            a <= av.len(),
            opts_view(opts@) == seq![seq![]] + av.take(a as int).map_values(|x: usize| seq![x]),
        decreases av.len() - a,
    {
        let mut one = Vec::new();
        one.push(avail[a]);
        proof {
            lemma_opts_view_push(opts@, one);
            assert(av.take(a + 1).map_values(|x: usize| seq![x]) =~= av.take(a as int).map_values(
                |x: usize| seq![x],
            ).push(seq![av[a as int]]));
        }
        opts.push(one);
        a = a + 1;
    }
    proof {
        assert(av.take(av.len() as int) =~= av);
    }
    let ghost singles = opts_view(opts@);
    let mut a: usize = 0;
    while a < avail.len()
        invariant
            avail@ == av,
            a <= av.len(),
            forall|k: int| 0 <= k < av.len() ==> av[k] < 18,
            opts_view(opts@) + pairs_from(av, a as int, coins) == singles + pairs_from(av, 0, coins),
        decreases av.len() - a,
    {
        let ghost before = opts_view(opts@);
        let mut b: usize = a + 1;
        while b < avail.len()
            invariant
                avail@ == av,
                a < av.len(),
                forall|k: int| 0 <= k < av.len() ==> av[k] < 18,
                a + 1 <= b <= av.len(),
                opts_view(opts@) + pairs_with(av, a as int, b as int, coins) == before + pairs_with(
                    av,
                    a as int,
                    a + 1,
                    coins,
                ),
            decreases av.len() - b,
        {
            let (x, y) = (avail[a], avail[b]);
            assert(x < 18 && y < 18);
            if COLOR[x] != COLOR[y] && PRICE[x] + PRICE[y] <= coins {
                let mut two = Vec::new();
                two.push(x);
                two.push(y);
                proof {
                    lemma_opts_view_push(opts@, two);
                    assert(two@ =~= seq![x, y]);
                    assert(opts_view(opts@).push(two@) + pairs_with(av, a as int, b + 1, coins)
                        =~= opts_view(opts@) + pairs_with(av, a as int, b as int, coins));
                }
                opts.push(two);
            }
            b = b + 1;
        }
        proof {
            assert(pairs_with(av, a as int, b as int, coins) =~= seq![]);
            assert(opts_view(opts@) + seq![] =~= opts_view(opts@));
            assert(before + pairs_with(av, a as int, a + 1, coins) + pairs_from(av, a + 1, coins)
                =~= before + pairs_from(av, a as int, coins));
        }
        a = a + 1;
    }
    proof {
        assert(pairs_from(av, a as int, coins) =~= seq![]);
        assert(opts_view(opts@) + seq![] =~= opts_view(opts@));
    }
    opts
}

/// The total price of a purchase.
pub open spec fn cost_spec(o: Seq<usize>) -> int
    decreases o.len(),
{
    if o.len() == 0 {
        0
    } else {
        cost_spec(o.drop_last()) + PRICE@[o.last() as int]
    }
}

proof fn lemma_cost_bounds(o: Seq<usize>)
    requires
        forall|k: int| 0 <= k < o.len() ==> o[k] < 18,
    ensures
        0 <= cost_spec(o) <= 19 * o.len(),
    decreases o.len(),
{
    if o.len() > 0 {
        lemma_cost_bounds(o.drop_last());
    }
}

/// The total price of a purchase.
pub fn cost(opt: &[usize]) -> (c: i32)
    requires
        forall|k: int| 0 <= k < opt@.len() ==> opt@[k] < N,
        cost_spec(opt@) <= i32::MAX,
    ensures
        c == cost_spec(opt@),
{
    let mut c: i32 = 0;
    let mut k: usize = 0;
    while k < opt.len()
        invariant
            k <= opt@.len(),
            forall|j: int| 0 <= j < opt@.len() ==> opt@[j] < N,
            cost_spec(opt@) <= i32::MAX,
            c == cost_spec(opt@.take(k as int)),
        decreases opt@.len() - k,
    {
        proof {
            assert(opt@.take(k + 1).drop_last() =~= opt@.take(k as int));
            lemma_cost_prefix(opt@, k + 1);
        }
        c = c + PRICE[opt[k]];
        k = k + 1;
    }
    proof {
        assert(opt@.take(k as int) =~= opt@);
    }
    c
}

proof fn lemma_cost_prefix(o: Seq<usize>, k: int)
    requires
        0 <= k <= o.len(),
        forall|j: int| 0 <= j < o.len() ==> o[j] < 18,
    ensures
        cost_spec(o.take(k)) <= cost_spec(o),
    decreases o.len() - k,
{
    if k < o.len() {
        lemma_cost_prefix(o, k + 1);
        assert(o.take(k + 1).drop_last() =~= o.take(k));
    } else {
        assert(o.take(k) =~= o);
    }
}

/// How many times chip type `i` occurs in a purchase.
pub open spec fn count_in(o: Seq<usize>, i: int) -> int
    decreases o.len(),
{
    if o.len() == 0 {
        0
    } else {
        count_in(o.drop_last(), i) + if o.last() == i { 1int } else { 0 }
    }
}

/// The bag after a purchase: one more chip of each type bought.
pub fn apply(bag: &Bag, opt: &[usize]) -> (b: Bag)
    requires
        forall|k: int| 0 <= k < opt@.len() ==> opt@[k] < N,
        forall|i: int| 0 <= i < 18 ==> bag@[i] + count_in(opt@, i) <= 255,
    ensures
        forall|i: int| 0 <= i < 18 ==> b@[i] == bag@[i] + count_in(opt@, i),
{
    let mut b = *bag;
    let mut k: usize = 0;
    while k < opt.len()
        invariant
            k <= opt@.len(),
            forall|j: int| 0 <= j < opt@.len() ==> opt@[j] < N,
            forall|i: int| 0 <= i < 18 ==> bag@[i] + count_in(opt@, i) <= 255,
            forall|i: int| 0 <= i < 18 ==> b@[i] == bag@[i] + count_in(opt@.take(k as int), i),
        decreases opt@.len() - k,
    {
        proof {
            assert(opt@.take(k + 1).drop_last() =~= opt@.take(k as int));
            assert forall|i: int| 0 <= i < 18 implies count_in(opt@.take(k + 1), i) <= count_in(opt@, i) by {
                lemma_count_prefix(opt@, k + 1, i);
            }
        }
        let i = opt[k];
        b[i] = b[i] + 1;
        k = k + 1;
    }
    proof {
        assert(opt@.take(k as int) =~= opt@);
    }
    b
}

proof fn lemma_count_prefix(o: Seq<usize>, k: int, i: int)
    requires
        0 <= k <= o.len(),
    ensures
        0 <= count_in(o.take(k), i) <= count_in(o, i),
    decreases o.len() - k,
{
    if k < o.len() {
        lemma_count_prefix(o, k + 1, i);
        assert(o.take(k + 1).drop_last() =~= o.take(k));
        lemma_count_nonneg(o.take(k), i);
    } else {
        assert(o.take(k) =~= o);
        lemma_count_nonneg(o, i);
    }
}

proof fn lemma_count_nonneg(o: Seq<usize>, i: int)
    ensures
        count_in(o, i) >= 0,
    decreases o.len(),
{
    if o.len() > 0 {
        lemma_count_nonneg(o.drop_last(), i);
    }
}

/// A restriction token selects chip type `i` when it is the chip's name or its colour letter.
pub open spec fn selects(tok: Seq<char>, i: int) -> bool {
    tok == chip_name(i) || tok == seq![COLOR@[i] as char]
}

/// Chip type `i` is selected by some comma-separated token of the upper-cased text.
pub open spec fn only_selects(text: Seq<char>, i: int) -> bool {
    let pieces = comma_pieces(upper_seq(text), 0, seq![]);
    exists|k: int| 0 <= k < pieces.len() && selects(trim_end(trim_start(#[trigger] pieces[k])), i)
}

proof fn lemma_set_bit(m: u32, i: u32, j: u32)
    requires
        i < 32,
        j < 32,
    ensures
        bit_set(m | (1u32 << i), j) == (bit_set(m, j) || j == i),
{
    assert(((m | (1u32 << i)) >> j) & 1u32 == 1u32 <==> (((m >> j) & 1u32 == 1u32) || j == i))
        by (bit_vector)
        requires
            i < 32,
            j < 32,
    ;
}

proof fn lemma_zero_bits(j: u32)
    requires
        j < 32,
    ensures
        !bit_set(0u32, j),
{
    assert(((0u32 >> j) & 1u32) != 1u32) by (bit_vector);
}

/// The chip types a restriction token selects, as bits.
fn piece_mask(tok: &Vec<char>) -> (m: u32)
    ensures
        forall|j: u32| j < 32 ==> (bit_set(m, j) <==> (j < 18 && selects(tok@, j as int))),
{
    let mut m: u32 = 0;
    proof {
        assert forall|j: u32| j < 32 implies !bit_set(m, j) by {
            lemma_zero_bits(j);
        }
    }
    let mut i: usize = 0;
    while i < N
        invariant
            i <= N,
            forall|j: u32| j < 32 ==> (bit_set(m, j) <==> (j < i && selects(tok@, j as int))),
        decreases N - i,
    {
        let c = COLOR[i] as char;
        let d = (VALUE[i] + 48) as char;
        let named = tok.len() == 2 && tok[0] == c && tok[1] == d;
        let coloured = tok.len() == 1 && tok[0] == c;
        proof {
            assert(named <==> tok@ == chip_name(i as int)) by {
                if tok@ == chip_name(i as int) {
                    assert(tok@[0] == c && tok@[1] == d);
                }
                if named {
                    assert(tok@ =~= chip_name(i as int));
                }
            }
            assert(coloured <==> tok@ == seq![c]) by {
                if coloured {
                    assert(tok@ =~= seq![c]);
                }
            }
        }
        let ghost old_m = m;
        if named || coloured {
            m = m | (1u32 << i as u32);
            proof {
                assert forall|j: u32| j < 32 implies bit_set(m, j) == (bit_set(old_m, j) || j == i) by {
                    lemma_set_bit(old_m, i as u32, j);
                }
            }
        }
        proof {
            assert forall|j: u32| j < 32 implies (bit_set(m, j) <==> (j < i + 1 && selects(tok@, j as int))) by {
                if j == i {
                    assert(selects(tok@, j as int) <==> (named || coloured));
                }
            }
        }
        i = i + 1;
    }
    m
}

/// Restrict the shop to the chip types that a comma-separated list names, by chip name
/// ("B2,B4") or colour letter ("B,O"), case-insensitively.
pub fn set_only(limits: &mut ShopLimits, spec: &str)
    ensures
        forall|j: u32| j < 32 ==> (bit_set(final(limits).allow, j) <==> (j < 18 && only_selects(spec@, j as int))),
        final(limits).max_orange == old(limits).max_orange,
        final(limits).max_black == old(limits).max_black,
{
    let cs = chars_of(spec);
    let u = to_upper(&cs);
    let ghost all = comma_pieces(u@, 0, seq![]);
    let mut m: u32 = 0;
    let mut cur: Vec<char> = Vec::new();
    let ghost mut done: Seq<Seq<char>> = seq![];
    proof {
        assert forall|j: u32| j < 32 implies !bit_set(m, j) by {
            lemma_zero_bits(j);
        }
    }
    let mut i: usize = 0;
    while i < u.len()
        invariant
            i <= u@.len(),
            u@ == upper_seq(spec@),
            all == comma_pieces(u@, 0, seq![]),
            all == done + comma_pieces(u@, i as int, cur@),
            forall|j: u32| j < 32 ==> (bit_set(m, j) <==> (j < 18 && exists|k: int|
                0 <= k < done.len() && selects(trim_end(trim_start(#[trigger] done[k])), j as int))),
        decreases u@.len() - i,
    {
        if u[i] == ',' {
            let t = trim_piece(&cur);
            let pm = piece_mask(&t);
            proof {
                assert(comma_pieces(u@, i as int, cur@) == seq![cur@] + comma_pieces(u@, i + 1, seq![]));
                assert(all =~= done.push(cur@) + comma_pieces(u@, i + 1, seq![]));
                assert forall|j: u32| j < 32 implies (bit_set(m | pm, j) <==> (j < 18 && exists|k: int|
                    0 <= k < done.len() + 1 && selects(trim_end(trim_start(#[trigger] done.push(cur@)[k])), j as int))) by {
                    lemma_or_bits(m, pm, j);
                    if j < 18 && exists|k: int| 0 <= k < done.len() && selects(trim_end(trim_start(#[trigger] done[k])), j as int) {
                        let k = choose|k: int| 0 <= k < done.len() && selects(trim_end(trim_start(#[trigger] done[k])), j as int);
                        assert(done.push(cur@)[k] == done[k]);
                    }
                    if j < 18 && selects(t@, j as int) {
                        assert(done.push(cur@)[done.len() as int] == cur@);
                    }
                    if exists|k: int| 0 <= k < done.len() + 1 && selects(trim_end(trim_start(#[trigger] done.push(cur@)[k])), j as int) {
                        let k = choose|k: int| 0 <= k < done.len() + 1 && selects(trim_end(trim_start(#[trigger] done.push(cur@)[k])), j as int);
                        if k < done.len() {
                            assert(done.push(cur@)[k] == done[k]);
                        }
                    }
                }
                done = done.push(cur@);
            }
            m = m | pm;
            cur = Vec::new();
        } else {
            proof {
                assert(comma_pieces(u@, i as int, cur@) == comma_pieces(u@, i + 1, cur@.push(u@[i as int])));
            }
            cur.push(u[i]);
        }
        i = i + 1;
    }
    let t = trim_piece(&cur);
    let pm = piece_mask(&t);
    let allow = m | pm;
    proof {
        assert(comma_pieces(u@, i as int, cur@) == seq![cur@]);
        assert(all =~= done.push(cur@));
        assert forall|j: u32| j < 32 implies (bit_set(allow, j) <==> (j < 18 && only_selects(spec@, j as int))) by {
            lemma_or_bits(m, pm, j);
            let pieces = comma_pieces(upper_seq(spec@), 0, seq![]);
            assert(pieces == all);
            if j < 18 && exists|k: int| 0 <= k < done.len() && selects(trim_end(trim_start(#[trigger] done[k])), j as int) {
                let k = choose|k: int| 0 <= k < done.len() && selects(trim_end(trim_start(#[trigger] done[k])), j as int);
                assert(pieces[k] == done[k]);
                assert(selects(trim_end(trim_start(pieces[k])), j as int));
                assert(only_selects(spec@, j as int));
            }
            if j < 18 && selects(t@, j as int) {
                let k = done.len() as int;
                assert(pieces[k] == cur@);
                assert(selects(trim_end(trim_start(pieces[k])), j as int));
                assert(only_selects(spec@, j as int));
            }
            if only_selects(spec@, j as int) {
                let k = choose|k: int| 0 <= k < all.len() && selects(trim_end(trim_start(#[trigger] all[k])), j as int);
                if k < done.len() {
                    assert(all[k] == done[k]);
                }
            }
        }
    }
    limits.allow = allow;
}

proof fn lemma_or_bits(a: u32, b: u32, j: u32)
    requires
        j < 32,
    ensures
        bit_set(a | b, j) == (bit_set(a, j) || bit_set(b, j)),
{
    assert((((a | b) >> j) & 1u32 == 1u32) == (((a >> j) & 1u32 == 1u32) || ((b >> j) & 1u32 == 1u32)))
        by (bit_vector)
        requires
            j < 32,
    ;
}

/// The ruby spends the shop weighs for one purchase, in order: each number of droplet steps
/// from `s` to `max`, first without a flask refill, then with one when the flask is empty and
/// two rubies are left after the steps. Each spend is (droplet steps, refill).
pub open spec fn ruby_spends(max: int, s: int, rubies: int, flask: bool) -> Seq<(int, bool)>
    decreases max + 1 - s,
{
    if s > max || s < 0 {
        seq![]
    } else {
        seq![(s, false)] + (if !flask && rubies - 2 * s >= 2 {
            seq![(s, true)]
        } else {
            seq![]
        }) + ruby_spends(max, s + 1, rubies, flask)
    }
}

/// Every (purchase, droplet steps, refill) the shop weighs, purchases from option `k` on.
pub open spec fn plans_from(opts: Seq<Seq<usize>>, k: int, rubies: int, flask: bool) -> Seq<(Seq<usize>, int, bool)>
    decreases opts.len() - k,
{
    if k >= opts.len() || k < 0 {
        seq![]
    } else {
        ruby_spends(trunc_half(rubies), 0, rubies, flask).map_values(|sr: (int, bool)| (opts[k], sr.0, sr.1))
            + plans_from(opts, k + 1, rubies, flask)
    }
}

/// Half of a number, rounded toward zero.
pub open spec fn trunc_half(a: int) -> int {
    if a >= 0 {
        a / 2
    } else {
        -((-a) / 2)
    }
}

/// A way to spend the round's coins and rubies, and the holdings it leaves.
pub struct ShopPlan {
    pub buy: Vec<usize>,
    pub steps: i32,
    pub refill: bool,
    pub bag: Bag,
    pub droplet: i32,
    pub rubies: i32,
    pub flask: bool,
}

pub open spec fn plan_view(p: ShopPlan) -> (Seq<usize>, int, bool) {
    (p.buy@, p.steps as int, p.refill)
}

pub open spec fn plans_view(v: Seq<ShopPlan>) -> Seq<(Seq<usize>, int, bool)> {
    v.map_values(|p: ShopPlan| plan_view(p))
}

proof fn lemma_plans_view_push(v: Seq<ShopPlan>, p: ShopPlan)
    ensures
        plans_view(v.push(p)) == plans_view(v).push(plan_view(p)),
{
    assert(plans_view(v.push(p)) =~= plans_view(v).push(plan_view(p)));
}

/// The holdings a plan leaves are those its purchase and spend give.
pub open spec fn plan_holdings_ok(p: ShopPlan, bag: Seq<u8>, droplet: int, rubies: int, flask: bool) -> bool {
    &&& forall|i: int| 0 <= i < 18 ==> #[trigger] p.bag@[i] == bag[i] + count_in(p.buy@, i)
    &&& p.droplet == droplet + p.steps
    &&& p.rubies == rubies - 2 * p.steps - (if p.refill { 2int } else { 0 })
    &&& p.flask == (flask || p.refill)
}

/// Every combination of a legal purchase with a ruby spend, in the order the shop weighs them
/// (purchases as `purchase_options` lists them; for each, droplet steps from none to as many
/// as the rubies pay for, without then with a flask refill), with the holdings each leaves.
pub fn shop_plans(
    bag: &Bag,
    coins: i32,
    rubies: i32,
    rnd: u32,
    droplet: i32,
    flask: bool,
    limits: &ShopLimits,
) -> (plans: Vec<ShopPlan>)
    requires
        forall|i: int| 0 <= i < 18 && buyable(bag@, coins, rnd, *limits, i) ==> bag@[i] < 255,
        droplet + trunc_half(rubies as int) <= i32::MAX,
    ensures
        plans_view(plans@) == plans_from(options_spec(bag@, coins, rnd, *limits), 0, rubies as int, flask),
        forall|k: int| 0 <= k < plans@.len() ==> plan_holdings_ok(#[trigger] plans@[k], bag@, droplet as int, rubies as int, flask),
{
    let opts = purchase_options(bag, coins, rnd, limits);
    let ghost ov = opts_view(opts@);
    proof {
        lemma_avail_facts(bag@, coins, rnd, *limits, 18);
    }
    let max_steps = rubies / 2;
    let mut plans: Vec<ShopPlan> = Vec::new();
    let mut k: usize = 0;
    while k < opts.len()
        invariant
            k <= opts@.len(),
            ov == opts_view(opts@),
            ov == options_spec(bag@, coins, rnd, *limits),
            max_steps == trunc_half(rubies as int),
            droplet + trunc_half(rubies as int) <= i32::MAX,
            forall|i: int| 0 <= i < 18 && buyable(bag@, coins, rnd, *limits, i) ==> bag@[i] < 255,
            plans_view(plans@) + plans_from(ov, k as int, rubies as int, flask) == plans_from(ov, 0, rubies as int, flask),
            forall|j: int| 0 <= j < plans@.len() ==> plan_holdings_ok(#[trigger] plans@[j], bag@, droplet as int, rubies as int, flask),
        decreases opts@.len() - k,
    {
        let o = &opts[k];
        proof {
            assert(ov[k as int] == o@);
            assert(options_spec(bag@, coins, rnd, *limits).contains(o@));
            lemma_options_are_legal(bag@, coins, rnd, *limits, o@);
            lemma_count_legal(bag@, coins, rnd, *limits, o@);
            assert forall|i: int| 0 <= i < 18 implies bag@[i] + count_in(o@, i) <= 255 by {
                if count_in(o@, i) > 0 {
                    assert(buyable(bag@, coins, rnd, *limits, i));
                }
            }
        }
        let b = apply(bag, o.as_slice());
        let ghost before = plans_view(plans@);
        let ghost spends = ruby_spends(max_steps as int, 0, rubies as int, flask);
        let ghost done_sp: Seq<(int, bool)> = seq![];
        let mut steps: i32 = 0;
        while steps <= max_steps
            invariant
                0 <= steps,
                steps <= max_steps + 1 || steps == 0,
                max_steps == trunc_half(rubies as int),
                droplet + trunc_half(rubies as int) <= i32::MAX,
                spends == ruby_spends(max_steps as int, 0, rubies as int, flask),
                done_sp + ruby_spends(max_steps as int, steps as int, rubies as int, flask) == spends,
                plans_view(plans@) == before + done_sp.map_values(|sr: (int, bool)| (o@, sr.0, sr.1)),
                forall|i: int| 0 <= i < 18 ==> #[trigger] b@[i] == bag@[i] + count_in(o@, i),
                forall|j: int| 0 <= j < plans@.len() ==> plan_holdings_ok(#[trigger] plans@[j], bag@, droplet as int, rubies as int, flask),
            decreases max_steps + 1 - steps,
        {
            let ghost sp_here = ruby_spends(max_steps as int, steps as int, rubies as int, flask);
            let p1 = ShopPlan {
                buy: o.clone(),
                steps,
                refill: false,
                bag: b,
                droplet: droplet + steps,
                rubies: rubies - 2 * steps,
                flask,
            };
            proof {
                lemma_plans_view_push(plans@, p1);
            }
            plans.push(p1);
            let ghost mut here: Seq<(int, bool)> = seq![(steps as int, false)];
            if !flask && rubies - 2 * steps >= 2 {
                let p2 = ShopPlan {
                    buy: o.clone(),
                    steps,
                    refill: true,
                    bag: b,
                    droplet: droplet + steps,
                    rubies: rubies - 2 * steps - 2,
                    flask: true,
                };
                proof {
                    lemma_plans_view_push(plans@, p2);
                    here = here.push((steps as int, true));
                }
                plans.push(p2);
            }
            proof {
                assert(sp_here == here + ruby_spends(max_steps as int, steps + 1, rubies as int, flask));
                assert(done_sp + here + ruby_spends(max_steps as int, steps + 1, rubies as int, flask)
                    =~= done_sp + sp_here);
                assert((done_sp + here).map_values(|sr: (int, bool)| (o@, sr.0, sr.1)) =~= done_sp.map_values(
                    |sr: (int, bool)| (o@, sr.0, sr.1),
                ) + here.map_values(|sr: (int, bool)| (o@, sr.0, sr.1)));
                done_sp = done_sp + here;
            }
            steps = steps + 1;
        }
        proof {
            assert(ruby_spends(max_steps as int, steps as int, rubies as int, flask) =~= seq![]);
            assert(done_sp + seq![] =~= done_sp);
            assert(done_sp =~= spends);
            assert(plans_from(ov, k as int, rubies as int, flask) == spends.map_values(
                |sr: (int, bool)| (ov[k as int], sr.0, sr.1),
            ) + plans_from(ov, k + 1, rubies as int, flask));
            assert(before + (spends.map_values(|sr: (int, bool)| (o@, sr.0, sr.1)) + plans_from(ov, k + 1, rubies as int, flask))
                =~= (before + spends.map_values(|sr: (int, bool)| (o@, sr.0, sr.1))) + plans_from(ov, k + 1, rubies as int, flask));
        }
        k = k + 1;
    }
    proof {
        assert(plans_from(ov, k as int, rubies as int, flask) =~= seq![]);
        assert(plans_view(plans@) + seq![] =~= plans_view(plans@));
    }
    plans
}

/// A legal purchase adds at most one chip of each type, and only buyable ones.
proof fn lemma_count_legal(bag: Seq<u8>, coins: i32, rnd: u32, limits: ShopLimits, o: Seq<usize>)
    requires
        legal_purchase(bag, coins, rnd, limits, o),
    ensures
        forall|k: int| 0 <= k < o.len() ==> o[k] < 18,
        forall|i: int| 0 <= i < 18 ==> 0 <= #[trigger] count_in(o, i) <= 1,
        forall|i: int| 0 <= i < 18 && count_in(o, i) > 0 ==> buyable(bag, coins, rnd, limits, i),
{
    assert forall|i: int| 0 <= i < 18 implies 0 <= #[trigger] count_in(o, i) <= 1 && (count_in(o, i) > 0
        ==> buyable(bag, coins, rnd, limits, i)) by {
        if o.len() == 0 {
        } else if o.len() == 1 {
            assert(o.drop_last() =~= Seq::<usize>::empty());
            assert(count_in(o.drop_last(), i) == 0);
            assert(count_in(o, i) == if o[0] == i { 1int } else { 0 });
        } else {
            assert(o.drop_last().drop_last() =~= Seq::<usize>::empty());
            assert(o.drop_last().last() == o[0]);
            assert(count_in(o.drop_last().drop_last(), i) == 0);
            assert(count_in(o.drop_last(), i) == if o[0] == i { 1int } else { 0 });
            assert(count_in(o, i) == (if o[0] == i { 1int } else { 0 }) + (if o[1] == i { 1int } else { 0 }));
        }
    }
}

/// A single chip is offered exactly when it has a price within the coins, its colour is
/// unlocked in round `rnd` (yellow from round 2, purple from round 3, the rest from round 1),
/// its bit is set in the allowed mask, and, for the orange and the black, the bag holds fewer
/// than the cap: the orange cap looks only at the oranges in the bag, the black cap only at the
/// blacks.
pub proof fn lemma_single_offers(bag: Seq<u8>, coins: i32, rnd: u32, limits: ShopLimits, i: usize)
    requires
        i < 18,
        bag.len() == 18,
    ensures
        options_spec(bag, coins, rnd, limits).contains(seq![i]) <==> {
            &&& PRICE@[i as int] > 0
            &&& PRICE@[i as int] <= coins
            &&& rnd >= 1
            &&& (COLOR@[i as int] == COLOR_Y ==> rnd >= 2)
            &&& (COLOR@[i as int] == COLOR_P ==> rnd >= 3)
            &&& (limits.allow >> (i as u32)) & 1u32 == 1u32
            &&& (i == 3 ==> bag[3] < limits.max_orange)
            &&& (i == 17 ==> bag[17] < limits.max_black)
        },
{
    lemma_options_are_legal(bag, coins, rnd, limits, seq![i]);
    assert(seq![i][0] == i);
    assert(COLOR@[3] == COLOR_O && COLOR@[17] == COLOR_K);
}

/// The ruby spends listed from `s0` on: every step count from `s0` to `max` without a refill,
/// and with a refill exactly when the flask is empty and two rubies are left after the steps.
proof fn lemma_ruby_spends_contains(max: int, s0: int, rubies: int, flask: bool, s: int, refill: bool)
    requires
        0 <= s0,
    ensures
        ruby_spends(max, s0, rubies, flask).contains((s, refill)) <==> (s0 <= s <= max && (refill
            ==> !flask && rubies - 2 * s >= 2)),
    decreases max + 1 - s0,
{
    let l = ruby_spends(max, s0, rubies, flask);
    if s0 <= max {
        lemma_ruby_spends_contains(max, s0 + 1, rubies, flask, s, refill);
        let head: Seq<(int, bool)> = seq![(s0, false)] + (if !flask && rubies - 2 * s0 >= 2 {
            seq![(s0, true)]
        } else {
            seq![]
        });
        let rest = ruby_spends(max, s0 + 1, rubies, flask);
        assert(l == head + rest);
        if l.contains((s, refill)) {
            let k = choose|k: int| 0 <= k < l.len() && l[k] == (s, refill);
            if k >= head.len() {
                assert(rest[k - head.len()] == (s, refill));
            }
        }
        if s0 <= s <= max && (refill ==> !flask && rubies - 2 * s >= 2) {
            if s == s0 {
                if refill {
                    assert(l[1] == (s, refill));
                } else {
                    assert(l[0] == (s, refill));
                }
            } else {
                let k = choose|k: int| 0 <= k < rest.len() && rest[k] == (s, refill);
                assert(l[head.len() + k] == (s, refill));
            }
        }
    }
}

proof fn lemma_plans_from_contains(opts: Seq<Seq<usize>>, k: int, rubies: int, flask: bool, o: Seq<usize>, s: int, refill: bool)
    requires
        0 <= k,
    ensures
        plans_from(opts, k, rubies, flask).contains((o, s, refill)) <==> (exists|j: int|
            k <= j < opts.len() && opts[j] == o) && ruby_spends(trunc_half(rubies), 0, rubies, flask).contains((s, refill)),
    decreases opts.len() - k,
{
    if k < opts.len() {
        lemma_plans_from_contains(opts, k + 1, rubies, flask, o, s, refill);
        let sp = ruby_spends(trunc_half(rubies), 0, rubies, flask);
        let head = sp.map_values(|sr: (int, bool)| (opts[k], sr.0, sr.1));
        let rest = plans_from(opts, k + 1, rubies, flask);
        let l = plans_from(opts, k, rubies, flask);
        assert(l == head + rest);
        if l.contains((o, s, refill)) {
            let m = choose|m: int| 0 <= m < l.len() && l[m] == (o, s, refill);
            if m < head.len() {
                assert(sp[m] == (s, refill));
            } else {
                assert(rest[m - head.len()] == (o, s, refill));
            }
        }
        if (exists|j: int| k <= j < opts.len() && opts[j] == o) && sp.contains((s, refill)) {
            if opts[k] == o {
                let m = choose|m: int| 0 <= m < sp.len() && sp[m] == (s, refill);
                assert(l[m] == head[m]);
            } else {
                let j = choose|j: int| k <= j < opts.len() && opts[j] == o;
                assert(k + 1 <= j);
                let m = choose|m: int| 0 <= m < rest.len() && rest[m] == (o, s, refill);
                assert(l[head.len() + m] == (o, s, refill));
            }
        }
    }
}

/// The shop plans pair every offered purchase with every ruby spend the rubies pay for: any
/// number of droplet steps up to half the rubies, each without a refill, and with a refill
/// exactly when the flask is empty and at least two rubies are left after the steps. (With
/// a negative ruby count, rounding toward zero leaves one plan per purchase when it is -1,
/// none otherwise.)
pub proof fn lemma_plans_are_the_ruby_spends(
    bag: Seq<u8>,
    coins: i32,
    rnd: u32,
    limits: ShopLimits,
    rubies: int,
    flask: bool,
    o: Seq<usize>,
    s: int,
    refill: bool,
)
    ensures
        rubies >= 0 ==> (plans_from(options_spec(bag, coins, rnd, limits), 0, rubies, flask).contains((o, s, refill))
            <==> (options_spec(bag, coins, rnd, limits).contains(o) && 0 <= s <= rubies / 2 && (refill ==> !flask
            && rubies - 2 * s >= 2))),
        rubies < 0 ==> (plans_from(options_spec(bag, coins, rnd, limits), 0, rubies, flask).contains((o, s, refill))
            <==> (options_spec(bag, coins, rnd, limits).contains(o) && rubies == -1 && s == 0 && !refill)),
{
    let opts = options_spec(bag, coins, rnd, limits);
    lemma_plans_from_contains(opts, 0, rubies, flask, o, s, refill);
    lemma_ruby_spends_contains(trunc_half(rubies), 0, rubies, flask, s, refill);
    assert((exists|j: int| 0 <= j < opts.len() && opts[j] == o) <==> opts.contains(o));
}

} // verus!
