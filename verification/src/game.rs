//! One player's game: the random source that draws chips and rolls the die, the player's
//! holdings, and the end-of-round bookkeeping (chip effects, keep-VP-or-coins, bonus die, shop,
//! final cash-out).

use vstd::prelude::*;
use crate::data::{
    Bag, DIE, EXTRA_WHITE_ROUND, I_K, I_O, I_P, I_W1, N, rat_tails, rat_tails_spec, bag_total, lemma_prefix_total_mono, lemma_prefix_total_take_one, prefix_total, starting_bag, total,
    track_entry, track_i,
};
use crate::solver::{Brew, State};
use crate::solver::{npow, lemma_npow_grows, lemma_npow_le, lemma_npow_split};

verus! {

pub open spec fn two_64() -> nat {
    0x1_0000_0000_0000_0000
}

/// 2^53: the significand range of a double.
pub const TWO_53: u128 = 0x20_0000_0000_0000;

/// The seed mixing of the generator: seed * 0x9E3779B97F4A7C15 + 0xD1B54A32D192ED03 (mod 2^64),
/// with the low bit set.
pub open spec fn seed_state(seed: u64) -> u64 {
    (((((seed as nat * 0x9E3779B97F4A7C15) % two_64()) + 0xD1B54A32D192ED03) % two_64()) as u64) | 1
}

/// One xorshift step: x ^= x << 13; x ^= x >> 7; x ^= x << 17.
pub open spec fn xorshift(x: u64) -> u64 {
    let a = x ^ (x << 13u64);
    let b = a ^ (a >> 7u64);
    b ^ (b << 17u64)
}

/// The number handed out for a generator state: the state times 0x2545F4914F6CDD1D (mod 2^64).
pub open spec fn scramble(x: u64) -> u64 {
    ((x as nat * 0x2545F4914F6CDD1D) % two_64()) as u64
}

/// The number of binary digits of p.
pub open spec fn bit_len(p: nat) -> nat
    decreases p,
{
    if p == 0 {
        0
    } else {
        1 + bit_len(p / 2)
    }
}

/// p rounded to 53 significant binary digits, ties to the even significand: how a double
/// stores a product of integers.
pub open spec fn round53(p: nat) -> nat {
    if p < TWO_53 {
        p
    } else {
        let s = (bit_len(p) - 53) as nat;
        let unit = npow(2, s);
        let q = p / unit;
        let r = p % unit;
        let half = unit / 2;
        let q2 = if r > half || (r == half && q % 2 == 1) {
            q + 1
        } else {
            q
        };
        q2 * unit
    }
}

/// floor(u * n) for the unit-interval double u = m / 2^53.
pub open spec fn scaled_below(m: nat, n: nat) -> nat {
    round53(m * n) / (TWO_53 as nat)
}

proof fn lemma_bit_len_upper(p: nat, k: nat)
    requires
        p < npow(2, k),
    ensures
        bit_len(p) <= k,
    decreases k,
{
    if p > 0 {
        if k == 0 {
            assert(false);
        } else {
            assert(p / 2 < npow(2, (k - 1) as nat));
            lemma_bit_len_upper(p / 2, (k - 1) as nat);
        }
    }
}

proof fn lemma_bit_len_lower(p: nat, k: nat)
    requires
        p >= npow(2, k),
    ensures
        bit_len(p) >= k + 1,
    decreases k,
{
    lemma_npow_grows(2, k);
    if k > 0 {
        assert(p / 2 >= npow(2, (k - 1) as nat));
        lemma_bit_len_lower(p / 2, (k - 1) as nat);
    }
}

/// The top binary digit of a positive p has weight 2^(bit_len(p) - 1).
proof fn lemma_bit_len_top(p: nat)
    requires
        p > 0,
    ensures
        bit_len(p) >= 1,
        npow(2, (bit_len(p) - 1) as nat) <= p,
    decreases p,
{
    if p / 2 > 0 {
        lemma_bit_len_top(p / 2);
        let e = (bit_len(p / 2) - 1) as nat;
        assert(npow(2, e + 1) == 2 * npow(2, e));
        assert((bit_len(p) - 1) as nat == e + 1);
    } else {
        assert(bit_len(p / 2) == 0);
    }
}

proof fn lemma_two_53()
    ensures
        npow(2, 53) == TWO_53,
        npow(2, 86) == 0x40_0000_0000_0000_0000_0000,
{
    reveal_with_fuel(npow, 87);
}

/// The double product of a unit-interval double m / 2^53 and a count n, truncated, is below n.
pub proof fn lemma_scaled_below_lt(m: nat, n: nat)
    requires
        m < TWO_53,
        n >= 1,
    ensures
        scaled_below(m, n) < n,
{
    let d = TWO_53 as nat;
    let p = m * n;
    assert(p <= d * n - n) by (nonlinear_arith)
        requires
            m < d,
            p == m * n,
            n >= 1,
    ;
    if p < d {
        assert(p / d < n) by (nonlinear_arith)
            requires
                p < d * n,
                d > 0,
        ;
    } else {
        lemma_two_53();
        lemma_bit_len_lower(p, 53);
        lemma_bit_len_top(p);
        let l = bit_len(p);
        let s = (l - 53) as nat;
        let unit = npow(2, s);
        let half = unit / 2;
        lemma_npow_split(2, (s - 1) as nat, 53);
        assert((s - 1) as nat + 53 == (l - 1) as nat);
        assert(unit == 2 * npow(2, (s - 1) as nat));
        assert(half == npow(2, (s - 1) as nat));
        assert(half * d <= p);
        assert(half < n) by (nonlinear_arith)
            requires
                half * d <= p,
                p < d * n,
                d > 0,
        ;
        let q = p / unit;
        let r = p % unit;
        lemma_npow_grows(2, s);
        vstd::arithmetic::div_mod::lemma_fundamental_div_mod(p as int, unit as int);
        let rounded = round53(p);
        assert(rounded <= p + half) by {
            if r > half || (r == half && q % 2 == 1) {
                assert(rounded == (q + 1) * unit);
                assert((q + 1) * unit == q * unit + unit) by (nonlinear_arith);
            } else {
                assert(rounded == q * unit);
            }
        }
        assert(rounded / d < n) by (nonlinear_arith)
            requires
                rounded < d * n,
                d > 0,
        ;
    }
}

/// round53 of a product below 2^86.
fn round_double(p: u128) -> (r: u128)
    requires
        p < 0x40_0000_0000_0000_0000_0000,
    ensures
        r == round53(p as nat),
{
    if p < TWO_53 {
        return p;
    }
    let mut t = p;
    let mut b: u32 = 0;
    proof {
        lemma_two_53();
        lemma_bit_len_upper(p as nat, 86);
        lemma_bit_len_lower(p as nat, 53);
    }
    while t > 0
        invariant
            bit_len(p as nat) == b + bit_len(t as nat),
            bit_len(p as nat) <= 86,
        decreases t,
    {
        t = t / 2;
        b = b + 1;
    }
    let s = b - 53;
    let mut unit: u128 = 1;
    let mut j: u32 = 0;
    while j < s
        invariant
            j <= s,
            s <= 33,
            unit == npow(2, j as nat),
        decreases s - j,
    {
        proof {
            lemma_npow_le(2, j as nat, 33);
            reveal_with_fuel(npow, 34);
        }
        unit = unit * 2;
        j = j + 1;
    }
    proof {
        lemma_npow_grows(2, s as nat);
    }
    let q = p / unit;
    let r = p % unit;
    let half = unit / 2;
    let q2 = if r > half || (r == half && q % 2 == 1) {
        q + 1
    } else {
        q
    };
    proof {
        lemma_npow_le(2, s as nat, 33);
        reveal_with_fuel(npow, 34);
        assert(q2 * unit <= (q + 1) * unit) by (nonlinear_arith)
            requires
                q2 <= q + 1,
        ;
        assert((q + 1) * unit == q * unit + unit) by (nonlinear_arith);
        vstd::arithmetic::div_mod::lemma_fundamental_div_mod(p as int, unit as int);
        assert(npow(2, 33) == 0x2_0000_0000);
        assert(unit <= 0x2_0000_0000);
        assert(q * unit == unit * q) by (nonlinear_arith);
        assert(q * unit <= p);
        assert(q2 * unit <= p + unit);
    }
    q2 * unit
}

/// A seeded generator never starts in the all-zero state.
pub proof fn lemma_seed_state_nonzero(seed: u64)
    ensures
        seed_state(seed) != 0,
{
    let a = ((((seed as nat * 0x9E3779B97F4A7C15) % two_64()) + 0xD1B54A32D192ED03) % two_64()) as u64;
    assert((a | 1u64) != 0u64) by (bit_vector);
}

/// A xorshift step maps a nonzero state to a nonzero state, so the generator never reaches the
/// all-zero state, where it would stay forever.
pub proof fn lemma_xorshift_nonzero(x: u64)
    requires
        x != 0,
    ensures
        xorshift(x) != 0,
{
    assert(x != 0u64 ==> ((x ^ (x << 13u64)) ^ ((x ^ (x << 13u64)) >> 7u64)) ^ (((x ^ (x << 13u64)) ^ ((x
        ^ (x << 13u64)) >> 7u64)) << 17u64) != 0u64) by (bit_vector);
}

/// Multiplying by the odd constant of `scramble` maps a nonzero state to a nonzero number.
pub proof fn lemma_scramble_nonzero(x: u64)
    requires
        x != 0,
    ensures
        scramble(x) != 0,
{
    assert(((x as u128) * 0x2545F4914F6CDD1D) % 0x1_0000_0000_0000_0000 != 0) by (bit_vector)
        requires
            x != 0u64,
    ;
}

/// The generator state after `n` steps.
pub open spec fn xorshift_n(x: u64, n: nat) -> u64
    decreases n,
{
    if n == 0 {
        x
    } else {
        xorshift(xorshift_n(x, (n - 1) as nat))
    }
}

/// The draw value the step from `state` produces for a bag of `n` chips: the position, in the
/// bag laid out type by type, of the chip drawn.
pub open spec fn draw_position(state: u64, n: nat) -> nat {
    scaled_below((scramble(xorshift(state)) >> 11u64) as nat, n)
}

/// The chip at position `r` of the bag laid out type by type is of type `i`.
pub open spec fn chip_at(bag: Seq<u8>, r: int, i: int) -> bool {
    &&& 0 <= i < 18
    &&& prefix_total(bag, i) <= r < prefix_total(bag, i + 1)
    &&& bag[i] > 0
}

/// The bag after one chip of each type in `picks` has been taken out.
pub open spec fn bag_without(bag: Seq<u8>, picks: Seq<usize>) -> Seq<u8>
    decreases picks.len(),
{
    if picks.len() == 0 {
        bag
    } else {
        let b = bag_without(bag, picks.drop_last());
        let i = picks.last() as int;
        b.update(i, (b[i] - 1) as u8)
    }
}

/// A xorshift64* random source.
pub struct Rng(u64);

impl Rng {
    /// The generator is never in the all-zero state, where it would stay forever.
    #[verifier::type_invariant]
    spec fn nonzero(self) -> bool {
        self.0 != 0
    }

    pub closed spec fn state(self) -> u64 {
        self.0
    }

    pub fn new(seed: u64) -> (r: Rng)
        ensures
            r.state() == seed_state(seed),
            r.state() != 0,
    {
        let a = seed.wrapping_mul(0x9E3779B97F4A7C15);
        let b = a.wrapping_add(0xD1B54A32D192ED03);
        proof {
            assert(b == (((seed as nat * 0x9E3779B97F4A7C15) % two_64()) + 0xD1B54A32D192ED03) % two_64());
            lemma_seed_state_nonzero(seed);
        }
        Rng(b | 1)
    }

    /// Advance the state by one xorshift step and return the scrambled state. Neither is ever
    /// zero, however many numbers were drawn before.
    pub fn next_u64(&mut self) -> (out: u64)
        ensures
            final(self).state() == xorshift(old(self).state()),
            out == scramble(xorshift(old(self).state())),
            old(self).state() != 0,
            final(self).state() != 0,
            out != 0,
    {
        proof {
            use_type_invariant(&*self);
            lemma_xorshift_nonzero(self.0);
            lemma_scramble_nonzero(xorshift(self.0));
        }
        let mut x = self.0;
        x = x ^ (x << 13u64);
        x = x ^ (x >> 7u64);
        x = x ^ (x << 17u64);
        self.0 = x;
        x.wrapping_mul(0x2545F4914F6CDD1D)
    }

    /// A whole number below `n`, drawn as the unit-interval double of the next 53 random bits
    /// times `n`, truncated.
    pub fn below(&mut self, n: u32) -> (r: u32)
        ensures
            final(self).state() == xorshift(old(self).state()),
            r == scaled_below((scramble(xorshift(old(self).state())) >> 11u64) as nat, n as nat),
            n > 0 ==> r < n,
    {
        let x = self.next_u64();
        let m = (x >> 11u64) as u128;
        proof {
            assert(x >> 11u64 < 0x20_0000_0000_0000u64) by (bit_vector);
            assert(m * (n as u128) <= 0x20_0000_0000_0000u128 * 0x1_0000_0000u128) by (nonlinear_arith)
                requires
                    m < 0x20_0000_0000_0000u128,
                    n <= 0xffff_ffffu32,
            ;
        }
        let p = m * n as u128;
        let rounded = round_double(p);
        proof {
            if n > 0 {
                lemma_scaled_below_lt(m as nat, n as nat);
            } else {
                assert(p == 0) by (nonlinear_arith)
                    requires
                        p == m * (n as u128),
                        n == 0,
                ;
            }
        }
        (rounded / TWO_53) as u32
    }

    /// Draw a chip type from the bag, each chip equally likely: the chip at the drawn position
    /// when the bag's chips are laid out type by type (the last type for an empty bag).
    pub fn pick_chip(&mut self, bag: &Bag) -> (i: usize)
        ensures
            final(self).state() == xorshift(old(self).state()),
            i < N,
            ({
                let r = scaled_below(
                    (scramble(xorshift(old(self).state())) >> 11u64) as nat,
                    bag_total(bag@) as nat,
                );
                if bag_total(bag@) > 0 {
                    &&& prefix_total(bag@, i as int) <= r < prefix_total(bag@, i + 1)
                    &&& bag@[i as int] > 0
                } else {
                    i == N - 1
                }
            }),
    {
        let n = total(bag);
        let r0 = self.below(n);
        let mut r = r0;
        let mut i: usize = 0;
        while i < N
            invariant
                i <= N,
                n == bag_total(bag@),
                r0 as int == r + prefix_total(bag@, i as int),
                n > 0 ==> r0 < n,
                n == 0 ==> r0 == 0,
                self.state() == xorshift(old(self).state()),
                r0 == scaled_below(
                    (scramble(xorshift(old(self).state())) >> 11u64) as nat,
                    bag_total(bag@) as nat,
                ),
            decreases N - i,
        {
            if r < bag[i] as u32 {
                proof {
                    lemma_prefix_total_mono(bag@, i + 1, 18);
                }
                return i;
            }
            r = r - bag[i] as u32;
            i = i + 1;
        }
        proof {
            assert(prefix_total(bag@, 18) == bag_total(bag@));
        }
        N - 1
    }

    /// The crow skull: draw `k` chips one after another without putting them back, and return
    /// their types in the order drawn.
    pub fn draw_many(&mut self, bag: &Bag, k: u32) -> (picks: Vec<usize>)
        requires
            k <= bag_total(bag@),
        ensures
            picks.len() == k,
            final(self).state() == xorshift_n(old(self).state(), k as nat),
            forall|j: int|
                0 <= j < k ==> {
                    let pool = #[trigger] bag_without(bag@, picks@.take(j));
                    chip_at(
                        pool,
                        draw_position(xorshift_n(old(self).state(), j as nat), bag_total(pool) as nat) as int,
                        picks@[j] as int,
                    )
                },
    {
        let mut pool = *bag;
        let mut picks: Vec<usize> = Vec::new();
        let mut j: u32 = 0;
        proof {
            assert(picks@ =~= picks@.take(0));
        }
        while j < k
            invariant
                j <= k,
                k <= bag_total(bag@),
                picks.len() == j,
                pool@ == bag_without(bag@, picks@),
                bag_total(pool@) == bag_total(bag@) - j,
                self.state() == xorshift_n(old(self).state(), j as nat),
                forall|t: int|
                    0 <= t < j ==> {
                        let p = #[trigger] bag_without(bag@, picks@.take(t));
                        chip_at(
                            p,
                            draw_position(xorshift_n(old(self).state(), t as nat), bag_total(p) as nat) as int,
                            picks@[t] as int,
                        )
                    },
            decreases k - j,
        {
            let ghost before = picks@;
            let ghost st = self.state();
            let i = self.pick_chip(&pool);
            proof {
                lemma_prefix_total_take_one(pool@, i as int, 18);
            }
            pool[i] = pool[i] - 1;
            picks.push(i);
            proof {
                assert(picks@.take(j as int) =~= before);
                assert(picks@.drop_last() =~= before);
                assert forall|t: int| 0 <= t < j + 1 implies {
                    let p = #[trigger] bag_without(bag@, picks@.take(t));
                    chip_at(
                        p,
                        draw_position(xorshift_n(old(self).state(), t as nat), bag_total(p) as nat) as int,
                        picks@[t] as int,
                    )
                } by {
                    if t < j {
                        assert(picks@.take(t) =~= before.take(t));
                    }
                }
            }
            j = j + 1;
        }
        proof {
            assert(picks@.take(k as int) =~= picks@);
        }
        picks
    }
}

/// Integer division rounding toward zero, as machine integers divide.
pub open spec fn trunc_div(a: int, d: int) -> int {
    if a >= 0 {
        a / d
    } else {
        -((-a) / d)
    }
}

/// The remainder that goes with `trunc_div`; it takes the sign of `a`.
pub open spec fn trunc_rem(a: int, d: int) -> int {
    a - d * trunc_div(a, d)
}

/// A player's holdings between rounds.
pub struct Player {
    pub bag: Bag,
    pub droplet: i32,
    pub rubies: i32,
    pub vp: i32,
    pub flask: bool,
}

/// A new player: the starting bag, droplet on space 0, no rubies, no points, flask full.
pub fn new_player() -> (p: Player)
    ensures
        p.bag@ == seq![4u8, 2, 1, 1, 1, 0, 0, 0, 0, 0, 0, 0, 0, 0, 0, 0, 0, 0],
        p.droplet == 0,
        p.rubies == 0,
        p.vp == 0,
        p.flask,
{
    Player { bag: starting_bag(), droplet: 0, rubies: 0, vp: 0, flask: true }
}

/// After round 9 the coins buy 1 VP per 5 and the rubies 1 VP per 2; an odd ruby is kept.
pub fn cash_out(p: &mut Player, coins: i32)
    requires
        i32::MIN <= old(p).vp + trunc_div(coins as int, 5) <= i32::MAX,
        old(p).vp + trunc_div(coins as int, 5) + trunc_div(old(p).rubies as int, 2) <= i32::MAX,
        old(p).vp + trunc_div(coins as int, 5) + trunc_div(old(p).rubies as int, 2) >= i32::MIN,
    ensures
        final(p).vp == old(p).vp + trunc_div(coins as int, 5) + trunc_div(old(p).rubies as int, 2),
        final(p).rubies == trunc_rem(old(p).rubies as int, 2),
        final(p).bag == old(p).bag,
        final(p).droplet == old(p).droplet,
        final(p).flask == old(p).flask,
{
    p.vp = p.vp + coins / 5 + p.rubies / 2;
    p.rubies = p.rubies % 2;
}

/// Everything a finished brew produced that the end of the round needs.
pub struct Outcome {
    /// the scoring space (the space after the last chip)
    pub space: usize,
    pub exploded: bool,
    /// coins, VP and ruby printed on the scoring space
    pub coins: i32,
    pub vp: i32,
    pub ruby: i32,
    /// greens among the last two chips placed
    pub greens: i32,
    pub purples: i32,
    pub blacks: i32,
    /// the flask is still full
    pub flask: bool,
}

impl Outcome {
    /// The counts are those a brew can produce.
    pub open spec fn wf(self) -> bool {
        &&& 0 <= self.coins <= 35
        &&& 0 <= self.vp <= 15
        &&& 0 <= self.ruby <= 1
        &&& 0 <= self.greens <= 2
        &&& 0 <= self.purples <= 255
        &&& 0 <= self.blacks <= 255
    }

    /// Read the outcome off the pot where the brew ended.
    pub fn from_state(brew: &Brew, s: &State, exploded: bool) -> (o: Outcome)
        requires
            s.bag@[I_P as int] <= brew.spec_n_p(),
            s.bag@[I_K as int] <= brew.spec_n_k(),
        ensures
            o.wf(),
            o.space == s.pos + 1,
            o.exploded == exploded,
            o.coins == track_entry(s.pos + 1).0,
            o.vp == track_entry(s.pos + 1).1,
            o.ruby == track_entry(s.pos + 1).2,
            o.greens == (if s.g1 { 1int } else { 0 }) + (if s.g2 { 1int } else { 0 }),
            o.purples == brew.spec_n_p() - s.bag@[I_P as int],
            o.blacks == brew.spec_n_k() - s.bag@[I_K as int],
            o.flask == s.flask,
    {
        let space = s.pos as usize + 1;
        let (coins, vp, ruby) = track_i(space);
        let (greens, purples, blacks) = brew.pot_counts(s);
        proof {
            let e = track_entry(space as int);
            assert(e.0 <= 35 && e.1 <= 15 && e.2 <= 1);
        }
        Outcome { space, exploded, coins, vp, ruby, greens, purples, blacks, flask: s.flask }
    }
}

/// VP from ghost's breath chips: 1 for one or two, 2 for three or more.
pub open spec fn purple_vp(purples: int) -> int {
    if purples >= 3 {
        2
    } else if purples >= 1 {
        1
    } else {
        0
    }
}

/// Two purples also pay a ruby.
pub open spec fn purple_ruby(purples: int) -> int {
    if purples == 2 {
        1
    } else {
        0
    }
}

/// Three or more purples move the droplet one space.
pub open spec fn purple_droplet(purples: int) -> int {
    if purples >= 3 {
        1
    } else {
        0
    }
}

/// VP, rubies and droplet steps the purples in a pot pay.
pub fn purple_bonus(purples: i32) -> (r: (i32, i32, i32))
    ensures
        r.0 == purple_vp(purples as int),
        r.1 == purple_ruby(purples as int),
        r.2 == purple_droplet(purples as int),
{
    if purples >= 3 {
        (2, 0, 1)
    } else if purples == 2 {
        (1, 1, 0)
    } else if purples == 1 {
        (1, 0, 0)
    } else {
        (0, 0, 0)
    }
}

/// VP of a bonus-die face (0 and 1 are the 1-VP and 2-VP faces).
pub open spec fn face_vp(face: u8) -> int {
    if face == 0 {
        1
    } else if face == 1 {
        2
    } else {
        0
    }
}

pub open spec fn b2i(b: bool) -> int {
    if b {
        1
    } else {
        0
    }
}

/// Rubies a round pays before the bonus die: the ruby space, greens in the last two chips,
/// two purples, and a black chip that beats both neighbours.
pub open spec fn round_rubies(o: Outcome, black_ruby: bool) -> int {
    o.ruby + o.greens + purple_ruby(o.purples as int) + b2i(black_ruby)
}

/// The rubies a round pays before the bonus die do not depend on whether the pot exploded:
/// the ruby on the scoring space and the greens among the last two chips are always paid, plus
/// one for exactly two purples and one for a black chip that beats both neighbours.
pub proof fn lemma_round_rubies_ignore_explosion(o: Outcome, black_ruby: bool)
    ensures
        round_rubies(o, black_ruby) == round_rubies(Outcome { exploded: !o.exploded, ..o }, black_ruby),
        round_rubies(o, black_ruby) == o.ruby + o.greens + (if o.purples == 2 { 1int } else { 0int })
            + (if black_ruby { 1int } else { 0int }),
{
}

/// Rubies a round pays before the bonus die.
pub fn rubies_gained(o: &Outcome, black: (bool, bool)) -> (r: i32)
    requires
        o.wf(),
    ensures
        r == round_rubies(*o, black.1),
{
    let mut rubies = o.ruby + o.greens;
    if o.purples == 2 {
        rubies = rubies + 1;
    }
    if black.1 {
        rubies = rubies + 1;
    }
    rubies
}

/// What the end of a round decided: coins for the shop, whether an exploded pot kept its
/// coins, and the bonus-die face if the die was rolled.
pub struct Settled {
    pub coins: i32,
    pub took_coins: bool,
    pub face: Option<u8>,
}

/// Apply a brewed round to the player: purple and black chip effects, keep VP or coins on an
/// explosion (`take_vp`), the bonus die if the player won it. Returns the coins for the shop.
pub fn settle(p: &mut Player, o: &Outcome, black: (bool, bool), won_die: bool, take_vp: bool, rng: &mut Rng) -> (r: Settled)
    requires
        o.wf(),
        old(p).vp + o.vp + 4 <= i32::MAX,
        old(p).rubies + 6 <= i32::MAX,
        old(p).droplet + 3 <= i32::MAX,
        !o.exploded && won_die ==> old(p).bag@[I_O as int] < 255,
    ensures
        r.face == (if !o.exploded && won_die {
            Some(DIE@[scaled_below((scramble(xorshift(old(rng).state())) >> 11u64) as nat, 6) as int])
        } else {
            None
        }),
        final(rng).state() == (if !o.exploded && won_die { xorshift(old(rng).state()) } else { old(rng).state() }),
        r.coins == (if o.exploded && take_vp { 0 } else { o.coins }),
        r.took_coins == (o.exploded && !take_vp),
        ({
            let f = r.face;
            let face_vp_gain = if f is Some { face_vp(f->0) } else { 0 };
            let kept_vp = if o.exploded && !take_vp { 0 } else { o.vp as int };
            &&& final(p).vp == old(p).vp + kept_vp + purple_vp(o.purples as int) + face_vp_gain
            &&& final(p).rubies == old(p).rubies + round_rubies(*o, black.1) + b2i(f == Some(2u8))
            &&& final(p).droplet == old(p).droplet + purple_droplet(o.purples as int) + b2i(black.0)
                + b2i(f == Some(3u8))
            &&& final(p).bag@ == if f is Some && f->0 >= 4 {
                old(p).bag@.update(I_O as int, (old(p).bag@[I_O as int] + 1) as u8)
            } else {
                old(p).bag@
            }
            &&& final(p).flask == o.flask
        }),
{
    let mut coins = o.coins;
    let mut vp = o.vp;
    let mut rubies = rubies_gained(o, black);
    let mut extra: i32 = 0;
    if o.purples >= 3 {
        extra = extra + 2;
        p.droplet = p.droplet + 1;
    } else if o.purples >= 1 {
        extra = extra + 1;
    }
    if black.0 {
        p.droplet = p.droplet + 1;
    }
    let mut bag_after = p.bag;
    let mut took_coins = false;
    let mut face: Option<u8> = None;
    if o.exploded {
        if take_vp {
            coins = 0;
        } else {
            vp = 0;
            took_coins = true;
        }
    } else if won_die {
        let roll = rng.below(6);
        let f = DIE[roll as usize];
        if f == 0 {
            extra = extra + 1;
        } else if f == 1 {
            extra = extra + 2;
        } else if f == 2 {
            rubies = rubies + 1;
        } else if f == 3 {
            p.droplet = p.droplet + 1;
        } else {
            bag_after[I_O] = bag_after[I_O] + 1;
        }
        face = Some(f);
    }
    p.vp = p.vp + vp + extra;
    p.rubies = p.rubies + rubies;
    p.flask = o.flask;
    p.bag = bag_after;
    Settled { coins, took_coins, face }
}

/// Before the brew of round 6 a white 1-chip is added to the bag.
pub fn start_round(p: &mut Player, rnd: u32)
    requires
        rnd == EXTRA_WHITE_ROUND ==> old(p).bag@[I_W1 as int] < 255,
    ensures
        final(p).bag@ == if rnd == EXTRA_WHITE_ROUND {
            old(p).bag@.update(I_W1 as int, (old(p).bag@[I_W1 as int] + 1) as u8)
        } else {
            old(p).bag@
        },
        final(p).droplet == old(p).droplet,
        final(p).rubies == old(p).rubies,
        final(p).vp == old(p).vp,
        final(p).flask == old(p).flask,
{
    if rnd == EXTRA_WHITE_ROUND {
        p.bag[I_W1] = p.bag[I_W1] + 1;
    }
}

/// Rat tails for a round: none in round 1, then the marks between the player and the leader.
pub fn round_rats(rnd: u32, my: i32, leader: i32) -> (r: u32)
    ensures
        r == if rnd >= 2 { rat_tails_spec(my as int, leader as int) } else { 0 },
{
    if rnd >= 2 {
        rat_tails(my, leader)
    } else {
        0
    }
}

/// Spend rubies after the shop: two per droplet step, and two more to refill the flask.
pub fn spend_rubies(p: &mut Player, steps: i32, refill: bool)
    requires
        0 <= steps,
        2 * steps <= i32::MAX,
        old(p).droplet + steps <= i32::MAX,
        old(p).rubies - 2 * steps - 2 >= i32::MIN,
    ensures
        final(p).droplet == old(p).droplet + steps,
        final(p).rubies == old(p).rubies - 2 * steps - if refill { 2int } else { 0 },
        final(p).flask == (old(p).flask || refill),
        final(p).bag == old(p).bag,
        final(p).vp == old(p).vp,
{
    p.droplet = p.droplet + steps;
    p.rubies = p.rubies - 2 * steps;
    if refill {
        p.rubies = p.rubies - 2;
        p.flask = true;
    }
}

/// Games per worker when `n` games are shared among `workers`: n / workers rounded up.
pub open spec fn block_size(n: int, workers: int) -> int {
    (n + workers - 1) / workers
}

/// The games worker `t` of `workers` plays out of `n`: those from the first to the second
/// number (none when the first is not below the second). Workers take consecutive blocks of
/// `block_size` games; the last block stops at `n`.
pub fn worker_share(n: usize, workers: usize, t: usize) -> (r: (usize, usize))
    requires
        0 < workers,
        t < workers,
        n + workers - 1 <= usize::MAX,
    ensures
        r.0 == t * block_size(n as int, workers as int),
        r.1 == if (t + 1) * block_size(n as int, workers as int) < n {
            (t + 1) * block_size(n as int, workers as int)
        } else {
            n as int
        },
{
    let per = (n + (workers - 1)) / workers;
    proof {
        let m = (n + workers - 1) as int;
        let w = workers as int;
        let q = per as int;
        vstd::arithmetic::div_mod::lemma_fundamental_div_mod(m, w);
        assert(w * q <= m);
        assert((t + 1) * q <= w * q) by (nonlinear_arith)
            requires
                t + 1 <= w,
                0 <= q,
        ;
        assert(t * q <= (t + 1) * q) by (nonlinear_arith)
            requires
                0 <= q,
                0 <= t,
        ;
    }
    let lo = t * per;
    let hi0 = (t + 1) * per;
    let hi = if hi0 < n { hi0 } else { n };
    (lo, hi)
}

/// Sharing games among workers: every game is played by exactly one worker.
pub proof fn lemma_worker_shares_partition(n: int, workers: int, i: int)
    requires
        0 < workers,
        0 <= i < n,
    ensures
        ({
            let per = block_size(n, workers);
            let t = i / per;
            &&& 0 <= t < workers
            &&& t * per <= i
            &&& i < (t + 1) * per
            &&& i < n
            &&& forall|t2: int| #![trigger t2 * per] 0 <= t2 < workers && t2 * per <= i && i < (t2 + 1) * per ==> t2 == t
        }),
{
    let per = block_size(n, workers);
    let m = n + workers - 1;
    vstd::arithmetic::div_mod::lemma_fundamental_div_mod(m, workers);
    // per >= 1 since n >= 1
    assert(per >= 1) by {
        vstd::arithmetic::div_mod::lemma_div_is_ordered(workers, m, workers);
        vstd::arithmetic::div_mod::lemma_div_basics(workers);
    }
    let t = i / per;
    vstd::arithmetic::div_mod::lemma_fundamental_div_mod(i, per);
    assert(t * per <= i < (t + 1) * per) by {
        assert(per * t == t * per) by (nonlinear_arith);
        assert((t + 1) * per == t * per + per) by (nonlinear_arith);
    }
    // workers * per >= n, so t < workers
    assert(workers * per > m - workers);
    assert(t < workers) by {
        if t >= workers {
            assert(t * per >= workers * per) by (nonlinear_arith)
                requires
                    t >= workers,
                    per >= 1,
            ;
        }
    }
    assert(0 <= t) by {
        vstd::arithmetic::div_mod::lemma_div_pos_is_pos(i, per);
    }
    assert forall|t2: int| #![trigger t2 * per] 0 <= t2 < workers && t2 * per <= i && i < (t2 + 1) * per implies t2 == t by {
        if t2 < t {
            assert((t2 + 1) * per <= t * per) by (nonlinear_arith)
                requires
                    t2 + 1 <= t,
                    per >= 1,
            ;
        } else if t2 > t {
            assert((t + 1) * per <= t2 * per) by (nonlinear_arith)
                requires
                    t + 1 <= t2,
                    per >= 1,
            ;
        }
    }
}

} // verus!
