//! The rules of one brew: the state of a pot while chips are drawn, how a drawn chip is placed
//! (explosion, pumpkin bonus, mandrake, flask), and the crow-skull reveal enumeration.

use vstd::prelude::*;
use crate::data::{Bag, bag_total, prefix_total, COLOR, COLOR_G, COLOR_R, COLOR_W, COLOR_Y, I_K, I_O, I_P, I_W, LAST, N, VALUE};

verus! {

/// Rotate a 64-bit word left by 5 bits.
pub open spec fn rotl5(h: u64) -> u64 {
    (h << 5u64) | (h >> 59u64)
}

/// One step of the multiplicative hash: rotate, mix in `x`, multiply by 0x517cc1b727220a95.
pub open spec fn fx_step(h: u64, x: u64) -> u64 {
    (((rotl5(h) ^ x) as nat * 0x517cc1b727220a95nat) % 0x1_0000_0000_0000_0000nat) as u64
}

/// The hash after mixing in the first `n` bytes one by one.
pub open spec fn fx_bytes(h: u64, bytes: Seq<u8>, n: int) -> u64
    decreases n,
{
    if n <= 0 {
        h
    } else {
        fx_step(fx_bytes(h, bytes, n - 1), bytes[n - 1] as u64)
    }
}

/// A small, fast multiplicative hasher for the solver's memo tables.
pub struct FxHasher(u64);

impl FxHasher {
    pub closed spec fn hash(self) -> u64 {
        self.0
    }

    /// A hasher in the initial state.
    pub fn new() -> (h: FxHasher)
        ensures
            h.hash() == 0,
    {
        FxHasher(0)
    }

    /// The hash so far.
    pub fn finish(&self) -> (r: u64)
        ensures
            r == self.hash(),
    {
        self.0
    }

    /// Mix in bytes, one step per byte.
    pub fn write(&mut self, bytes: &[u8])
        ensures
            final(self).hash() == fx_bytes(old(self).hash(), bytes@, bytes@.len() as int),
    {
        let mut k: usize = 0;
        while k < bytes.len()
            invariant
                k <= bytes@.len(),
                self.hash() == fx_bytes(old(self).hash(), bytes@, k as int),
            decreases bytes@.len() - k,
        {
            let b = bytes[k] as u64;
            let r = (self.0 << 5u64) | (self.0 >> 59u64);
            self.0 = (r ^ b).wrapping_mul(0x517cc1b727220a95);
            k = k + 1;
        }
    }

    /// Mix in a 64-bit word in one step.
    pub fn write_u64(&mut self, i: u64)
        ensures
            final(self).hash() == fx_step(old(self).hash(), i),
    {
        let r = (self.0 << 5u64) | (self.0 >> 59u64);
        self.0 = (r ^ i).wrapping_mul(0x517cc1b727220a95);
    }

    /// Mix in a 128-bit word: its low 64 bits, then its high 64 bits.
    pub fn write_u128(&mut self, i: u128)
        ensures
            final(self).hash() == fx_step(fx_step(old(self).hash(), i as u64), (i >> 64u128) as u64),
    {
        self.write_u64(i as u64);
        self.write_u64((i >> 64u128) as u64);
    }
}

/// The state of a pot during a brew.
#[derive(Clone, Copy, PartialEq, Eq, Hash)]
pub struct State {
    /// chips still in the bag
    pub bag: Bag,
    /// space of the last chip placed (or of the droplet / rat stone)
    pub pos: u8,
    /// sum of the white chips in the pot
    pub white: u8,
    /// value of the last chip placed if it was white, else 0
    pub lastw: u8,
    /// the last chip placed is green
    pub g1: bool,
    /// the next-to-last chip placed is green
    pub g2: bool,
    /// the flask is still available
    pub flask: bool,
}

/// The bag counts read as base-16 digits, first chip type most significant (each count taken
/// modulo 16).
pub open spec fn bag_digits(b: Seq<u8>, n: int) -> nat
    decreases n,
{
    if n <= 0 {
        0
    } else {
        bag_digits(b, n - 1) * 16 + (b[n - 1] % 16) as nat
    }
}

/// The bag counts' low four bits, packed first chip type highest.
pub open spec fn bag_key_bits(b: Seq<u8>, n: int) -> u128
    decreases n,
{
    if n <= 0 {
        0
    } else {
        (bag_key_bits(b, n - 1) << 4u128) | ((b[n - 1] as u128) & 15u128)
    }
}

/// The memo key's bits: the bag, then position, white sum, last white, green flags, flask
/// and depth, each shifted in after the previous fields.
pub open spec fn key_bits(s: State, d: u8) -> u128 {
    let k0 = bag_key_bits(s.bag@, 18);
    let k1 = (k0 << 6u128) | (s.pos as u128);
    let k2 = (k1 << 4u128) | (s.white as u128);
    let k3 = (k2 << 2u128) | (s.lastw as u128);
    let k4 = (k3 << 1u128) | (s.g1 as u128);
    let k5 = (k4 << 1u128) | (s.g2 as u128);
    let k6 = (k5 << 1u128) | (s.flask as u128);
    (k6 << 7u128) | (d as u128)
}

/// A state and a search depth packed into one number, field after field.
pub open spec fn key_num(s: State, d: u8) -> int {
    let b = bag_digits(s.bag@, 18) as int;
    let a = ((b * 64 + s.pos) * 16 + s.white) * 4 + s.lastw;
    let g = ((a * 2 + if s.g1 { 1int } else { 0 }) * 2 + if s.g2 { 1int } else { 0 }) * 2 + if s.flask { 1int } else { 0 };
    g * 128 + d
}

/// The fields fit the widths the key gives them.
pub open spec fn key_fits(s: State, d: u8) -> bool {
    &&& forall|i: int| 0 <= i < 18 ==> s.bag@[i] < 16
    &&& s.pos < 64
    &&& s.white < 16
    &&& s.lastw < 4
    &&& d < 128
}

proof fn lemma_shl_or_4(x: u128, y: u128)
    requires
        x < 0x1000_0000_0000_0000_0000_0000_0000,
        y < 16,
    ensures
        (x << 4) | y == x * 16 + y,
{
    assert((x << 4) | y == x * 16 + y) by (bit_vector)
        requires
            x < 0x1000_0000_0000_0000_0000_0000_0000,
            y < 16,
    ;
}

proof fn lemma_shl_or_6(x: u128, y: u128)
    requires
        x < 0x1000_0000_0000_0000_0000_0000_0000,
        y < 64,
    ensures
        (x << 6) | y == x * 64 + y,
{
    assert((x << 6) | y == x * 64 + y) by (bit_vector)
        requires
            x < 0x1000_0000_0000_0000_0000_0000_0000,
            y < 64,
    ;
}

proof fn lemma_shl_or_2(x: u128, y: u128)
    requires
        x < 0x1000_0000_0000_0000_0000_0000_0000,
        y < 4,
    ensures
        (x << 2) | y == x * 4 + y,
{
    assert((x << 2) | y == x * 4 + y) by (bit_vector)
        requires
            x < 0x1000_0000_0000_0000_0000_0000_0000,
            y < 4,
    ;
}

proof fn lemma_shl_or_1(x: u128, y: u128)
    requires
        x < 0x1000_0000_0000_0000_0000_0000_0000,
        y < 2,
    ensures
        (x << 1) | y == x * 2 + y,
{
    assert((x << 1) | y == x * 2 + y) by (bit_vector)
        requires
            x < 0x1000_0000_0000_0000_0000_0000_0000,
            y < 2,
    ;
}

proof fn lemma_shl_or_7(x: u128, y: u128)
    requires
        x < 0x1000_0000_0000_0000_0000_0000_0000,
        y < 128,
    ensures
        (x << 7) | y == x * 128 + y,
{
    assert((x << 7) | y == x * 128 + y) by (bit_vector)
        requires
            x < 0x1000_0000_0000_0000_0000_0000_0000,
            y < 128,
    ;
}

proof fn lemma_shl_or_5(x: u128, y: u128)
    requires
        x < 0x1000_0000_0000_0000_0000_0000_0000,
        y < 32,
    ensures
        (x << 5) | y == x * 32 + y,
{
    assert((x << 5) | y == x * 32 + y) by (bit_vector)
        requires
            x < 0x1000_0000_0000_0000_0000_0000_0000,
            y < 32,
    ;
}

proof fn lemma_shl_or_3(x: u128, y: u128)
    requires
        x < 0x1000_0000_0000_0000_0000_0000_0000,
        y < 8,
    ensures
        (x << 3) | y == x * 8 + y,
{
    assert((x << 3) | y == x * 8 + y) by (bit_vector)
        requires
            x < 0x1000_0000_0000_0000_0000_0000_0000,
            y < 8,
    ;
}

proof fn lemma_mask_15(x: u8)
    ensures
        (x as u128) & 15 == (x % 16) as u128,
{
    assert((x as u128) & 15 == (x % 16) as u128) by (bit_vector);
}

proof fn lemma_bag_digits_bound(b: Seq<u8>, n: int)
    requires
        0 <= n,
    ensures
        bag_digits(b, n) < npow(16, n as nat),
    decreases n,
{
    if n > 0 {
        lemma_bag_digits_bound(b, n - 1);
        let x = bag_digits(b, n - 1);
        let p = npow(16, (n - 1) as nat);
        let r = (b[n - 1] % 16) as nat;
        assert(x * 16 + r < p * 16) by (nonlinear_arith)
            requires
                x < p,
                r < 16,
        ;
    }
}

/// a * m + r == c * m + t with both remainders below m forces a == c and r == t.
proof fn lemma_digit_unique(a: int, r: int, c: int, t: int, m: int)
    requires
        0 <= r,
        0 <= t,
        0 <= a,
        0 <= c,
        r < m,
        t < m,
        a * m + r == c * m + t,
    ensures
        a == c,
        r == t,
{
    vstd::arithmetic::div_mod::lemma_fundamental_div_mod_converse(a * m + r, m, a, r);
    vstd::arithmetic::div_mod::lemma_fundamental_div_mod_converse(c * m + t, m, c, t);
}

proof fn lemma_bag_digits_unique(b1: Seq<u8>, b2: Seq<u8>, n: int)
    requires
        0 <= n,
        forall|i: int| 0 <= i < n ==> b1[i] < 16 && b2[i] < 16,
        bag_digits(b1, n) == bag_digits(b2, n),
    ensures
        forall|i: int| 0 <= i < n ==> b1[i] == b2[i],
    decreases n,
{
    if n > 0 {
        lemma_digit_unique(
            bag_digits(b1, n - 1) as int,
            (b1[n - 1] % 16) as int,
            bag_digits(b2, n - 1) as int,
            (b2[n - 1] % 16) as int,
            16,
        );
        lemma_bag_digits_unique(b1, b2, n - 1);
    }
}

/// Two states whose fields fit the key's widths get the same memo key only when they are the
/// same state at the same depth.
pub proof fn lemma_key_injective(s1: State, d1: u8, s2: State, d2: u8)
    requires
        key_fits(s1, d1),
        key_fits(s2, d2),
        key_num(s1, d1) == key_num(s2, d2),
    ensures
        s1.bag@ == s2.bag@,
        s1.pos == s2.pos,
        s1.white == s2.white,
        s1.lastw == s2.lastw,
        s1.g1 == s2.g1,
        s1.g2 == s2.g2,
        s1.flask == s2.flask,
        d1 == d2,
{
    let b1 = bag_digits(s1.bag@, 18) as int;
    let b2 = bag_digits(s2.bag@, 18) as int;
    let p1 = b1 * 64 + s1.pos;
    let p2 = b2 * 64 + s2.pos;
    let w1 = p1 * 16 + s1.white;
    let w2 = p2 * 16 + s2.white;
    let a1 = w1 * 4 + s1.lastw;
    let a2 = w2 * 4 + s2.lastw;
    let x1 = a1 * 2 + if s1.g1 { 1int } else { 0 };
    let x2 = a2 * 2 + if s2.g1 { 1int } else { 0 };
    let y1 = x1 * 2 + if s1.g2 { 1int } else { 0 };
    let y2 = x2 * 2 + if s2.g2 { 1int } else { 0 };
    let z1 = y1 * 2 + if s1.flask { 1int } else { 0 };
    let z2 = y2 * 2 + if s2.flask { 1int } else { 0 };
    lemma_digit_unique(z1, d1 as int, z2, d2 as int, 128);
    lemma_digit_unique(y1, if s1.flask { 1int } else { 0 }, y2, if s2.flask { 1int } else { 0 }, 2);
    lemma_digit_unique(x1, if s1.g2 { 1int } else { 0 }, x2, if s2.g2 { 1int } else { 0 }, 2);
    lemma_digit_unique(a1, if s1.g1 { 1int } else { 0 }, a2, if s2.g1 { 1int } else { 0 }, 2);
    lemma_digit_unique(w1, s1.lastw as int, w2, s2.lastw as int, 4);
    lemma_digit_unique(p1, s1.white as int, p2, s2.white as int, 16);
    lemma_digit_unique(b1, s1.pos as int, b2, s2.pos as int, 64);
    lemma_bag_digits_unique(s1.bag@, s2.bag@, 18);
    assert(s1.bag@ =~= s2.bag@);
}

impl State {
    /// The memo key of this state at search depth `d`: each bag count's low four bits, then
    /// the position (6 bits), white sum (4), last white (2), the two green flags, the flask and
    /// the depth (7), each field shifted left past the ones after it and or-ed in.
    pub fn key(&self, d: u8) -> (k: u128)
        ensures
            k == key_bits(*self, d),
            key_fits(*self, d) ==> k == key_num(*self, d),
    {
        let mut k: u128 = 0;
        let mut i: usize = 0;
        while i < N
            invariant
                i <= N,
                k == bag_key_bits(self.bag@, i as int),
                k == bag_digits(self.bag@, i as int),
            decreases N - i,
        {
            proof {
                lemma_bag_digits_bound(self.bag@, i as int);
                lemma_mask_15(self.bag@[i as int]);
                lemma_small_pow16(i as nat);
                lemma_shl_or_4(k, (self.bag@[i as int] % 16) as u128);
            }
            k = (k << 4) | (self.bag[i] as u128 & 15);
            i = i + 1;
        }
        let fits = self.pos < 64 && self.white < 16 && self.lastw < 4 && d < 128;
        proof {
            lemma_bag_digits_bound(self.bag@, 18);
            lemma_small_pow16(18);
            if fits {
                lemma_shl_or_6(k, self.pos as u128);
                let k1 = (k << 6) | self.pos as u128;
                lemma_shl_or_4(k1, self.white as u128);
                let k2 = (k1 << 4) | self.white as u128;
                lemma_shl_or_2(k2, self.lastw as u128);
                let k3 = (k2 << 2) | self.lastw as u128;
                lemma_shl_or_1(k3, self.g1 as u128);
                let k4 = (k3 << 1) | self.g1 as u128;
                lemma_shl_or_1(k4, self.g2 as u128);
                let k5 = (k4 << 1) | self.g2 as u128;
                lemma_shl_or_1(k5, self.flask as u128);
                let k6 = (k5 << 1) | self.flask as u128;
                lemma_shl_or_7(k6, d as u128);
            }
        }
        k = (k << 6) | self.pos as u128;
        k = (k << 4) | self.white as u128;
        k = (k << 2) | self.lastw as u128;
        k = (k << 1) | self.g1 as u128;
        k = (k << 1) | self.g2 as u128;
        k = (k << 1) | self.flask as u128;
        (k << 7) | d as u128
    }

    /// The same state with one chip of type `i` taken out of the bag.
    pub fn without(&self, i: usize) -> (s: State)
        requires
            i < N,
            self.bag@[i as int] > 0,
        ensures
            s == (State { bag: s.bag, ..*self }),
            s.bag@ == self.bag@.update(i as int, (self.bag@[i as int] - 1) as u8),
    {
        let mut s = *self;
        s.bag[i] = s.bag[i] - 1;
        s
    }
}

/// Pumpkin bonus of a red chip: +1 space with one or two oranges in the pot, +2 with three or more.
pub open spec fn red_bonus(oranges: int) -> int {
    if oranges >= 3 {
        2
    } else if oranges >= 1 {
        1
    } else {
        0
    }
}

/// A position on the track, clamped to the last space and stored as a byte.
pub open spec fn clamp_pos(p: int) -> u8 {
    (if p < LAST { p } else { LAST as int }) as u8
}

/// The bag, position, white sum and last-green flag before a chip is placed: when a mandrake
/// returns the white placed just before it, that white goes back into the bag and its spaces
/// and bombs are taken off the pot.
pub open spec fn before_place(s: State, ret_white: bool) -> (Seq<u8>, int, int, bool) {
    if ret_white {
        let w = I_W@[s.lastw as int] as int;
        (s.bag@.update(w, (s.bag@[w] + 1) as u8), s.pos - s.lastw, s.white - s.lastw, s.g2)
    } else {
        (s.bag@, s.pos as int, s.white as int, s.g1)
    }
}

/// `r` is the state after placing chip `i` (already out of `s.bag`) and whether the pot
/// exploded, for explosion limit `limit` and `n_o` oranges in the starting bag. A white chip
/// adds its value to the white sum and explodes the pot past the limit; a red chip moves one
/// extra space with one or two oranges in the pot and two with three or more; every chip
/// moves the marker by its value; the last-two-chips green flags shift along.
pub open spec fn placement(limit: i32, n_o: int, s: State, i: int, ret_white: bool, r: (State, bool)) -> bool {
    let (bag, pos, white, g1) = before_place(s, ret_white);
    let v = VALUE@[i] as int;
    &&& r.0.bag@ == bag
    &&& r.0.flask == s.flask
    &&& r.0.g2 == g1
    &&& if COLOR@[i] == COLOR_W {
        &&& r.0.pos == clamp_pos(pos + v)
        &&& r.0.white == (white + v) as u8
        &&& r.0.lastw == v
        &&& !r.0.g1
        &&& r.1 == (white + v > limit)
    } else {
        let moved = if COLOR@[i] == COLOR_R {
            v + red_bonus(n_o - bag[I_O as int])
        } else {
            v
        };
        &&& r.0.pos == clamp_pos(pos + moved)
        &&& r.0.white == white as u8
        &&& r.0.lastw == 0
        &&& r.0.g1 == (COLOR@[i] == COLOR_G)
        &&& !r.1
    }
}

/// Drawing chip type `i` next would explode the pot: it is a white that takes the white sum
/// past the limit.
pub open spec fn draw_explodes(limit: i32, s: State, i: int) -> bool {
    COLOR@[i] == COLOR_W && s.white + VALUE@[i] > limit
}

/// The chips of types below `n` whose draw would explode the pot.
pub open spec fn exploding_chips(limit: i32, s: State, n: int) -> int
    decreases n,
{
    if n <= 0 {
        0
    } else {
        exploding_chips(limit, s, n - 1) + if draw_explodes(limit, s, n - 1) {
            s.bag@[n - 1] as int
        } else {
            0
        }
    }
}

/// Drawing chip `i` from `s` (taking it out of the bag, giving `drawn`, and placing it)
/// explodes the pot exactly when `draw_explodes` says so.
pub proof fn lemma_draw_explodes(limit: i32, n_o: int, s: State, drawn: State, i: int, r: (State, bool))
    requires
        0 <= i < 18,
        drawn == (State { bag: drawn.bag, ..s }),
        placement(limit, n_o, drawn, i, false, r),
    ensures
        r.1 == draw_explodes(limit, s, i),
{
}

/// The explosion count is the number of chips in the bag whose draw would explode the pot,
/// so count / total is the chance that the next draw explodes it.
pub proof fn lemma_explode_count_exact(limit: i32, s: State)
    ensures
        exploding_chips(limit, s, 18) == (if s.white + 1 > limit { s.bag@[0] as int } else { 0 })
            + (if s.white + 2 > limit { s.bag@[1] as int } else { 0 })
            + (if s.white + 3 > limit { s.bag@[2] as int } else { 0 }),
{
    assert forall|n: int| 3 <= n <= 18 implies #[trigger] exploding_chips(limit, s, n) == exploding_chips(limit, s, 3) by {
        lemma_exploding_tail(limit, s, n);
    }
    reveal_with_fuel(exploding_chips, 4);
}

proof fn lemma_exploding_tail(limit: i32, s: State, n: int)
    requires
        3 <= n <= 18,
    ensures
        exploding_chips(limit, s, n) == exploding_chips(limit, s, 3),
    decreases n,
{
    if n > 3 {
        lemma_exploding_tail(limit, s, n - 1);
        assert(COLOR@[n - 1] != COLOR_W);
    }
}

proof fn lemma_no_exploding(limit: i32, s: State, n: int)
    requires
        0 <= n <= 18,
    ensures
        exploding_chips(limit, s, n) >= 0,
        exploding_chips(limit, s, n) == 0 ==> forall|j: int|
            0 <= j < n && s.bag@[j] > 0 ==> !draw_explodes(limit, s, j),
    decreases n,
{
    if n > 0 {
        lemma_no_exploding(limit, s, n - 1);
    }
}

/// When no chip left in the bag can explode the pot, any draw placed without a mandrake
/// return leaves it unexploded and moves the marker forward (it stays put only on the last
/// space): the rule behind always taking a draw that cannot explode.
pub proof fn lemma_safe_draw_moves_forward(limit: i32, n_o: int, s: State, drawn: State, i: int, r: (State, bool))
    requires
        0 <= i < 18,
        s.bag@[i] > 0,
        s.pos <= LAST,
        exploding_chips(limit, s, 18) == 0,
        drawn == (State { bag: drawn.bag, ..s }),
        placement(limit, n_o, drawn, i, false, r),
    ensures
        !r.1,
        s.pos <= r.0.pos,
        s.pos < LAST ==> s.pos < r.0.pos,
{
    lemma_no_exploding(limit, s, 18);
    lemma_draw_explodes(limit, n_o, s, drawn, i, r);
    assert(VALUE@[i] >= 1);
}

/// A red chip (placed without a mandrake return) moves its value plus a pumpkin bonus counted
/// from the oranges already in the pot: none with no orange, one extra space with one or two,
/// two with three or more; the marker stops on the last space. It never explodes the pot and
/// leaves the white sum alone.
pub proof fn lemma_red_chip_moves(limit: i32, n_o: int, s: State, i: int, r: (State, bool))
    requires
        0 <= i < 18,
        COLOR@[i] == COLOR_R,
        placement(limit, n_o, s, i, false, r),
    ensures
        ({
            let oranges = n_o - s.bag@[3];
            let extra = if oranges >= 3 { 2int } else if oranges >= 1 { 1int } else { 0int };
            let p = s.pos + VALUE@[i] + extra;
            r.0.pos == (if p < 53 { p } else { 53 })
        }),
        !r.1,
        r.0.white == s.white,
{
}

/// A mandrake returning the white placed just before it: compared with keeping the white, the
/// pot holds that white's value less in bombs and sits that many spaces back, and the white is
/// back in the bag.
pub proof fn lemma_mandrake_returns_white(
    limit: i32,
    n_o: int,
    s: State,
    i: int,
    keep: (State, bool),
    ret: (State, bool),
)
    requires
        0 <= i < 18,
        COLOR@[i] == COLOR_Y,
        1 <= s.lastw <= 3,
        s.lastw <= s.white,
        s.lastw <= s.pos,
        s.pos + VALUE@[i] < LAST,
        placement(limit, n_o, s, i, false, keep),
        placement(limit, n_o, s, i, true, ret),
    ensures
        !keep.1 && !ret.1,
        ret.0.white + s.lastw == keep.0.white,
        ret.0.pos + s.lastw == keep.0.pos,
        ret.0.bag@ == keep.0.bag@.update(
            I_W@[s.lastw as int] as int,
            (keep.0.bag@[I_W@[s.lastw as int] as int] + 1) as u8,
        ),
        ret.0.g2 == s.g2,
        keep.0.g2 == s.g1,
{
}

/// The fixed parameters of one brew: explosion limit, the bag the brew started from, and the
/// oranges, purples and blacks that bag held.
pub struct Brew {
    limit: i32,
    start_bag: Bag,
    n_o: i32,
    n_p: i32,
    n_k: i32,
    flask_full: bool,
    depth: u8,
}

impl Brew {
    /// The orange, purple and black counts are those of the starting bag.
    #[verifier::type_invariant]
    spec fn counts_match(self) -> bool {
        &&& self.n_o == self.start_bag@[I_O as int]
        &&& self.n_p == self.start_bag@[I_P as int]
        &&& self.n_k == self.start_bag@[I_K as int]
    }

    pub closed spec fn spec_limit(self) -> i32 {
        self.limit
    }

    pub closed spec fn spec_start_bag(self) -> Bag {
        self.start_bag
    }

    pub closed spec fn spec_flask_full(self) -> bool {
        self.flask_full
    }

    pub closed spec fn spec_depth(self) -> u8 {
        self.depth
    }

    /// Oranges in the starting bag.
    pub open spec fn spec_n_o(self) -> int {
        self.spec_start_bag()@[I_O as int] as int
    }

    /// Purples in the starting bag.
    pub open spec fn spec_n_p(self) -> int {
        self.spec_start_bag()@[I_P as int] as int
    }

    /// Blacks in the starting bag.
    pub open spec fn spec_n_k(self) -> int {
        self.spec_start_bag()@[I_K as int] as int
    }

    pub fn limit(&self) -> (r: i32)
        ensures
            r == self.spec_limit(),
    {
        self.limit
    }

    pub fn start_bag(&self) -> (r: Bag)
        ensures
            r == self.spec_start_bag(),
    {
        self.start_bag
    }

    pub fn flask_full(&self) -> (r: bool)
        ensures
            r == self.spec_flask_full(),
    {
        self.flask_full
    }

    pub fn depth(&self) -> (r: u8)
        ensures
            r == self.spec_depth(),
    {
        self.depth
    }

    pub fn new(limit: i32, start_bag: Bag, flask_full: bool, depth: u8) -> (b: Brew)
        ensures
            b.spec_limit() == limit,
            b.spec_start_bag() == start_bag,
            b.spec_flask_full() == flask_full,
            b.spec_depth() == depth,
    {
        Brew {
            limit,
            start_bag,
            n_o: start_bag[I_O] as i32,
            n_p: start_bag[I_P] as i32,
            n_k: start_bag[I_K] as i32,
            flask_full,
            depth,
        }
    }

    /// The state before the first draw: the first chip goes after the droplet, moved on by the
    /// rat tails.
    pub fn start(&self, droplet: i32, rats: u32) -> (s: State)
        requires
            (droplet as u32) as int + rats <= u32::MAX,
        ensures
            s.bag == self.spec_start_bag(),
            s.pos == clamp_pos((droplet as u32) + rats),
            s.white == 0,
            s.lastw == 0,
            !s.g1,
            !s.g2,
            s.flask == self.spec_flask_full(),
    {
        let p = droplet as u32 + rats;
        State {
            bag: self.start_bag,
            pos: (if p < LAST as u32 { p } else { LAST as u32 }) as u8,
            white: 0,
            lastw: 0,
            g1: false,
            g2: false,
            flask: self.flask_full,
        }
    }

    /// Greens among the last two chips, purples and blacks in the pot.
    pub fn pot_counts(&self, s: &State) -> (r: (i32, i32, i32))
        ensures
            r.0 == (if s.g1 { 1int } else { 0 }) + (if s.g2 { 1int } else { 0 }),
            r.1 == self.spec_n_p() - s.bag@[I_P as int],
            r.2 == self.spec_n_k() - s.bag@[I_K as int],
    {
        proof {
            use_type_invariant(self);
        }
        ((if s.g1 { 1 } else { 0 }) + (if s.g2 { 1 } else { 0 }), self.n_p - s.bag[I_P] as i32,
            self.n_k - s.bag[I_K] as i32)
    }
}

impl Brew {
    /// Place chip `i`, already taken out of `s.bag`. With `ret_white` (a mandrake drawn right
    /// after a white) the white placed just before goes back into the bag first. Returns the new
    /// state and whether the pot exploded.
    pub fn placed(&self, s: &State, i: usize, ret_white: bool) -> (r: (State, bool))
        requires
            i < N,
            ret_white ==> 1 <= s.lastw <= 3,
            ret_white ==> s.bag@[I_W@[s.lastw as int] as int] < 255,
        ensures
            placement(self.spec_limit(), self.spec_n_o(), *s, i as int, ret_white, r),
    {
        proof {
            use_type_invariant(self);
        }
        let c = COLOR[i];
        let mut v: i32 = VALUE[i] as i32;
        let mut bag = s.bag;
        let mut pos: i32 = s.pos as i32;
        let mut white: i32 = s.white as i32;
        let mut g1 = s.g1;
        if ret_white {
            let w = I_W[s.lastw as usize];
            bag[w] = bag[w] + 1;
            pos = pos - s.lastw as i32;
            white = white - s.lastw as i32;
            g1 = s.g2;
        }
        let last: i32 = LAST as i32;
        if c == COLOR_W {
            white = white + v;
            pos = pos + v;
            let st = State {
                bag,
                pos: (if pos < last { pos } else { last }) as u8,
                white: white as u8,
                lastw: v as u8,
                g1: false,
                g2: g1,
                flask: s.flask,
            };
            return (st, white > self.limit);
        }
        if c == COLOR_R {
            let o = self.n_o - bag[I_O] as i32;
            v = v + if o >= 3 {
                2
            } else if o >= 1 {
                1
            } else {
                0
            };
        }
        pos = pos + v;
        let st = State {
            bag,
            pos: (if pos < last { pos } else { last }) as u8,
            white: white as u8,
            lastw: 0,
            g1: c == COLOR_G,
            g2: g1,
            flask: s.flask,
        };
        (st, false)
    }

    /// Use the flask on a white chip just drawn from `sb`: the chip goes back, so the bag, the
    /// position and the white sum are those before the draw, and the flask is spent.
    pub fn use_flask(sb: &State) -> (s: State)
        ensures
            s == (State { flask: false, ..*sb }),
    {
        let mut s = *sb;
        s.flask = false;
        s
    }

    /// How many chips in the bag would explode the pot if drawn next.
    pub fn explode_count(&self, s: &State) -> (c: u32)
        ensures
            c == exploding_chips(self.spec_limit(), *s, 18),
            c == (if s.white + 1 > self.spec_limit() { s.bag@[0] as int } else { 0 })
                + (if s.white + 2 > self.spec_limit() { s.bag@[1] as int } else { 0 })
                + (if s.white + 3 > self.spec_limit() { s.bag@[2] as int } else { 0 }),
    {
        let mut c: u32 = 0;
        let mut v: usize = 1;
        while v <= 3
            invariant
                1 <= v <= 4,
                c == (if v > 1 && s.white + 1 > self.spec_limit() { s.bag@[0] as int } else { 0 })
                    + (if v > 2 && s.white + 2 > self.spec_limit() { s.bag@[1] as int } else { 0 })
                    + (if v > 3 && s.white + 3 > self.spec_limit() { s.bag@[2] as int } else { 0 }),
            decreases 4 - v,
        {
            if s.white as i32 + v as i32 > self.limit {
                c = c + s.bag[I_W[v]] as u32;
            }
            v = v + 1;
        }
        proof {
            lemma_explode_count_exact(self.limit, *s);
        }
        c
    }
}

/// The binomial coefficient C(n, k).
pub open spec fn binom(n: nat, k: nat) -> nat
    decreases n,
{
    if k == 0 {
        1
    } else if n == 0 {
        0
    } else {
        binom((n - 1) as nat, (k - 1) as nat) + binom((n - 1) as nat, k)
    }
}

pub proof fn lemma_binom_zero_above(n: nat, k: nat)
    requires
        k > n,
    ensures
        binom(n, k) == 0,
    decreases n,
{
    if n > 0 {
        lemma_binom_zero_above((n - 1) as nat, (k - 1) as nat);
        lemma_binom_zero_above((n - 1) as nat, k);
    }
}

/// k * C(m, k) == m * C(m - 1, k - 1)
pub proof fn lemma_binom_absorb(m: nat, k: nat)
    requires
        1 <= k,
        1 <= m,
    ensures
        k * binom(m, k) == m * binom((m - 1) as nat, (k - 1) as nat),
    decreases m,
{
    if m == 1 {
        if k == 1 {
            assert(binom(0, 0) == 1);
            assert(binom(1, 1) == binom(0, 0) + binom(0, 1));
        } else {
            lemma_binom_zero_above(1, k);
            lemma_binom_zero_above(0, (k - 1) as nat);
            assert(k * binom(m, k) == 0);
        }
    } else if k == 1 {
        lemma_binom_one(m);
        assert(binom((m - 1) as nat, 0) == 1);
    } else {
        let a = binom((m - 1) as nat, (k - 1) as nat);
        let b = binom((m - 1) as nat, k);
        let c = binom((m - 2) as nat, (k - 2) as nat);
        let d = binom((m - 2) as nat, (k - 1) as nat);
        assert(binom(m, k) == a + b);
        lemma_binom_absorb((m - 1) as nat, k);
        assert(k * b == (m - 1) * d);
        lemma_binom_absorb((m - 1) as nat, (k - 1) as nat);
        assert((k - 1) * a == (m - 1) * c);
        assert(a == c + d);
        assert(k * binom(m, k) == m * a) by (nonlinear_arith)
            requires
                binom(m, k) == a + b,
                k * b == (m - 1) * d,
                (k - 1) * a == (m - 1) * c,
                a == c + d,
        ;
    }
}

/// C(m, 1) == m
pub proof fn lemma_binom_one(m: nat)
    ensures
        binom(m, 1) == m,
    decreases m,
{
    if m > 0 {
        lemma_binom_one((m - 1) as nat);
        assert(binom((m - 1) as nat, 0) == 1);
    }
}

/// C(n - j, k - j) <= C(n, k)
pub proof fn lemma_binom_shrink(n: nat, k: nat, j: nat)
    requires
        j <= k,
        j <= n,
    ensures
        binom((n - j) as nat, (k - j) as nat) <= binom(n, k),
    decreases j,
{
    if j > 0 {
        lemma_binom_shrink(n, k, (j - 1) as nat);
        let n1 = (n - (j - 1)) as nat;
        let k1 = (k - (j - 1)) as nat;
        assert(binom(n1, k1) == binom((n1 - 1) as nat, (k1 - 1) as nat) + binom((n1 - 1) as nat, k1));
    }
}

/// The number of ways to choose `k` of `n` chips, C(n, k) (0 when k > n).
pub fn comb(n: u32, k: u32) -> (r: u64)
    requires
        k <= n ==> k * binom(n as nat, k as nat) <= u64::MAX,
    ensures
        r == binom(n as nat, k as nat),
{
    if k > n {
        proof {
            lemma_binom_zero_above(n as nat, k as nat);
        }
        return 0;
    }
    let mut r: u64 = 1;
    let mut i: u64 = 1;
    while i <= k as u64
        invariant
            1 <= i <= k + 1,
            k <= n,
            k * binom(n as nat, k as nat) <= u64::MAX,
            r == binom((n - k + i - 1) as nat, (i - 1) as nat),
        decreases k + 1 - i,
    {
        proof {
            let m = (n - k + i) as nat;
            lemma_binom_absorb(m, i as nat);
            lemma_binom_shrink(n as nat, k as nat, (k - i) as nat);
            assert(i * binom(m, i as nat) <= k * binom(n as nat, k as nat)) by (nonlinear_arith)
                requires
                    i <= k,
                    binom(m, i as nat) <= binom(n as nat, k as nat),
            ;
            assert(r * m == i * binom(m, i as nat)) by (nonlinear_arith)
                requires
                    i * binom(m, i as nat) == m * binom((m - 1) as nat, (i - 1) as nat),
                    r == binom((m - 1) as nat, (i - 1) as nat),
            ;
        }
        let t = r * (n as u64 - k as u64 + i);
        proof {
            let m = (n - k + i) as nat;
            assert(t == i * binom(m, i as nat));
            assert((t as int) / (i as int) == binom(m, i as nat)) by (nonlinear_arith)
                requires
                    t == i * binom(m, i as nat),
                    i >= 1,
            ;
        }
        r = t / i;
        i = i + 1;
    }
    r
}

proof fn lemma_small_pow16(n: nat)
    requires
        n <= 18,
    ensures
        npow(16, n) <= 0x1_0000_0000_0000_0000_0000,
{
    lemma_pow16_lt(n);
    reveal_with_fuel(npow, 19);
    assert(npow(16, 18) == 0x1_0000_0000_0000_0000_00);
}

proof fn lemma_pow16_lt(n: nat)
    requires
        n <= 18,
    ensures
        npow(16, n) <= npow(16, 18),
    decreases 18 - n,
{
    if n < 18 {
        lemma_pow16_lt(n + 1);
        lemma_npow_grows(16, n);
    }
}

/// n to the power k.
pub open spec fn npow(n: nat, k: nat) -> nat
    decreases k,
{
    if k == 0 {
        1
    } else {
        n * npow(n, (k - 1) as nat)
    }
}

proof fn lemma_npow_base_mono(a: nat, b: nat, k: nat)
    requires
        a <= b,
    ensures
        npow(a, k) <= npow(b, k),
    decreases k,
{
    if k > 0 {
        lemma_npow_base_mono(a, b, (k - 1) as nat);
        let x = npow(a, (k - 1) as nat);
        let y = npow(b, (k - 1) as nat);
        assert(a * x <= b * y) by (nonlinear_arith)
            requires
                a <= b,
                x <= y,
        ;
    }
}

pub proof fn lemma_npow_grows(n: nat, k: nat)
    requires
        n >= 1,
    ensures
        npow(n, k) >= 1,
        npow(n, k) <= npow(n, k + 1),
    decreases k,
{
    if k > 0 {
        lemma_npow_grows(n, (k - 1) as nat);
    }
    let x = npow(n, k);
    assert(x <= n * x) by (nonlinear_arith)
        requires
            n >= 1,
            x >= 0,
    ;
}

/// Powers of a base of at least one grow with the exponent.
pub proof fn lemma_npow_le(n: nat, a: nat, b: nat)
    requires
        n >= 1,
        a <= b,
    ensures
        npow(n, a) <= npow(n, b),
    decreases b - a,
{
    if a < b {
        lemma_npow_le(n, a + 1, b);
        lemma_npow_grows(n, a);
    }
}

pub proof fn lemma_npow_split(n: nat, a: nat, b: nat)
    ensures
        npow(n, a + b) == npow(n, a) * npow(n, b),
    decreases a,
{
    if a > 0 {
        lemma_npow_split(n, (a - 1) as nat, b);
        assert((a + b - 1) as nat == (a - 1) as nat + b);
        assert(npow(n, a + b) == n * npow(n, (a - 1) as nat + b));
        let x = npow(n, (a - 1) as nat);
        let y = npow(n, b);
        assert(n * (x * y) == (n * x) * y) by (nonlinear_arith);
        assert(npow(n, a) == n * x);
    } else {
        assert(npow(n, a) == 1);
        assert(npow(n, a + b) == npow(n, b));
    }
}

/// C(n, k) <= n^k
proof fn lemma_binom_le_pow(n: nat, k: nat)
    ensures
        binom(n, k) <= npow(n, k),
    decreases k,
{
    if k > 0 {
        if n == 0 {
            lemma_binom_zero_above(0, k);
        } else {
            lemma_binom_absorb(n, k);
            lemma_binom_le_pow((n - 1) as nat, (k - 1) as nat);
            lemma_npow_base_mono((n - 1) as nat, n, (k - 1) as nat);
            let b = binom(n, k);
            let c = binom((n - 1) as nat, (k - 1) as nat);
            let p = npow(n, (k - 1) as nat);
            assert(b <= n * p) by (nonlinear_arith)
                requires
                    k * b == n * c,
                    c <= p,
                    k >= 1,
            ;
        }
    }
}

/// The arithmetic of one crow-skull step stays within 64 bits.
proof fn lemma_combos_budget(c: nat, t: nat, k: nat, ways: nat)
    requires
        1 <= t <= c,
        t <= k,
        c <= 255,
        ways >= 1,
        ways * npow(256, k + 1) <= u64::MAX,
    ensures
        t * binom(c, t) <= u64::MAX,
        1 <= ways * binom(c, t),
        ways * binom(c, t) <= u64::MAX,
        ways * binom(c, t) * npow(256, (k - t) as nat + 1) <= u64::MAX,
{
    let b = binom(c, t);
    let p = npow(256, t);
    let q = npow(256, (k - t) as nat + 1);
    let big = npow(256, k + 1);
    lemma_binom_le_pow(c, t);
    lemma_npow_base_mono(c, 256, t);
    lemma_binom_shrink(c, t, t);
    assert(binom((c - t) as nat, 0) == 1);
    lemma_npow_split(256, t, (k - t) as nat + 1);
    assert(t + ((k - t) as nat + 1) == k + 1);
    lemma_npow_grows(256, (k - t) as nat);
    lemma_npow_grows(256, t);
    assert(q >= 256) by {
        assert(q == 256 * npow(256, (k - t) as nat));
    }
    assert(npow(256, t + 1) == 256 * p);
    assert(t * b <= 256 * p) by (nonlinear_arith)
        requires
            b <= p,
            t <= 255,
    ;
    assert(256 * p <= p * q) by (nonlinear_arith)
        requires
            q >= 256,
            p >= 0,
    ;
    assert(p * q <= ways * (p * q)) by (nonlinear_arith)
        requires
            ways >= 1,
            p * q >= 0,
    ;
    assert(ways * b >= 1) by (nonlinear_arith)
        requires
            ways >= 1,
            b >= 1,
    ;
    assert(ways * b * q <= ways * (p * q)) by (nonlinear_arith)
        requires
            b <= p,
            q >= 0,
            ways >= 0,
    ;
    assert(ways * b <= ways * b * q) by (nonlinear_arith)
        requires
            q >= 1,
            ways * b >= 0,
    ;
}

/// `t` copies of chip type `i` after `cur`.
pub open spec fn push_copies(cur: Seq<usize>, i: usize, t: nat) -> Seq<usize> {
    cur + Seq::new(t, |_j: int| i)
}

/// Every way to reveal `k` chips from the chip types `start..N` of `bag`, appended to `cur`, in
/// order of chip type then count; each reveal carries `ways` times the number of ways to pick it.
pub open spec fn combos_from(bag: Seq<u8>, k: nat, start: int, cur: Seq<usize>, ways: nat) -> Seq<
    (Seq<usize>, nat),
>
    decreases k, 2int, 0int, 0int,
{
    if k == 0 {
        seq![(cur, ways)]
    } else {
        combos_types(bag, k, start, cur, ways)
    }
}

/// The reveals whose first chip type beyond `cur` is `i` or later.
pub open spec fn combos_types(bag: Seq<u8>, k: nat, i: int, cur: Seq<usize>, ways: nat) -> Seq<
    (Seq<usize>, nat),
>
    decreases k, 1int, 18 - i, 0int,
{
    if k == 0 || i < 0 || i >= 18 {
        seq![]
    } else if bag[i] == 0 {
        combos_types(bag, k, i + 1, cur, ways)
    } else {
        combos_counts(bag, k, i, 1, cur, ways) + combos_types(bag, k, i + 1, cur, ways)
    }
}

/// The reveals that hold `t` or more chips of type `i` (and none of the types between `cur` and `i`).
pub open spec fn combos_counts(bag: Seq<u8>, k: nat, i: int, t: nat, cur: Seq<usize>, ways: nat) -> Seq<
    (Seq<usize>, nat),
>
    decreases k, 0int, 0int, k + 1 - t,
{
    if t < 1 || t > k || t > bag[i] || i < 0 {
        seq![]
    } else {
        combos_from(
            bag,
            (k - t) as nat,
            i + 1,
            push_copies(cur, i as usize, t),
            ways * binom(bag[i] as nat, t),
        ) + combos_counts(bag, k, i, t + 1, cur, ways)
    }
}

/// The reveals as sequences and counts.
pub open spec fn combos_view(out: Seq<(Vec<usize>, u64)>) -> Seq<(Seq<usize>, nat)> {
    out.map_values(|p: (Vec<usize>, u64)| (p.0@, p.1 as nat))
}

proof fn lemma_combos_view_push(out: Seq<(Vec<usize>, u64)>, x: (Vec<usize>, u64))
    ensures
        combos_view(out.push(x)) == combos_view(out).push((x.0@, x.1 as nat)),
{
    assert(combos_view(out.push(x)) =~= combos_view(out).push((x.0@, x.1 as nat)));
}

/// Append to `out` every multiset of `k` chips that can be drawn from the chip types `start..N`
/// of `bag`, each after the chips in `cur`, with `ways` times the number of ways to draw it.
pub fn combos(
    bag: &Bag,
    k: u32,
    start: usize,
    cur: &mut Vec<usize>,
    ways: u64,
    out: &mut Vec<(Vec<usize>, u64)>,
)
    requires
        start <= N,
        ways >= 1,
        ways * npow(256, k as nat + 1) <= u64::MAX,
    ensures
        final(cur)@ == old(cur)@,
        combos_view(final(out)@) == combos_view(old(out)@) + combos_from(
            bag@,
            k as nat,
            start as int,
            old(cur)@,
            ways as nat,
        ),
    decreases k,
{
    let ghost cur0 = cur@;
    let ghost out0 = combos_view(out@);
    if k == 0 {
        let c = cur.clone();
        proof {
            lemma_combos_view_push(out@, (c, ways));
        }
        out.push((c, ways));
        return ;
    }
    let ghost mut acc: Seq<(Seq<usize>, nat)> = seq![];
    let mut i: usize = start;
    while i < N
        invariant
            start <= i <= N,
            k >= 1,
            ways >= 1,
            ways * npow(256, k as nat + 1) <= u64::MAX,
            cur@ == cur0,
            combos_view(out@) == out0 + acc,
            combos_types(bag@, k as nat, start as int, cur0, ways as nat) == acc + combos_types(
                bag@,
                k as nat,
                i as int,
                cur0,
                ways as nat,
            ),
        decreases N - i,
    {
        let c = bag[i] as u32;
        if c == 0 {
            i = i + 1;
            continue;
        }
        let top = if c < k {
            c
        } else {
            k
        };
        let ghost mut inner: Seq<(Seq<usize>, nat)> = seq![];
        let mut t: u32 = 1;
        while t <= top
            invariant
                start <= i < N,
                c == bag@[i as int],
                c >= 1,
                k >= 1,
                top == if c < k { c } else { k },
                1 <= t <= top + 1,
                ways >= 1,
                ways * npow(256, k as nat + 1) <= u64::MAX,
                cur@ == push_copies(cur0, i, (t - 1) as nat),
                combos_view(out@) == out0 + acc + inner,
                combos_counts(bag@, k as nat, i as int, 1, cur0, ways as nat) == inner
                    + combos_counts(bag@, k as nat, i as int, t as nat, cur0, ways as nat),
            decreases top + 1 - t,
        {
            cur.push(i);
            proof {
                assert(cur@ =~= push_copies(cur0, i, t as nat));
                lemma_combos_budget(c as nat, t as nat, k as nat, ways as nat);
            }
            let w = comb(c, t);
            let w2 = ways * w;
            combos(bag, k - t, i + 1, cur, w2, out);
            proof {
                let piece = combos_from(
                    bag@,
                    (k - t) as nat,
                    i + 1,
                    push_copies(cur0, i, t as nat),
                    (ways * binom(c as nat, t as nat)) as nat,
                );
                assert(combos_counts(bag@, k as nat, i as int, t as nat, cur0, ways as nat) == piece
                    + combos_counts(bag@, k as nat, i as int, t as nat + 1, cur0, ways as nat));
                assert(out0 + acc + inner + piece =~= out0 + acc + (inner + piece));
                assert(inner + combos_counts(bag@, k as nat, i as int, t as nat, cur0, ways as nat)
                    =~= (inner + piece) + combos_counts(
                    bag@,
                    k as nat,
                    i as int,
                    t as nat + 1,
                    cur0,
                    ways as nat,
                ));
                inner = inner + piece;
            }
            t = t + 1;
        }
        proof {
            assert(combos_counts(bag@, k as nat, i as int, t as nat, cur0, ways as nat) =~= seq![]);
            assert(inner + seq![] =~= inner);
            assert(combos_types(bag@, k as nat, i as int, cur0, ways as nat) == combos_counts(
                bag@,
                k as nat,
                i as int,
                1,
                cur0,
                ways as nat,
            ) + combos_types(bag@, k as nat, i as int + 1, cur0, ways as nat));
            assert(acc + (inner + combos_types(bag@, k as nat, i as int + 1, cur0, ways as nat))
                =~= (acc + inner) + combos_types(bag@, k as nat, i as int + 1, cur0, ways as nat));
            assert(out0 + acc + inner =~= out0 + (acc + inner));
            acc = acc + inner;
        }
        let mut j: u32 = 0;
        while j < top
            invariant
                j <= top,
                top <= c,
                cur@ == push_copies(cur0, i, (top - j) as nat),
            decreases top - j,
        {
            cur.pop();
            proof {
                assert(cur@ =~= push_copies(cur0, i, (top - j - 1) as nat));
            }
            j = j + 1;
        }
        proof {
            assert(cur@ =~= cur0);
        }
        i = i + 1;
    }
    proof {
        assert(combos_types(bag@, k as nat, N as int, cur0, ways as nat) =~= seq![]);
        assert(acc + seq![] =~= acc);
    }
}

/// The chips of types `i..N` in a bag.
pub open spec fn tail_total(bag: Seq<u8>, i: int) -> nat
    decreases 18 - i,
{
    if i >= 18 || i < 0 {
        0
    } else {
        bag[i] as nat + tail_total(bag, i + 1)
    }
}

proof fn lemma_tail_prefix(bag: Seq<u8>, i: int)
    requires
        bag.len() == 18,
        0 <= i <= 18,
    ensures
        tail_total(bag, i) + prefix_total(bag, i) == prefix_total(bag, 18),
    decreases 18 - i,
{
    if i < 18 {
        lemma_tail_prefix(bag, i + 1);
    }
}

/// The total number of ways of a list of reveals.
pub open spec fn ways_sum(s: Seq<(Seq<usize>, nat)>) -> nat
    decreases s.len(),
{
    if s.len() == 0 {
        0
    } else {
        ways_sum(s.drop_last()) + s.last().1
    }
}

proof fn lemma_ways_sum_concat(a: Seq<(Seq<usize>, nat)>, b: Seq<(Seq<usize>, nat)>)
    ensures
        ways_sum(a + b) == ways_sum(a) + ways_sum(b),
    decreases b.len(),
{
    if b.len() == 0 {
        assert(a + b =~= a);
    } else {
        lemma_ways_sum_concat(a, b.drop_last());
        assert((a + b).drop_last() =~= a + b.drop_last());
    }
}

/// Sum over j from t to k of C(c, j) * C(m, k - j).
pub open spec fn vsum(c: nat, m: nat, k: nat, t: nat) -> nat
    decreases k + 1 - t,
{
    if t > k {
        0
    } else {
        binom(c, t) * binom(m, (k - t) as nat) + vsum(c, m, k, t + 1)
    }
}

proof fn lemma_vsum_zero_above(c: nat, m: nat, k: nat, t: nat)
    requires
        t > c,
    ensures
        vsum(c, m, k, t) == 0,
    decreases k + 1 - t,
{
    if t <= k {
        lemma_binom_zero_above(c, t);
        lemma_vsum_zero_above(c, m, k, t + 1);
    }
}

proof fn lemma_vsum_step(c: nat, m: nat, k: nat, t: nat)
    requires
        t >= 1,
        k >= 1,
    ensures
        vsum(c + 1, m, k, t) == vsum(c, m, k, t) + vsum(c, m, (k - 1) as nat, (t - 1) as nat),
    decreases k + 1 - t,
{
    if t <= k {
        lemma_vsum_step(c, m, k, t + 1);
        let a = binom(c, t);
        let b = binom(c, (t - 1) as nat);
        let x = binom(m, (k - t) as nat);
        assert(binom(c + 1, t) == b + a);
        assert((k - 1 - (t - 1)) as nat == (k - t) as nat);
        assert((b + a) * x == a * x + b * x) by (nonlinear_arith);
    }
}

/// Vandermonde's identity: choosing k of c + m items, by how many come from the first c.
pub proof fn lemma_vandermonde(c: nat, m: nat, k: nat)
    ensures
        vsum(c, m, k, 0) == binom(c + m, k),
    decreases c,
{
    if c == 0 {
        lemma_vsum_zero_above(0, m, k, 1);
        assert(vsum(0, m, k, 0) == binom(0, 0) * binom(m, k) + vsum(0, m, k, 1));
        assert(binom(m, k) * 1 == binom(m, k)) by (nonlinear_arith);
    } else {
        let c0 = (c - 1) as nat;
        lemma_vandermonde(c0, m, k);
        if k == 0 {
            assert(vsum(c, m, 0, 1) == 0);
            assert(vsum(c, m, 0, 0) == binom(c, 0) * binom(m, 0));
        } else {
            lemma_vandermonde(c0, m, (k - 1) as nat);
            lemma_vsum_step(c0, m, k, 1);
            assert(vsum(c, m, k, 0) == binom(c, 0) * binom(m, k) + vsum(c, m, k, 1));
            assert(vsum(c0, m, k, 0) == binom(c0, 0) * binom(m, k) + vsum(c0, m, k, 1));
            assert(binom(c + m, k) == binom((c + m - 1) as nat, (k - 1) as nat) + binom((c + m - 1) as nat, k));
            assert((c + m - 1) as nat == c0 + m);
        }
    }
}

proof fn lemma_combos_from_sum(bag: Seq<u8>, k: nat, start: int, cur: Seq<usize>, ways: nat)
    requires
        bag.len() == 18,
        0 <= start <= 18,
    ensures
        ways_sum(combos_from(bag, k, start, cur, ways)) == ways * binom(tail_total(bag, start), k),
    decreases k, 2int, 0int, 0int,
{
    if k == 0 {
        assert(ways_sum(seq![(cur, ways)]) == ways) by {
            let one = seq![(cur, ways)];
            assert(one.drop_last() =~= Seq::<(Seq<usize>, nat)>::empty());
            assert(ways_sum(Seq::<(Seq<usize>, nat)>::empty()) == 0);
            assert(one.last() == (cur, ways));
            assert(ways_sum(one) == ways_sum(one.drop_last()) + one.last().1);
        }
        assert(ways * 1 == ways) by (nonlinear_arith);
    } else {
        lemma_combos_types_sum(bag, k, start, cur, ways);
    }
}

proof fn lemma_combos_types_sum(bag: Seq<u8>, k: nat, i: int, cur: Seq<usize>, ways: nat)
    requires
        bag.len() == 18,
        0 <= i <= 18,
        k >= 1,
    ensures
        ways_sum(combos_types(bag, k, i, cur, ways)) == ways * binom(tail_total(bag, i), k),
    decreases k, 1int, 18 - i, 0int,
{
    if i >= 18 {
        lemma_binom_zero_above(0, k);
        assert(ways * 0 == 0) by (nonlinear_arith);
    } else if bag[i] == 0 {
        lemma_combos_types_sum(bag, k, i + 1, cur, ways);
    } else {
        let c = bag[i] as nat;
        let m = tail_total(bag, i + 1);
        lemma_combos_types_sum(bag, k, i + 1, cur, ways);
        lemma_combos_counts_sum(bag, k, i, 1, cur, ways);
        lemma_ways_sum_concat(combos_counts(bag, k, i, 1, cur, ways), combos_types(bag, k, i + 1, cur, ways));
        lemma_vandermonde(c, m, k);
        assert(vsum(c, m, k, 0) == binom(c, 0) * binom(m, k) + vsum(c, m, k, 1));
        let v1 = vsum(c, m, k, 1);
        let bm = binom(m, k);
        assert(ways * v1 + ways * bm == ways * (bm * 1 + v1)) by (nonlinear_arith);
    }
}

proof fn lemma_combos_counts_sum(bag: Seq<u8>, k: nat, i: int, t: nat, cur: Seq<usize>, ways: nat)
    requires
        bag.len() == 18,
        0 <= i < 18,
        k >= 1,
        t >= 1,
    ensures
        ways_sum(combos_counts(bag, k, i, t, cur, ways)) == ways * vsum(bag[i] as nat, tail_total(bag, i + 1), k, t),
    decreases k, 0int, 0int, k + 1 - t,
{
    let c = bag[i] as nat;
    let m = tail_total(bag, i + 1);
    if t > k {
        assert(ways * 0 == 0) by (nonlinear_arith);
    } else if t > c {
        lemma_vsum_zero_above(c, m, k, t);
        assert(ways * 0 == 0) by (nonlinear_arith);
    } else {
        let w = ways * binom(c, t);
        lemma_combos_from_sum(bag, (k - t) as nat, i + 1, push_copies(cur, i as usize, t), w);
        lemma_combos_counts_sum(bag, k, i, t + 1, cur, ways);
        lemma_ways_sum_concat(
            combos_from(bag, (k - t) as nat, i + 1, push_copies(cur, i as usize, t), w),
            combos_counts(bag, k, i, t + 1, cur, ways),
        );
        let x = binom(m, (k - t) as nat);
        let r = vsum(c, m, k, t + 1);
        let b = binom(c, t);
        assert(ways * b * x + ways * r == ways * (b * x + r)) by (nonlinear_arith);
    }
}

/// The crow-skull reveals of `k` chips from a bag are weighted by counts that add up to the
/// number of ways to draw `k` of its chips, C(n, k): every reveal's probability is its count
/// divided by C(n, k), and these probabilities sum to one.
pub proof fn lemma_reveal_weights_total(bag: Bag, k: nat)
    ensures
        ways_sum(combos_from(bag@, k, 0, seq![], 1)) == binom(bag_total(bag@) as nat, k),
{
    lemma_combos_from_sum(bag@, k, 0, seq![], 1);
    lemma_tail_prefix(bag@, 0);
    assert(prefix_total(bag@, 0) == 0);
    let b = binom(tail_total(bag@, 0), k);
    assert(1 * b == b) by (nonlinear_arith);
}

/// Largest ruby gain the payout table tells apart.
pub const RUBMAX: usize = 6;

/// Largest droplet gain the payout table tells apart.
pub const DDMAX: usize = 2;

/// The slot of (coins, rubies gained, droplet steps gained, flask used) in the payout table:
/// coins vary slowest, the flask flag fastest.
pub open spec fn pay_index_spec(c: int, r: int, d: int, fu: int) -> int {
    ((c * (RUBMAX + 1) + r) * (DDMAX + 1) + d) * 2 + fu
}

/// The number of slots in the payout table: coins 0..=35 by the gains by the flask flag.
pub open spec fn pay_len_spec() -> int {
    36 * (RUBMAX + 1) * (DDMAX + 1) * 2
}

/// The slot of (coins, rubies gained, droplet steps gained, flask used) in the payout table.
pub fn pay_index(c: usize, r: usize, d: usize, fu: usize) -> (k: usize)
    requires
        pay_index_spec(c as int, r as int, d as int, fu as int) <= usize::MAX,
    ensures
        k == pay_index_spec(c as int, r as int, d as int, fu as int),
        c < 36 && r <= RUBMAX && d <= DDMAX && fu < 2 ==> k < pay_len_spec(),
{
    proof {
        assert(c * 7 <= (c * 7 + r) * 3) by (nonlinear_arith);
        assert(0 <= c * 7 + r);
    }
    ((c * (RUBMAX + 1) + r) * (DDMAX + 1) + d) * 2 + fu
}

/// The number of slots in the payout table.
pub fn pay_len() -> (n: usize)
    ensures
        n == pay_len_spec(),
{
    proof {
        assert(pay_len_spec() == 1512);
    }
    1512
}

/// The payout-table slot a round's result reads: coins clamped to 0..=35, ruby and droplet
/// gains to 0..=RUBMAX and 0..=DDMAX.
pub fn pay_slot(coins: i32, rub: i32, dd: i32, fu: bool) -> (k: usize)
    ensures
        k == pay_index_spec(
            if coins < 0 { 0 } else if coins > 35 { 35 } else { coins as int },
            if rub < 0 { 0 } else if rub > RUBMAX { RUBMAX as int } else { rub as int },
            if dd < 0 { 0 } else if dd > DDMAX { DDMAX as int } else { dd as int },
            if fu { 1 } else { 0 },
        ),
        k < pay_len_spec(),
{
    let c: usize = if coins < 0 { 0 } else if coins > 35 { 35 } else { coins as usize };
    let r: usize = if rub < 0 { 0 } else if rub as usize > RUBMAX { RUBMAX } else { rub as usize };
    let d: usize = if dd < 0 { 0 } else if dd as usize > DDMAX { DDMAX } else { dd as usize };
    pay_index(c, r, d, if fu { 1 } else { 0 })
}

/// Different (coins, rubies, droplet, flask) inside the table's ranges get different slots, so
/// no two payouts share one.
pub proof fn lemma_pay_index_injective(c1: int, r1: int, d1: int, f1: int, c2: int, r2: int, d2: int, f2: int)
    requires
        0 <= c1 < 36,
        0 <= c2 < 36,
        0 <= r1 <= RUBMAX,
        0 <= r2 <= RUBMAX,
        0 <= d1 <= DDMAX,
        0 <= d2 <= DDMAX,
        0 <= f1 < 2,
        0 <= f2 < 2,
        pay_index_spec(c1, r1, d1, f1) == pay_index_spec(c2, r2, d2, f2),
    ensures
        c1 == c2,
        r1 == r2,
        d1 == d2,
        f1 == f2,
{
    let a1 = (c1 * 7 + r1) * 3 + d1;
    let a2 = (c2 * 7 + r2) * 3 + d2;
    lemma_digit_unique(a1, f1, a2, f2, 2);
    lemma_digit_unique(c1 * 7 + r1, d1, c2 * 7 + r2, d2, 3);
    lemma_digit_unique(c1, r1, c2, r2, 7);
}

/// The state of the abstract solver: white chips by value, the other movers bucketed by their
/// rounded effective value, purples and blacks left, and the pot.
#[derive(Clone, Copy)]
pub struct AbstractState {
    /// W1, W2, W3 left in the bag
    pub w: [u8; 3],
    /// safe movers left in the bag, by effective value 0..=7
    pub safe: [u8; 8],
    /// purples left
    pub pr: u8,
    /// blacks left
    pub kr: u8,
    pub pos: u8,
    pub white: u8,
    pub flask: bool,
    /// greens among the last two chips
    pub g: u8,
    /// purples in the pot
    pub p: u8,
    /// blacks in the pot
    pub b: u8,
}

/// Counts read as digits in base `base` after a leading part `start`, first count most
/// significant.
pub open spec fn fold_digits(start: int, xs: Seq<u8>, n: int, base: int) -> int
    decreases n,
{
    if n <= 0 {
        start
    } else {
        fold_digits(start, xs, n - 1, base) * base + xs[n - 1]
    }
}

/// Counts shifted in after `start`, each `w` bits past the previous and or-ed in.
pub open spec fn fold_bits(start: u128, xs: Seq<u8>, n: int, w: u128) -> u128
    decreases n,
{
    if n <= 0 {
        start
    } else {
        (fold_bits(start, xs, n - 1, w) << w) | (xs[n - 1] as u128)
    }
}

/// The abstract memo key's bits: whites (4 bits each), safe movers (5 bits each), purples and
/// blacks left (4 each), position (6), white sum (4), flask (1), greens (2), purples and
/// blacks in the pot (3 each), each field shifted in after the previous.
pub open spec fn abstract_key_bits(a: AbstractState) -> u128 {
    let k0 = fold_bits(fold_bits(0, a.w@, 3, 4), a.safe@, 8, 5);
    let k1 = (k0 << 4u128) | (a.pr as u128);
    let k2 = (k1 << 4u128) | (a.kr as u128);
    let k3 = (k2 << 6u128) | (a.pos as u128);
    let k4 = (k3 << 4u128) | (a.white as u128);
    let k5 = (k4 << 1u128) | (a.flask as u128);
    let k6 = (k5 << 2u128) | (a.g as u128);
    let k7 = (k6 << 3u128) | (a.p as u128);
    (k7 << 3u128) | (a.b as u128)
}

/// The abstract state packed into one number, field after field.
pub open spec fn abstract_key_num(a: AbstractState) -> int {
    let k0 = fold_digits(fold_digits(0, a.w@, 3, 16), a.safe@, 8, 32);
    let k4 = (((k0 * 16 + a.pr) * 16 + a.kr) * 64 + a.pos) * 16 + a.white;
    let k5 = k4 * 2 + if a.flask { 1int } else { 0 };
    ((k5 * 4 + a.g) * 8 + a.p) * 8 + a.b
}

/// The fields fit the widths the abstract key gives them.
pub open spec fn abstract_key_fits(a: AbstractState) -> bool {
    &&& forall|i: int| 0 <= i < 3 ==> a.w@[i] < 16
    &&& forall|i: int| 0 <= i < 8 ==> a.safe@[i] < 32
    &&& a.pr < 16
    &&& a.kr < 16
    &&& a.pos < 64
    &&& a.white < 16
    &&& a.g < 4
    &&& a.p < 8
    &&& a.b < 8
}

proof fn lemma_fold_digits_nonneg(start: int, xs: Seq<u8>, n: int, base: int)
    requires
        0 <= start,
        0 < base,
    ensures
        0 <= fold_digits(start, xs, n, base),
    decreases n,
{
    if n > 0 {
        lemma_fold_digits_nonneg(start, xs, n - 1, base);
        let x = fold_digits(start, xs, n - 1, base);
        assert(0 <= x * base) by (nonlinear_arith)
            requires
                0 <= x,
                0 < base,
        ;
    }
}

proof fn lemma_fold_digits_unique(s1: int, xs1: Seq<u8>, s2: int, xs2: Seq<u8>, n: int, base: int)
    requires
        0 <= s1,
        0 <= s2,
        0 <= n,
        0 < base,
        forall|i: int| 0 <= i < n ==> xs1[i] < base && xs2[i] < base,
        fold_digits(s1, xs1, n, base) == fold_digits(s2, xs2, n, base),
    ensures
        s1 == s2,
        forall|i: int| 0 <= i < n ==> xs1[i] == xs2[i],
    decreases n,
{
    if n > 0 {
        lemma_fold_digits_nonneg(s1, xs1, n - 1, base);
        lemma_fold_digits_nonneg(s2, xs2, n - 1, base);
        lemma_digit_unique(
            fold_digits(s1, xs1, n - 1, base),
            xs1[n - 1] as int,
            fold_digits(s2, xs2, n - 1, base),
            xs2[n - 1] as int,
            base,
        );
        lemma_fold_digits_unique(s1, xs1, s2, xs2, n - 1, base);
    }
}

/// Two abstract states whose fields fit the key's widths get the same key only when they are
/// the same state.
pub proof fn lemma_abstract_key_injective(a1: AbstractState, a2: AbstractState)
    requires
        abstract_key_fits(a1),
        abstract_key_fits(a2),
        abstract_key_num(a1) == abstract_key_num(a2),
    ensures
        a1.w@ == a2.w@,
        a1.safe@ == a2.safe@,
        a1.pr == a2.pr,
        a1.kr == a2.kr,
        a1.pos == a2.pos,
        a1.white == a2.white,
        a1.flask == a2.flask,
        a1.g == a2.g,
        a1.p == a2.p,
        a1.b == a2.b,
{
    let w1 = fold_digits(0, a1.w@, 3, 16);
    let w2 = fold_digits(0, a2.w@, 3, 16);
    lemma_fold_digits_nonneg(0, a1.w@, 3, 16);
    lemma_fold_digits_nonneg(0, a2.w@, 3, 16);
    let k01 = fold_digits(w1, a1.safe@, 8, 32);
    let k02 = fold_digits(w2, a2.safe@, 8, 32);
    lemma_fold_digits_nonneg(w1, a1.safe@, 8, 32);
    lemma_fold_digits_nonneg(w2, a2.safe@, 8, 32);
    let x11 = k01 * 16 + a1.pr;
    let x12 = k02 * 16 + a2.pr;
    let x21 = x11 * 16 + a1.kr;
    let x22 = x12 * 16 + a2.kr;
    let x31 = x21 * 64 + a1.pos;
    let x32 = x22 * 64 + a2.pos;
    let x41 = x31 * 16 + a1.white;
    let x42 = x32 * 16 + a2.white;
    let f1 = if a1.flask { 1int } else { 0 };
    let f2 = if a2.flask { 1int } else { 0 };
    let x51 = x41 * 2 + f1;
    let x52 = x42 * 2 + f2;
    let x61 = x51 * 4 + a1.g;
    let x62 = x52 * 4 + a2.g;
    let x71 = x61 * 8 + a1.p;
    let x72 = x62 * 8 + a2.p;
    lemma_digit_unique(x71, a1.b as int, x72, a2.b as int, 8);
    lemma_digit_unique(x61, a1.p as int, x62, a2.p as int, 8);
    lemma_digit_unique(x51, a1.g as int, x52, a2.g as int, 4);
    lemma_digit_unique(x41, f1, x42, f2, 2);
    lemma_digit_unique(x31, a1.white as int, x32, a2.white as int, 16);
    lemma_digit_unique(x21, a1.pos as int, x22, a2.pos as int, 64);
    lemma_digit_unique(x11, a1.kr as int, x12, a2.kr as int, 16);
    lemma_digit_unique(k01, a1.pr as int, k02, a2.pr as int, 16);
    lemma_fold_digits_unique(w1, a1.safe@, w2, a2.safe@, 8, 32);
    lemma_fold_digits_unique(0, a1.w@, 0, a2.w@, 3, 16);
    assert(a1.w@ =~= a2.w@);
    assert(a1.safe@ =~= a2.safe@);
}

impl AbstractState {
    /// The memo key of the abstract state: each field shifted left past the ones after it and
    /// or-ed in (whites 4 bits each, safe movers 5 each, purples and blacks left 4 each,
    /// position 6, white sum 4, flask 1, greens 2, purples and blacks in the pot 3 each).
    pub fn key(&self) -> (k: u128)
        ensures
            k == abstract_key_bits(*self),
            abstract_key_fits(*self) ==> k == abstract_key_num(*self),
    {
        let ghost fits = abstract_key_fits(*self);
        let mut key: u128 = 0;
        let mut i: usize = 0;
        while i < 3
            invariant
                i <= 3,
                fits == abstract_key_fits(*self),
                key == fold_bits(0, self.w@, i as int, 4),
                fits ==> key == fold_digits(0, self.w@, i as int, 16),
                fits ==> key < npow(16, i as nat),
            decreases 3 - i,
        {
            proof {
                if fits {
                    lemma_npow_le(16, i as nat, 2);
                    reveal_with_fuel(npow, 3);
                    lemma_shl_or_4(key, self.w@[i as int] as u128);
                    let q = npow(16, i as nat);
                    let x = self.w@[i as int] as int;
                    assert(key * 16 + x < q * 16) by (nonlinear_arith)
                        requires
                            key < q,
                            x < 16,
                    ;
                    assert(npow(16, (i + 1) as nat) == 16 * q);
                }
            }
            key = (key << 4) | self.w[i] as u128;
            i = i + 1;
        }
        let ghost wk = key as int;
        proof {
            reveal_with_fuel(npow, 4);
        }
        i = 0;
        while i < 8
            invariant
                i <= 8,
                fits == abstract_key_fits(*self),
                key == fold_bits(fold_bits(0, self.w@, 3, 4), self.safe@, i as int, 5),
                fits ==> wk == fold_digits(0, self.w@, 3, 16),
                fits ==> 0 <= wk < 4096,
                fits ==> key == fold_digits(wk, self.safe@, i as int, 32),
                fits ==> key < 4096 * npow(32, i as nat),
            decreases 8 - i,
        {
            proof {
                if fits {
                    lemma_npow_le(32, i as nat, 7);
                    reveal_with_fuel(npow, 8);
                    let q = npow(32, i as nat);
                    assert(4096 * q <= 4096 * npow(32, 7)) by (nonlinear_arith)
                        requires
                            q <= npow(32, 7),
                    ;
                    lemma_shl_or_5(key, self.safe@[i as int] as u128);
                    let x = self.safe@[i as int] as int;
                    assert(key * 32 + x < 4096 * q * 32) by (nonlinear_arith)
                        requires
                            key < 4096 * q,
                            x < 32,
                    ;
                    assert(npow(32, (i + 1) as nat) == 32 * q);
                    assert(4096 * q * 32 == 4096 * (32 * q)) by (nonlinear_arith);
                }
            }
            key = (key << 5) | self.safe[i] as u128;
            i = i + 1;
        }
        proof {
            if fits {
                reveal_with_fuel(npow, 9);
                assert(key < 0x10_0000_0000_0000);
                lemma_shl_or_4(key, self.pr as u128);
                let k1 = (key << 4) | self.pr as u128;
                lemma_shl_or_4(k1, self.kr as u128);
                let k2 = (k1 << 4) | self.kr as u128;
                lemma_shl_or_6(k2, self.pos as u128);
                let k3 = (k2 << 6) | self.pos as u128;
                lemma_shl_or_4(k3, self.white as u128);
                let k4 = (k3 << 4) | self.white as u128;
                lemma_shl_or_1(k4, self.flask as u128);
                let k5 = (k4 << 1) | self.flask as u128;
                lemma_shl_or_2(k5, self.g as u128);
                let k6 = (k5 << 2) | self.g as u128;
                lemma_shl_or_3(k6, self.p as u128);
                let k7 = (k6 << 3) | self.p as u128;
                lemma_shl_or_3(k7, self.b as u128);
            }
        }
        key = (key << 4) | self.pr as u128;
        key = (key << 4) | self.kr as u128;
        key = (key << 6) | self.pos as u128;
        key = (key << 4) | self.white as u128;
        key = (key << 1) | self.flask as u128;
        key = (key << 2) | self.g as u128;
        key = (key << 3) | self.p as u128;
        (key << 3) | self.b as u128
    }
}

} // verus!
