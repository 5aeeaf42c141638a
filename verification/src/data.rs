//! Static game data for ingredient Set 1: the pot track, chip types, prices, the starting bag
//! and the rat-tail marks of the scoring track.

use vstd::prelude::*;
use crate::text::{
    all_digits, chars_of, digits_value, is_space, is_white, parse_u8, parse_u8_spec, to_upper,
    upper_char, upper_seq,
};

verus! {

/// The pot track: (coins, victory points, ruby) for each of the 54 spaces.
pub const TRACK: [(u8, u8, u8); 54] = [
    (0, 0, 0), (1, 0, 0), (2, 0, 0), (3, 0, 0), (4, 0, 0), (5, 0, 1),
    (6, 1, 0), (7, 1, 0), (8, 1, 0), (9, 1, 1),
    (10, 2, 0), (11, 2, 0), (12, 2, 0), (13, 2, 1),
    (14, 3, 0), (15, 3, 0), (15, 3, 1), (16, 3, 0),
    (16, 4, 0), (17, 4, 0), (17, 4, 1), (18, 4, 0),
    (18, 5, 0), (19, 5, 0), (19, 5, 1), (20, 5, 0),
    (20, 6, 0), (21, 6, 0), (21, 6, 1),
    (22, 7, 0), (22, 7, 1), (23, 7, 0),
    (23, 8, 0), (24, 8, 0), (24, 8, 1),
    (25, 9, 0), (25, 9, 1), (26, 9, 0),
    (26, 10, 0), (27, 10, 0), (27, 10, 1),
    (28, 11, 0), (28, 11, 1), (29, 11, 0),
    (29, 12, 0), (30, 12, 0), (30, 12, 1), (31, 12, 0),
    (31, 13, 0), (32, 13, 0), (32, 13, 1),
    (33, 14, 0), (33, 14, 1), (35, 15, 0),
];

/// Index of the last space of the pot.
pub const LAST: usize = 53;

/// The track entry a space reads: spaces past the end read the last space.
pub open spec fn track_entry(space: int) -> (u8, u8, u8) {
    TRACK@[if space < LAST { space } else { LAST as int }]
}

/// (coins, VP, ruby) of a scoring space, as integers.
pub fn track_i(space: usize) -> (r: (i32, i32, i32))
    ensures
        r.0 == track_entry(space as int).0,
        r.1 == track_entry(space as int).1,
        r.2 == track_entry(space as int).2,
{
    let i = if space < LAST { space } else { LAST };
    let (c, v, r) = TRACK[i];
    (c as i32, v as i32, r as i32)
}

/// The number of chip types.
pub const N: usize = 18;

/// Colour letter of each chip type: W1 W2 W3 O1 G1 G2 G4 B1 B2 B4 R1 R2 R4 Y1 Y2 Y4 P1 K1.
pub const COLOR: [u8; 18] = [
    87, 87, 87, 79, 71, 71, 71, 66, 66, 66, 82, 82, 82, 89, 89, 89, 80, 75,
];

/// Face value of each chip type.
pub const VALUE: [u8; 18] = [1, 2, 3, 1, 1, 2, 4, 1, 2, 4, 1, 2, 4, 1, 2, 4, 1, 1];

/// Name of each chip type.
pub const NAMES: [&'static str; 18] = [
    "W1", "W2", "W3", "O1", "G1", "G2", "G4", "B1", "B2", "B4", "R1", "R2", "R4", "Y1", "Y2", "Y4",
    "P1", "K1",
];

pub const I_W1: usize = 0;

pub const I_W2: usize = 1;

pub const I_W3: usize = 2;

pub const I_O: usize = 3;

pub const I_P: usize = 16;

pub const I_K: usize = 17;

/// Chip type of the white chip of each value (index 0 is no chip).
pub const I_W: [usize; 4] = [usize::MAX, 0, 1, 2];

/// Price of each chip type (0 = not buyable).
pub const PRICE: [i32; 18] = [0, 0, 0, 3, 4, 8, 14, 5, 10, 19, 6, 10, 16, 8, 12, 18, 9, 10];

pub const COLOR_W: u8 = 87;

pub const COLOR_O: u8 = 79;

pub const COLOR_G: u8 = 71;

pub const COLOR_B: u8 = 66;

pub const COLOR_R: u8 = 82;

pub const COLOR_Y: u8 = 89;

pub const COLOR_P: u8 = 80;

pub const COLOR_K: u8 = 75;

/// The first round in whose shop a chip of this colour can be bought.
pub open spec fn unlock_spec(color: u8) -> u32 {
    if color == COLOR_Y {
        2
    } else if color == COLOR_P {
        3
    } else {
        1
    }
}

/// Yellow is purchasable from round 2, purple from round 3, every other colour from round 1.
pub fn unlock_round(color: u8) -> (r: u32)
    ensures
        r == unlock_spec(color),
{
    if color == COLOR_Y {
        2
    } else if color == COLOR_P {
        3
    } else {
        1
    }
}

/// A bag: the number of chips of each type.
pub type Bag = [u8; 18];

/// Sum of the first `n` counts of a bag.
pub open spec fn prefix_total(b: Seq<u8>, n: int) -> int
    decreases n,
{
    if n <= 0 {
        0
    } else {
        prefix_total(b, n - 1) + b[n - 1]
    }
}

/// The number of chips in a bag.
pub open spec fn bag_total(b: Seq<u8>) -> int {
    prefix_total(b, b.len() as int)
}

pub proof fn lemma_prefix_total_bounds(b: Seq<u8>, n: int)
    requires
        0 <= n <= b.len(),
    ensures
        0 <= prefix_total(b, n) <= 255 * n,
    decreases n,
{
    if n > 0 {
        lemma_prefix_total_bounds(b, n - 1);
    }
}

pub proof fn lemma_prefix_total_mono(b: Seq<u8>, a: int, c: int)
    requires
        0 <= a <= c <= b.len(),
    ensures
        prefix_total(b, a) <= prefix_total(b, c),
    decreases c - a,
{
    if a < c {
        lemma_prefix_total_mono(b, a, c - 1);
    }
}

/// Taking one chip of type `i` out of a bag lowers every prefix sum that includes `i` by one.
pub proof fn lemma_prefix_total_take_one(b: Seq<u8>, i: int, n: int)
    requires
        0 <= i < b.len(),
        b[i] > 0,
        0 <= n <= b.len(),
    ensures
        prefix_total(b.update(i, (b[i] - 1) as u8), n) == prefix_total(b, n) - if i < n { 1int } else { 0 },
    decreases n,
{
    if n > 0 {
        lemma_prefix_total_take_one(b, i, n - 1);
    }
}

/// The starting bag: four W1, two W2, one W3, one O1 and one G1.
pub fn starting_bag() -> (b: Bag)
    ensures
        b@ == seq![4u8, 2, 1, 1, 1, 0, 0, 0, 0, 0, 0, 0, 0, 0, 0, 0, 0, 0],
{
    let mut b = [0u8; 18];
    b[I_W1] = 4;
    b[I_W2] = 2;
    b[I_W3] = 1;
    b[I_O] = 1;
    b[4] = 1;
    assert(b@ =~= seq![4u8, 2, 1, 1, 1, 0, 0, 0, 0, 0, 0, 0, 0, 0, 0, 0, 0, 0]);
    b
}

/// The number of chips in the bag.
pub fn total(b: &Bag) -> (t: u32)
    ensures
        t == bag_total(b@),
{
    let mut t: u32 = 0;
    let mut i: usize = 0;
    while i < N
        invariant
            i <= N,
            t == prefix_total(b@, i as int),
        decreases N - i,
    {
        proof {
            lemma_prefix_total_bounds(b@, i as int);
        }
        t = t + b[i] as u32;
        i = i + 1;
    }
    t
}

pub const ROUNDS: u32 = 9;

pub const EXTRA_WHITE_ROUND: u32 = 6;

pub const EXPLODE_LIMIT: i32 = 7;

/// Bonus die faces: 0 = 1 VP, 1 = 2 VP, 2 = ruby, 3 = droplet, 4 = orange chip.
pub const DIE: [u8; 6] = [0, 0, 1, 2, 3, 4];

/// The rat-tail marks on the scoring track.
pub const RAT_TAIL_VP: [i32; 25] = [
    1, 3, 6, 8, 10, 12, 14, 16, 18, 20, 22, 24, 26, 28, 30, 32, 34, 36, 38, 40, 42, 44, 46, 48, 50,
];

/// How many of the first `n` rat-tail marks lie strictly between `my` and `leader`.
pub open spec fn marks_between(my: int, leader: int, n: int) -> nat
    decreases n,
{
    if n <= 0 {
        0
    } else {
        marks_between(my, leader, n - 1) + if my < RAT_TAIL_VP@[n - 1] < leader {
            1nat
        } else {
            0nat
        }
    }
}

/// Rat tails a player with `my` VP receives when the leader has `leader` VP.
pub open spec fn rat_tails_spec(my: int, leader: int) -> nat {
    if leader <= my {
        0
    } else {
        marks_between(my, leader, 25)
    }
}

proof fn lemma_marks_bound(my: int, leader: int, n: int)
    requires
        0 <= n,
    ensures
        marks_between(my, leader, n) <= n,
    decreases n,
{
    if n > 0 {
        lemma_marks_bound(my, leader, n - 1);
    }
}

/// The number of rat-tail marks strictly between the player's score and the leader's.
pub fn rat_tails(my: i32, leader: i32) -> (r: u32)
    ensures
        r == rat_tails_spec(my as int, leader as int),
        r <= 25,
{
    if leader <= my {
        return 0;
    }
    let mut c: u32 = 0;
    let mut i: usize = 0;
    while i < 25
        invariant
            i <= 25,
            c == marks_between(my as int, leader as int, i as int),
            c <= i,
        decreases 25 - i,
    {
        let t = RAT_TAIL_VP[i];
        if my < t && t < leader {
            c = c + 1;
        }
        i = i + 1;
    }
    c
}

/// Coins and victory points never decrease along the pot track, and the last space pays
/// 35 coins and 15 VP.
pub proof fn lemma_track_monotone(s: int)
    requires
        0 <= s < LAST,
    ensures
        track_entry(s).0 <= track_entry(s + 1).0,
        track_entry(s).1 <= track_entry(s + 1).1,
        track_entry(LAST as int) == (35u8, 15u8, 0u8),
{
    assert(TRACK@[s].0 <= TRACK@[s + 1].0);
    assert(TRACK@[s].1 <= TRACK@[s + 1].1);
}

/// The name of chip type `i`: its colour letter and its value digit.
pub open spec fn chip_name(i: int) -> Seq<char> {
    seq![COLOR@[i] as char, (VALUE@[i] + 48) as char]
}

/// The first chip type from `i` on whose name is `name` (18 when there is none).
pub open spec fn find_name(name: Seq<char>, i: int) -> int
    decreases 18 - i,
{
    if i >= 18 || i < 0 {
        18
    } else if chip_name(i) == name {
        i
    } else {
        find_name(name, i + 1)
    }
}

/// The separator between a chip name and its count: 'X', '*' or ':'.
pub open spec fn is_sep(c: char) -> bool {
    c == 'X' || c == '*' || c == ':'
}

/// The first separator at or after `k` (the length when there is none).
pub open spec fn first_sep(u: Seq<char>, k: int) -> int
    decreases u.len() - k,
{
    if k >= u.len() || k < 0 {
        u.len() as int
    } else if is_sep(u[k]) {
        k
    } else {
        first_sep(u, k + 1)
    }
}

/// What a bag token means, read in upper case: a chip name, optionally followed by a separator
/// and a count (the count is 1 when it is missing or not a byte; a separator within the first
/// two characters is part of the name). Returns (chip type or 18, count).
pub open spec fn token_info(tok: Seq<char>) -> (int, int) {
    let u = upper_seq(tok);
    let p = first_sep(u, 0);
    if p < u.len() && p >= 2 {
        (
            find_name(u.take(p), 0),
            match parse_u8_spec(u.skip(p + 1)) {
                Some(v) => v,
                None => 1,
            },
        )
    } else {
        (find_name(u, 0), 1)
    }
}

/// The words of a text from position `i` on, the current word being `cur`: maximal runs of
/// characters that are not white space.
pub open spec fn words_from(cs: Seq<char>, i: int, cur: Seq<char>) -> Seq<Seq<char>>
    decreases cs.len() - i,
{
    if i >= cs.len() || i < 0 {
        if cur.len() > 0 {
            seq![cur]
        } else {
            seq![]
        }
    } else if is_space(cs[i]) {
        (if cur.len() > 0 {
            seq![cur]
        } else {
            seq![]
        }) + words_from(cs, i + 1, seq![])
    } else {
        words_from(cs, i + 1, cur.push(cs[i]))
    }
}

/// The words of a text, split at white space.
pub open spec fn words(cs: Seq<char>) -> Seq<Seq<char>> {
    words_from(cs, 0, seq![])
}

/// Chip counts after reading the tokens in order, each adding its count to its chip type.
pub open spec fn parsed_counts(toks: Seq<Seq<char>>) -> Seq<int>
    decreases toks.len(),
{
    if toks.len() == 0 {
        Seq::new(18, |_i: int| 0int)
    } else {
        let c = parsed_counts(toks.drop_last());
        let (i, n) = token_info(toks.last());
        if 0 <= i < 18 {
            c.update(i, c[i] + n)
        } else {
            c
        }
    }
}

/// Every token names a chip type and no count goes past 255.
pub open spec fn bag_text_ok(cs: Seq<char>) -> bool {
    bag_text_ok_words(words(cs))
}

proof fn lemma_parsed_counts_shape(toks: Seq<Seq<char>>)
    ensures
        parsed_counts(toks).len() == 18,
        forall|i: int| 0 <= i < 18 ==> #[trigger] parsed_counts(toks)[i] >= 0,
    decreases toks.len(),
{
    if toks.len() > 0 {
        lemma_parsed_counts_shape(toks.drop_last());
        let t = upper_seq(toks.last());
        let p = first_sep(t, 0);
        lemma_parse_u8_range(t.skip(p + 1));
    }
}

proof fn lemma_parsed_counts_prefix(toks: Seq<Seq<char>>, k: int)
    requires
        0 <= k <= toks.len(),
    ensures
        forall|i: int| 0 <= i < 18 ==> parsed_counts(toks.take(k))[i] <= #[trigger] parsed_counts(toks)[i],
    decreases toks.len() - k,
{
    if k < toks.len() {
        lemma_parsed_counts_prefix(toks, k + 1);
        let pre = toks.take(k + 1);
        assert(pre.drop_last() =~= toks.take(k));
        lemma_parsed_counts_shape(toks.take(k));
        lemma_parsed_counts_shape(pre);
        let t = upper_seq(pre.last());
        let p = first_sep(t, 0);
        lemma_parse_u8_range(t.skip(p + 1));
    } else {
        assert(toks.take(k) =~= toks);
    }
}

proof fn lemma_parse_u8_range(s: Seq<char>)
    ensures
        parse_u8_spec(s) matches Some(v) ==> 0 <= v <= 255,
{
    let d = crate::text::strip_plus(s);
    if crate::text::parse_digits(d) is Some {
        crate::text::lemma_digits_value_nonneg(d);
    }
}

/// The first separator at or after `k`.
fn first_sep_at(u: &Vec<char>, k: usize) -> (p: usize)
    requires
        k <= u@.len(),
    ensures
        p == first_sep(u@, k as int),
{
    let mut j = k;
    while j < u.len()
        invariant
            k <= j <= u@.len(),
            first_sep(u@, k as int) == first_sep(u@, j as int),
        decreases u@.len() - j,
    {
        let c = u[j];
        if c == 'X' || c == '*' || c == ':' {
            return j;
        }
        j = j + 1;
    }
    j
}

/// The chip type named by `u[from..to]` (18 when it names none).
fn name_of(u: &Vec<char>, from: usize, to: usize) -> (i: usize)
    requires
        from <= to <= u@.len(),
    ensures
        i == find_name(u@.subrange(from as int, to as int), 0),
{
    let ghost name = u@.subrange(from as int, to as int);
    let mut i: usize = 0;
    while i < N
        invariant
            i <= N,
            find_name(name, 0) == find_name(name, i as int),
            name == u@.subrange(from as int, to as int),
            from <= to <= u@.len(),
        decreases N - i,
    {
        if to - from == 2 && u[from] == COLOR[i] as char && u[from + 1] == (VALUE[i] + 48) as char {
            proof {
                assert(name =~= chip_name(i as int));
            }
            return i;
        }
        proof {
            if chip_name(i as int) == name {
                assert(name.len() == 2);
                assert(name[0] == u@[from as int]);
                assert(name[1] == u@[from + 1]);
            }
        }
        i = i + 1;
    }
    i
}

/// Read one token: (chip type or 18, count).
fn read_token(tok: &Vec<char>) -> (r: (usize, u8))
    ensures
        r.0 == token_info(tok@).0,
        r.1 == token_info(tok@).1,
{
    let u = to_upper(tok);
    let p = first_sep_at(&u, 0);
    proof {
        lemma_parse_u8_range(u@.skip(p + 1));
    }
    if p < u.len() && p >= 2 {
        let i = name_of(&u, 0, p);
        let n = match parse_u8(&u, p + 1) {
            Some(v) => v,
            None => 1,
        };
        proof {
            assert(u@.subrange(0, p as int) =~= u@.take(p as int));
        }
        (i, n)
    } else {
        let i = name_of(&u, 0, u.len());
        proof {
            assert(u@.subrange(0, u@.len() as int) =~= u@);
        }
        (i, 1)
    }
}

/// Add the count of the next token of a bag text to the bag.
fn add_token(b: &mut Bag, cur: &Vec<char>, Ghost(done): Ghost<Seq<Seq<char>>>, Ghost(all): Ghost<Seq<Seq<char>>>)
    requires
        done.len() < all.len(),
        done == all.take(done.len() as int),
        all[done.len() as int] == cur@,
        forall|k: int| 0 <= k < all.len() ==> 0 <= #[trigger] token_info(all[k]).0 < 18,
        forall|i: int| 0 <= i < 18 ==> #[trigger] parsed_counts(all)[i] <= 255,
        forall|j: int| 0 <= j < 18 ==> old(b)@[j] == #[trigger] parsed_counts(done)[j],
    ensures
        forall|j: int| 0 <= j < 18 ==> final(b)@[j] == #[trigger] parsed_counts(done.push(cur@))[j],
{
    proof {
        assert(all.take(done.len() as int + 1) =~= done.push(cur@));
        lemma_parsed_counts_prefix(all, done.len() as int + 1);
        lemma_parsed_counts_shape(done);
        lemma_parsed_counts_shape(done.push(cur@));
        assert((done.push(cur@)).drop_last() =~= done);
        assert(0 <= token_info(all[done.len() as int]).0 < 18);
    }
    let (idx, n) = read_token(cur);
    proof {
        assert(parsed_counts(done.push(cur@))[idx as int] == parsed_counts(done)[idx as int] + n);
        assert(parsed_counts(done.push(cur@))[idx as int] <= parsed_counts(all)[idx as int]);
    }
    b[idx] = b[idx] + n;
}

/// Read a bag written as chip names with optional counts, separated by white space, e.g.
/// "W1x4 W2x2 W3 O1 G1" (case does not matter; the count may follow 'x', '*' or ':').
pub fn parse_bag(s: &str) -> (b: Bag)
    requires
        bag_text_ok(s@),
    ensures
        forall|i: int| 0 <= i < 18 ==> b@[i] == parsed_counts(words(s@))[i],
{
    let cs = chars_of(s);
    let ghost all = words(s@);
    let mut b = [0u8; 18];
    let mut cur: Vec<char> = Vec::new();
    let ghost mut done: Seq<Seq<char>> = seq![];
    proof {
        lemma_parsed_counts_shape(all);
        assert(parsed_counts(done) =~= Seq::new(18, |_i: int| 0int));
    }
    let mut i: usize = 0;
    while i < cs.len()
        invariant
            cs@ == s@,
            all == words(s@),
            bag_text_ok(s@),
            i <= cs@.len(),
            all == done + words_from(cs@, i as int, cur@),
            done.len() <= all.len(),
            done == all.take(done.len() as int),
            forall|j: int| 0 <= j < 18 ==> b@[j] == #[trigger] parsed_counts(done)[j],
        decreases cs@.len() - i,
    {
        if is_white(cs[i]) {
            if cur.len() > 0 {
                proof {
                    assert(words_from(cs@, i as int, cur@) == seq![cur@] + words_from(
                        cs@,
                        i + 1,
                        seq![],
                    ));
                    assert(all =~= done.push(cur@) + words_from(cs@, i + 1, seq![]));
                }
                add_token(&mut b, &cur, Ghost(done), Ghost(all));
                proof {
                    done = done.push(cur@);
                }
                cur = Vec::new();
            } else {
                proof {
                    assert(words_from(cs@, i as int, cur@) =~= words_from(cs@, i + 1, seq![]));
                    assert(cur@ =~= seq![]);
                }
            }
        } else {
            proof {
                assert(words_from(cs@, i as int, cur@) == words_from(cs@, i + 1, cur@.push(cs@[i as int])));
            }
            cur.push(cs[i]);
        }
        i = i + 1;
    }
    if cur.len() > 0 {
        proof {
            assert(words_from(cs@, i as int, cur@) == seq![cur@]);
            assert(all =~= done.push(cur@));
        }
        add_token(&mut b, &cur, Ghost(done), Ghost(all));
        proof {
            done = done.push(cur@);
        }
    } else {
        proof {
            assert(words_from(cs@, i as int, cur@) == Seq::<Seq<char>>::empty());
            assert(all =~= done);
        }
    }
    proof {
        assert(all =~= done);
    }
    b
}

/// Decimal digit strings.
pub const DIGITS: [&'static str; 10] = ["0", "1", "2", "3", "4", "5", "6", "7", "8", "9"];

/// Each name string is the colour letter followed by the value digit.
pub proof fn lemma_names()
    ensures
        forall|i: int| 0 <= i < 18 ==> #[trigger] NAMES@[i]@ == chip_name(i),
{
    reveal_strlit("W1");
    reveal_strlit("W2");
    reveal_strlit("W3");
    reveal_strlit("O1");
    reveal_strlit("G1");
    reveal_strlit("G2");
    reveal_strlit("G4");
    reveal_strlit("B1");
    reveal_strlit("B2");
    reveal_strlit("B4");
    reveal_strlit("R1");
    reveal_strlit("R2");
    reveal_strlit("R4");
    reveal_strlit("Y1");
    reveal_strlit("Y2");
    reveal_strlit("Y4");
    reveal_strlit("P1");
    reveal_strlit("K1");
    assert(NAMES@[0]@ =~= chip_name(0));
    assert(NAMES@[1]@ =~= chip_name(1));
    assert(NAMES@[2]@ =~= chip_name(2));
    assert(NAMES@[3]@ =~= chip_name(3));
    assert(NAMES@[4]@ =~= chip_name(4));
    assert(NAMES@[5]@ =~= chip_name(5));
    assert(NAMES@[6]@ =~= chip_name(6));
    assert(NAMES@[7]@ =~= chip_name(7));
    assert(NAMES@[8]@ =~= chip_name(8));
    assert(NAMES@[9]@ =~= chip_name(9));
    assert(NAMES@[10]@ =~= chip_name(10));
    assert(NAMES@[11]@ =~= chip_name(11));
    assert(NAMES@[12]@ =~= chip_name(12));
    assert(NAMES@[13]@ =~= chip_name(13));
    assert(NAMES@[14]@ =~= chip_name(14));
    assert(NAMES@[15]@ =~= chip_name(15));
    assert(NAMES@[16]@ =~= chip_name(16));
    assert(NAMES@[17]@ =~= chip_name(17));
}

proof fn lemma_digits()
    ensures
        forall|d: int| 0 <= d < 10 ==> #[trigger] DIGITS@[d]@ == seq![(d + 48) as char],
{
    reveal_strlit("0");
    reveal_strlit("1");
    reveal_strlit("2");
    reveal_strlit("3");
    reveal_strlit("4");
    reveal_strlit("5");
    reveal_strlit("6");
    reveal_strlit("7");
    reveal_strlit("8");
    reveal_strlit("9");
    assert(DIGITS@[0]@ =~= seq![(0 + 48) as char]);
    assert(DIGITS@[1]@ =~= seq![(1 + 48) as char]);
    assert(DIGITS@[2]@ =~= seq![(2 + 48) as char]);
    assert(DIGITS@[3]@ =~= seq![(3 + 48) as char]);
    assert(DIGITS@[4]@ =~= seq![(4 + 48) as char]);
    assert(DIGITS@[5]@ =~= seq![(5 + 48) as char]);
    assert(DIGITS@[6]@ =~= seq![(6 + 48) as char]);
    assert(DIGITS@[7]@ =~= seq![(7 + 48) as char]);
    assert(DIGITS@[8]@ =~= seq![(8 + 48) as char]);
    assert(DIGITS@[9]@ =~= seq![(9 + 48) as char]);
}

/// The decimal digits of a number.
pub open spec fn dec(n: nat) -> Seq<char>
    decreases n,
{
    if n < 10 {
        seq![(n + 48) as char]
    } else {
        dec(n / 10).push(((n % 10) + 48) as char)
    }
}

/// How one chip type is written: its name, then 'x' and the count when there is more than one.
pub open spec fn token_text(i: int, count: nat) -> Seq<char> {
    chip_name(i) + if count > 1 {
        seq!['x'] + dec(count)
    } else {
        seq![]
    }
}

/// The tokens of the chip types below `n` that the bag holds.
pub open spec fn bag_tokens(b: Seq<u8>, n: int) -> Seq<Seq<char>>
    decreases n,
{
    if n <= 0 {
        seq![]
    } else if b[n - 1] > 0 {
        bag_tokens(b, n - 1).push(token_text(n - 1, b[n - 1] as nat))
    } else {
        bag_tokens(b, n - 1)
    }
}

/// Words joined with single spaces.
pub open spec fn join_words(ws: Seq<Seq<char>>) -> Seq<char>
    decreases ws.len(),
{
    if ws.len() == 0 {
        seq![]
    } else if ws.len() == 1 {
        ws[0]
    } else {
        join_words(ws.drop_last()) + seq![' '] + ws.last()
    }
}

/// Append the decimal digits of a count.
fn push_dec(out: &mut String, n: u8)
    ensures
        final(out)@ == old(out)@ + dec(n as nat),
{
    proof {
        lemma_digits();
    }
    let ghost start = out@;
    let ghost m = n as nat;
    if n >= 100 {
        let d2 = (n / 100) as usize;
        let d1 = ((n / 10) % 10) as usize;
        let d0 = (n % 10) as usize;
        out.append(DIGITS[d2]);
        out.append(DIGITS[d1]);
        out.append(DIGITS[d0]);
        proof {
            assert(m / 10 / 10 == d2);
            assert((m / 10) % 10 == d1);
            assert(m % 10 == d0);
            assert(dec(m / 10 / 10) == seq![(d2 + 48) as char]);
            assert(dec(m / 10) == dec(m / 10 / 10).push(((m / 10) % 10 + 48) as char));
            assert(dec(m) == dec(m / 10).push((m % 10 + 48) as char));
            assert(out@ =~= start + dec(m));
        }
    } else if n >= 10 {
        let d1 = (n / 10) as usize;
        let d0 = (n % 10) as usize;
        out.append(DIGITS[d1]);
        out.append(DIGITS[d0]);
        proof {
            assert(m / 10 == d1);
            assert(m % 10 == d0);
            assert(dec(m / 10) == seq![(d1 + 48) as char]);
            assert(dec(m) == dec(m / 10).push((m % 10 + 48) as char));
            assert(out@ =~= start + dec(m));
        }
    } else {
        out.append(DIGITS[n as usize]);
        proof {
            assert(dec(m) == seq![(m + 48) as char]);
            assert(out@ =~= start + dec(m));
        }
    }
}

/// Write a bag as chip names with counts, e.g. "W1x4 W2x2 W3 O1 G1".
pub fn fmt_bag(b: &Bag) -> (s: String)
    ensures
        s@ == join_words(bag_tokens(b@, 18)),
{
    proof {
        lemma_names();
        reveal_strlit("x");
        reveal_strlit(" ");
    }
    let mut s = String::new();
    let mut first = true;
    let mut i: usize = 0;
    while i < N
        invariant
            i <= N,
            s@ == join_words(bag_tokens(b@, i as int)),
            first <==> bag_tokens(b@, i as int).len() == 0,
            forall|k: int| 0 <= k < 18 ==> #[trigger] NAMES@[k]@ == chip_name(k),
            "x"@ == seq!['x'],
            " "@ == seq![' '],
        decreases N - i,
    {
        if b[i] > 0 {
            let ghost before = s@;
            if !first {
                s.append(" ");
            }
            s.append(NAMES[i]);
            if b[i] > 1 {
                s.append("x");
                push_dec(&mut s, b[i]);
            }
            proof {
                let toks = bag_tokens(b@, i as int);
                let t = token_text(i as int, b@[i as int] as nat);
                assert(bag_tokens(b@, i + 1) == toks.push(t));
                assert(toks.push(t).drop_last() =~= toks);
                if first {
                    assert(s@ =~= t);
                } else {
                    assert(s@ =~= before + seq![' '] + t);
                }
            }
            first = false;
        }
        i = i + 1;
    }
    s
}

/// Reading from position |cs| + j of cs + t is reading t from j.
proof fn lemma_words_shift(cs: Seq<char>, t: Seq<char>, j: int, cur: Seq<char>)
    requires
        0 <= j <= t.len(),
    ensures
        words_from(cs + t, cs.len() + j, cur) == words_from(t, j, cur),
    decreases t.len() - j,
{
    if j < t.len() {
        assert((cs + t)[cs.len() + j] == t[j]);
        lemma_words_shift(cs, t, j + 1, seq![]);
        lemma_words_shift(cs, t, j + 1, cur.push(t[j]));
    }
}

/// A text followed by one that starts with white space splits into the words of each.
proof fn lemma_words_append(cs: Seq<char>, t: Seq<char>, i: int, cur: Seq<char>)
    requires
        0 <= i <= cs.len(),
        t.len() > 0,
        is_space(t[0]),
    ensures
        words_from(cs + t, i, cur) == words_from(cs, i, cur) + words_from(t, 0, seq![]),
    decreases cs.len() - i,
{
    let x = cs + t;
    if i == cs.len() {
        assert(x[i] == t[0]);
        lemma_words_shift(cs, t, 1, seq![]);
        assert(words_from(t, 0, seq![]) =~= seq![] + words_from(t, 1, seq![]));
        if cur.len() > 0 {
            assert(words_from(cs, i, cur) == seq![cur]);
        } else {
            assert(words_from(cs, i, cur) == Seq::<Seq<char>>::empty());
            assert(words_from(x, i, cur) =~= seq![] + words_from(x, i + 1, seq![]));
        }
        assert((if cur.len() > 0 {
            seq![cur]
        } else {
            Seq::<Seq<char>>::empty()
        }) + words_from(x, i + 1, seq![]) =~= words_from(cs, i, cur) + words_from(t, 0, seq![]));
    } else {
        assert(x[i] == cs[i]);
        if is_space(cs[i]) {
            lemma_words_append(cs, t, i + 1, seq![]);
            let pre: Seq<Seq<char>> = if cur.len() > 0 {
                seq![cur]
            } else {
                seq![]
            };
            assert(pre + (words_from(cs, i + 1, seq![]) + words_from(t, 0, seq![])) =~= (pre
                + words_from(cs, i + 1, seq![])) + words_from(t, 0, seq![]));
        } else {
            lemma_words_append(cs, t, i + 1, cur.push(cs[i]));
        }
    }
}

/// A word without white space reads as itself.
proof fn lemma_words_single(w: Seq<char>, j: int, cur: Seq<char>)
    requires
        0 <= j <= w.len(),
        cur.len() + w.len() - j > 0,
        forall|k: int| 0 <= k < w.len() ==> !is_space(#[trigger] w[k]),
    ensures
        words_from(w, j, cur) == seq![cur + w.skip(j)],
    decreases w.len() - j,
{
    if j < w.len() {
        lemma_words_single(w, j + 1, cur.push(w[j]));
        assert(cur.push(w[j]) + w.skip(j + 1) =~= cur + w.skip(j));
    } else {
        assert(cur + w.skip(j) =~= cur);
    }
}

/// Non-empty words without white space, joined by spaces, split back into the same words.
proof fn lemma_words_join(ws: Seq<Seq<char>>)
    requires
        forall|k: int| 0 <= k < ws.len() ==> #[trigger] ws[k].len() > 0,
        forall|k: int, c: int| 0 <= k < ws.len() && 0 <= c < ws[k].len() ==> !is_space(#[trigger] ws[k][c]),
    ensures
        words(join_words(ws)) == ws,
    decreases ws.len(),
{
    if ws.len() == 0 {
        assert(words(seq![]) == Seq::<Seq<char>>::empty());
    } else if ws.len() == 1 {
        lemma_words_single(ws[0], 0, seq![]);
        assert(seq![] + ws[0].skip(0) =~= ws[0]);
        assert(ws =~= seq![ws[0]]);
    } else {
        let front = ws.drop_last();
        let w = ws.last();
        assert forall|k: int, c: int| 0 <= k < front.len() && 0 <= c < front[k].len() implies !is_space(
            #[trigger] front[k][c],
        ) by {
            assert(front[k] == ws[k]);
        }
        assert forall|k: int| 0 <= k < front.len() implies #[trigger] front[k].len() > 0 by {
            assert(front[k] == ws[k]);
        }
        lemma_words_join(front);
        let t = seq![' '] + w;
        assert(join_words(ws) =~= join_words(front) + t);
        lemma_words_append(join_words(front), t, 0, seq![]);
        assert(is_space(t[0]));
        assert(words_from(t, 0, seq![]) =~= seq![] + words_from(t, 1, seq![]));
        lemma_words_shift(seq![' '], w, 0, seq![]);
        assert(forall|c: int| 0 <= c < w.len() ==> !is_space(#[trigger] w[c])) by {
            assert forall|c: int| 0 <= c < w.len() implies !is_space(#[trigger] w[c]) by {
                assert(w == ws[ws.len() - 1]);
            }
        }
        assert(w == ws[ws.len() - 1]);
        lemma_words_single(w, 0, seq![]);
        assert(seq![] + w.skip(0) =~= w);
        assert(ws =~= front.push(w));
    }
}

proof fn lemma_upper_concat(a: Seq<char>, b: Seq<char>)
    ensures
        upper_seq(a + b) == upper_seq(a) + upper_seq(b),
    decreases b.len(),
{
    if b.len() == 0 {
        assert(a + b =~= a);
        assert(upper_seq(a) + upper_seq(b) =~= upper_seq(a));
    } else {
        lemma_upper_concat(a, b.drop_last());
        assert((a + b).drop_last() =~= a + b.drop_last());
        assert(upper_seq(a) + upper_seq(b) =~= upper_seq(a) + upper_seq(b.drop_last()) + upper_char(
            b.last(),
        ));
    }
}

/// Characters that upper case leaves alone: capital letters, digits.
proof fn lemma_upper_fixed(t: Seq<char>)
    requires
        forall|k: int| 0 <= k < t.len() ==> (('A' <= #[trigger] t[k] && t[k] <= 'Z') || ('0' <= t[k]
            && t[k] <= '9')),
    ensures
        upper_seq(t) == t,
    decreases t.len(),
{
    if t.len() > 0 {
        lemma_upper_fixed(t.drop_last());
        assert(t.drop_last().push(t.last()) =~= t);
    }
}

proof fn lemma_dec_digits(n: nat)
    ensures
        dec(n).len() > 0,
        all_digits(dec(n)),
        digits_value(dec(n)) == n,
        dec(n)[0] != '+',
    decreases n,
{
    let c = ((n % 10) + 48) as char;
    assert(c as int == (n % 10) + 48);
    if n >= 10 {
        lemma_dec_digits(n / 10);
        let d = dec(n);
        assert(d.drop_last() =~= dec(n / 10));
        assert(d[0] == dec(n / 10)[0]);
        assert(d.last() == c);
        assert(forall|k: int| 0 <= k < d.len() - 1 ==> d[k] == dec(n / 10)[k]);
        assert(all_digits(d));
        assert(digits_value(d) == digits_value(d.drop_last()) * 10 + (c as int - 48));
        assert(n == (n / 10) * 10 + n % 10);
    } else {
        assert(n % 10 == n);
        let d = dec(n);
        assert(d == seq![c]);
        assert(d.drop_last() =~= Seq::<char>::empty());
        assert(all_digits(d));
        assert(digits_value(d) == digits_value(d.drop_last()) * 10 + (c as int - 48));
        assert(digits_value(Seq::<char>::empty()) == 0);
    }
}

/// Distinct chip types have distinct names.
proof fn lemma_names_distinct(i: int)
    requires
        0 <= i < 18,
    ensures
        find_name(chip_name(i), 0) == i,
{
    assert forall|j: int| 0 <= j < i implies chip_name(j) != chip_name(i) by {
        if chip_name(j) == chip_name(i) {
            assert(chip_name(j)[0] == chip_name(i)[0]);
            assert(chip_name(j)[1] == chip_name(i)[1]);
        }
    }
    lemma_find_name_first(chip_name(i), 0, i);
}

proof fn lemma_find_name_first(name: Seq<char>, k: int, i: int)
    requires
        0 <= k <= i < 18,
        chip_name(i) == name,
        forall|j: int| 0 <= j < i ==> chip_name(j) != name,
    ensures
        find_name(name, k) == i,
    decreases i - k,
{
    if k < i {
        lemma_find_name_first(name, k + 1, i);
    }
}

/// How a written token reads back: the chip type and its count.
proof fn lemma_token_roundtrip(i: int, count: nat)
    requires
        0 <= i < 18,
        1 <= count <= 255,
    ensures
        token_info(token_text(i, count)) == (i, count as int),
        token_text(i, count).len() > 0,
        forall|c: int| 0 <= c < token_text(i, count).len() ==> !is_space(#[trigger] token_text(i, count)[c]),
{
    let name = chip_name(i);
    lemma_upper_fixed(name);
    lemma_names_distinct(i);
    assert(!is_sep(name[0]) && !is_sep(name[1]));
    if count > 1 {
        let tail = seq!['x'] + dec(count);
        lemma_dec_digits(count);
        lemma_upper_concat(name, tail);
        lemma_upper_concat(seq!['x'], dec(count));
        assert(upper_seq(seq!['x']) =~= seq!['X']) by {
            assert(seq!['x'].drop_last() =~= Seq::<char>::empty());
            assert((('x' as u32) - 32) as char == 'X');
            assert(upper_char('x') == seq!['X']);
            assert(seq!['x'].last() == 'x');
            assert(upper_seq(seq!['x']) == upper_seq(seq!['x'].drop_last()) + upper_char('x'));
            assert(upper_seq(Seq::<char>::empty()) == Seq::<char>::empty());
        }
        assert forall|k: int| 0 <= k < dec(count).len() implies (('A' <= #[trigger] dec(count)[k]
            && dec(count)[k] <= 'Z') || ('0' <= dec(count)[k] && dec(count)[k] <= '9')) by {
            assert(crate::text::is_digit(dec(count)[k]));
        }
        lemma_upper_fixed(dec(count));
        let u = upper_seq(token_text(i, count));
        assert(u =~= name + seq!['X'] + dec(count));
        assert(first_sep(u, 0) == 2) by {
            assert(u[0] == name[0]);
            assert(u[1] == name[1]);
            assert(u[2] == 'X');
            assert(first_sep(u, 2) == 2);
            assert(first_sep(u, 1) == 2);
        }
        assert(u.take(2) =~= name);
        assert(u.skip(3) =~= dec(count));
        assert(crate::text::strip_plus(dec(count)) == dec(count));
        assert forall|c: int| 0 <= c < token_text(i, count).len() implies !is_space(
            #[trigger] token_text(i, count)[c],
        ) by {
            if c >= 3 {
                assert(token_text(i, count)[c] == dec(count)[c - 3]);
                assert(crate::text::is_digit(dec(count)[c - 3]));
            }
        }
    } else {
        assert(token_text(i, count) =~= name);
        assert(first_sep(name, 2) == 2);
        assert(first_sep(name, 1) == 2);
        assert(first_sep(name, 0) == 2);
    }
}

proof fn lemma_counts_of_tokens(b: Seq<u8>, n: int)
    requires
        b.len() == 18,
        0 <= n <= 18,
    ensures
        forall|k: int| 0 <= k < bag_tokens(b, n).len() ==> 0 <= #[trigger] token_info(bag_tokens(b, n)[k]).0 < 18,
        forall|k: int| 0 <= k < bag_tokens(b, n).len() ==> #[trigger] bag_tokens(b, n)[k].len() > 0,
        forall|k: int, c: int|
            0 <= k < bag_tokens(b, n).len() && 0 <= c < bag_tokens(b, n)[k].len() ==> !is_space(
                #[trigger] bag_tokens(b, n)[k][c],
            ),
        forall|i: int| 0 <= i < 18 ==> #[trigger] parsed_counts(bag_tokens(b, n))[i] == if i < n {
            b[i] as int
        } else {
            0
        },
    decreases n,
{
    if n > 0 {
        lemma_counts_of_tokens(b, n - 1);
        let prev = bag_tokens(b, n - 1);
        lemma_parsed_counts_shape(prev);
        if b[n - 1] > 0 {
            lemma_token_roundtrip(n - 1, b[n - 1] as nat);
            let t = token_text(n - 1, b[n - 1] as nat);
            let cur = prev.push(t);
            assert(cur.drop_last() =~= prev);
            assert forall|k: int| 0 <= k < cur.len() implies 0 <= #[trigger] token_info(cur[k]).0 < 18 by {
                if k < prev.len() {
                    assert(cur[k] == prev[k]);
                }
            }
            assert forall|k: int| 0 <= k < cur.len() implies #[trigger] cur[k].len() > 0 by {
                if k < prev.len() {
                    assert(cur[k] == prev[k]);
                }
            }
            assert forall|k: int, c: int| 0 <= k < cur.len() && 0 <= c < cur[k].len() implies !is_space(
                #[trigger] cur[k][c],
            ) by {
                if k < prev.len() {
                    assert(cur[k] == prev[k]);
                }
            }
        }
    } else {
        assert forall|i: int| 0 <= i < 18 implies #[trigger] parsed_counts(bag_tokens(b, n))[i] == 0 by {
            assert(bag_tokens(b, n) == Seq::<Seq<char>>::empty());
        }
    }
}

/// Writing a bag and reading the text back gives the same bag.
pub proof fn lemma_fmt_parse_roundtrip(b: Bag)
    ensures
        bag_text_ok(join_words(bag_tokens(b@, 18))),
        forall|i: int| 0 <= i < 18 ==> #[trigger] parsed_counts(words(join_words(bag_tokens(b@, 18))))[i]
            == b@[i],
{
    lemma_counts_of_tokens(b@, 18);
    lemma_words_join(bag_tokens(b@, 18));
}

/// Read a bag text, or None when a token names no chip or a count would pass 255.
pub fn try_parse_bag(s: &str) -> (r: Option<Bag>)
    ensures
        r is Some <==> bag_text_ok(s@),
        r matches Some(b) ==> forall|i: int| 0 <= i < 18 ==> b@[i] == parsed_counts(words(s@))[i],
{
    let cs = chars_of(s);
    let ghost all = words(s@);
    let mut b = [0u8; 18];
    let mut cur: Vec<char> = Vec::new();
    let ghost mut done: Seq<Seq<char>> = seq![];
    proof {
        lemma_parsed_counts_shape(all);
        assert(parsed_counts(done) =~= Seq::new(18, |_i: int| 0int));
    }
    let mut i: usize = 0;
    while i < cs.len()
        invariant
            cs@ == s@,
            all == words(s@),
            i <= cs@.len(),
            all == done + words_from(cs@, i as int, cur@),
            done.len() <= all.len(),
            done == all.take(done.len() as int),
            forall|k: int| 0 <= k < done.len() ==> 0 <= #[trigger] token_info(done[k]).0 < 18,
            forall|j: int| 0 <= j < 18 ==> b@[j] == #[trigger] parsed_counts(done)[j],
        decreases cs@.len() - i,
    {
        if is_white(cs[i]) {
            if cur.len() > 0 {
                proof {
                    assert(words_from(cs@, i as int, cur@) == seq![cur@] + words_from(
                        cs@,
                        i + 1,
                        seq![],
                    ));
                    assert(all =~= done.push(cur@) + words_from(cs@, i + 1, seq![]));
                }
                if !check_token(&mut b, &cur, Ghost(done), Ghost(all)) {
                    return None;
                }
                proof {
                    done = done.push(cur@);
                }
                cur = Vec::new();
            } else {
                proof {
                    assert(words_from(cs@, i as int, cur@) =~= words_from(cs@, i + 1, seq![]));
                    assert(cur@ =~= seq![]);
                }
            }
        } else {
            proof {
                assert(words_from(cs@, i as int, cur@) == words_from(cs@, i + 1, cur@.push(cs@[i as int])));
            }
            cur.push(cs[i]);
        }
        i = i + 1;
    }
    if cur.len() > 0 {
        proof {
            assert(words_from(cs@, i as int, cur@) == seq![cur@]);
            assert(all =~= done.push(cur@));
        }
        if !check_token(&mut b, &cur, Ghost(done), Ghost(all)) {
            return None;
        }
        proof {
            done = done.push(cur@);
        }
    } else {
        proof {
            assert(words_from(cs@, i as int, cur@) == Seq::<Seq<char>>::empty());
            assert(all =~= done);
        }
    }
    proof {
        assert(all =~= done);
        lemma_parsed_counts_shape(all);
    }
    Some(b)
}

/// Add the next token of a bag text to the bag when it names a chip and the count stays a
/// byte; otherwise report that the text is not a bag.
fn check_token(b: &mut Bag, cur: &Vec<char>, Ghost(done): Ghost<Seq<Seq<char>>>, Ghost(all): Ghost<Seq<Seq<char>>>) -> (ok: bool)
    requires
        done.len() < all.len(),
        done == all.take(done.len() as int),
        all[done.len() as int] == cur@,
        forall|k: int| 0 <= k < done.len() ==> 0 <= #[trigger] token_info(done[k]).0 < 18,
        forall|j: int| 0 <= j < 18 ==> old(b)@[j] == #[trigger] parsed_counts(done)[j],
    ensures
        ok ==> forall|j: int| 0 <= j < 18 ==> final(b)@[j] == #[trigger] parsed_counts(done.push(cur@))[j],
        ok ==> 0 <= token_info(cur@).0 < 18,
        !ok ==> !bag_text_ok_words(all),
{
    proof {
        assert(all.take(done.len() as int + 1) =~= done.push(cur@));
        lemma_parsed_counts_prefix(all, done.len() as int + 1);
        lemma_parsed_counts_shape(done);
        lemma_parsed_counts_shape(done.push(cur@));
        assert((done.push(cur@)).drop_last() =~= done);
    }
    let (idx, n) = read_token(cur);
    if idx >= N {
        proof {
            assert(!(0 <= token_info(all[done.len() as int]).0 < 18));
        }
        return false;
    }
    proof {
        assert(parsed_counts(done.push(cur@))[idx as int] == parsed_counts(done)[idx as int] + n);
    }
    if b[idx] as u32 + n as u32 > 255 {
        proof {
            assert(parsed_counts(done.push(cur@))[idx as int] <= parsed_counts(all)[idx as int]);
        }
        return false;
    }
    b[idx] = b[idx] + n;
    true
}

/// A text's words all name chips and no count passes 255.
pub open spec fn bag_text_ok_words(toks: Seq<Seq<char>>) -> bool {
    &&& forall|k: int| 0 <= k < toks.len() ==> 0 <= #[trigger] token_info(toks[k]).0 < 18
    &&& forall|i: int| 0 <= i < 18 ==> #[trigger] parsed_counts(toks)[i] <= 255
}

} // verus!
