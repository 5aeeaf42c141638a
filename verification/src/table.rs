//! The rules that couple the players at one table: the leader's score (rat tails), who rolls
//! the bonus die, how black chips compare with the neighbours, and who won.

use vstd::prelude::*;

verus! {

/// The highest of the scores.
pub fn leader_vp(vps: &[i32]) -> (m: i32)
    requires
        vps@.len() >= 1,
    ensures
        vps@.contains(m),
        forall|j: int| 0 <= j < vps@.len() ==> vps@[j] <= m,
{
    let mut m = vps[0];
    let mut j: usize = 1;
    while j < vps.len()
        invariant
            1 <= j <= vps@.len(),
            vps@.contains(m),
            forall|k: int| 0 <= k < j ==> vps@[k] <= m,
        decreases vps@.len() - j,
    {
        if vps[j] > m {
            m = vps[j];
        }
        j = j + 1;
    }
    m
}

/// The best score among the seats other than `i`.
pub fn best_other_vp(vps: &[i32], i: usize) -> (m: i32)
    requires
        vps@.len() >= 2,
        i < vps@.len(),
    ensures
        exists|j: int| 0 <= j < vps@.len() && j != i && vps@[j] == m,
        forall|j: int| 0 <= j < vps@.len() && j != i ==> vps@[j] <= m,
{
    let first: usize = if i == 0 {
        1
    } else {
        0
    };
    let mut m = vps[first];
    let mut j: usize = 0;
    while j < vps.len()
        invariant
            j <= vps@.len(),
            first < vps@.len(),
            first != i,
            exists|k: int| 0 <= k < vps@.len() && k != i && vps@[k] == m,
            vps@[first as int] <= m,
            forall|k: int| 0 <= k < j && k != i ==> vps@[k] <= m,
        decreases vps@.len() - j,
    {
        if j != i && vps[j] > m {
            m = vps[j];
        }
        j = j + 1;
    }
    m
}

/// The scoring space of the furthest pot that did not explode, if any.
pub open spec fn best_space(exploded: Seq<bool>, spaces: Seq<usize>, n: int) -> Option<usize>
    decreases n,
{
    if n <= 0 {
        None
    } else {
        let prev = best_space(exploded, spaces, n - 1);
        if exploded[n - 1] {
            prev
        } else {
            match prev {
                None => Some(spaces[n - 1]),
                Some(b) => Some(if spaces[n - 1] > b { spaces[n - 1] } else { b }),
            }
        }
    }
}

proof fn lemma_best_space(exploded: Seq<bool>, spaces: Seq<usize>, n: int)
    requires
        0 <= n,
    ensures
        best_space(exploded, spaces, n) is None <==> forall|j: int| 0 <= j < n ==> exploded[j],
        best_space(exploded, spaces, n) matches Some(b) ==> {
            &&& exists|j: int| 0 <= j < n && !exploded[j] && spaces[j] == b
            &&& forall|j: int| 0 <= j < n && !exploded[j] ==> spaces[j] <= b
        },
    decreases n,
{
    if n > 0 {
        lemma_best_space(exploded, spaces, n - 1);
    }
}

/// Who rolls the bonus die: every pot that did not explode and reached the furthest space
/// among the pots that did not explode (ties all roll).
pub fn die_winners(exploded: &[bool], spaces: &[usize]) -> (w: Vec<bool>)
    requires
        exploded@.len() == spaces@.len(),
    ensures
        w@.len() == exploded@.len(),
        forall|i: int| 0 <= i < w@.len() ==> (w@[i] <==> (!exploded@[i] && forall|j: int|
            0 <= j < exploded@.len() && !exploded@[j] ==> spaces@[j] <= spaces@[i])),
        (exists|j: int| 0 <= j < exploded@.len() && !exploded@[j]) ==> exists|i: int|
            0 <= i < w@.len() && w@[i],
{
    let n = exploded.len();
    let mut best: Option<usize> = None;
    let mut j: usize = 0;
    while j < n
        invariant
            n == exploded@.len(),
            n == spaces@.len(),
            j <= n,
            best == best_space(exploded@, spaces@, j as int),
        decreases n - j,
    {
        if !exploded[j] {
            best = match best {
                None => Some(spaces[j]),
                Some(b) => Some(if spaces[j] > b { spaces[j] } else { b }),
            };
        }
        j = j + 1;
    }
    proof {
        lemma_best_space(exploded@, spaces@, n as int);
    }
    let mut w: Vec<bool> = Vec::new();
    let mut i: usize = 0;
    while i < n
        invariant
            n == exploded@.len(),
            n == spaces@.len(),
            i <= n,
            w@.len() == i,
            best == best_space(exploded@, spaces@, n as int),
            best is None <==> forall|j: int| 0 <= j < n ==> exploded@[j],
            best matches Some(b) ==> {
                &&& exists|j: int| 0 <= j < n && !exploded@[j] && spaces@[j] == b
                &&& forall|j: int| 0 <= j < n && !exploded@[j] ==> spaces@[j] <= b
            },
            forall|k: int| 0 <= k < i ==> (w@[k] <==> (!exploded@[k] && forall|j: int|
                0 <= j < n && !exploded@[j] ==> spaces@[j] <= spaces@[k])),
        decreases n - i,
    {
        let won = !exploded[i] && match best {
            Some(b) => spaces[i] == b,
            None => false,
        };
        w.push(won);
        i = i + 1;
    }
    proof {
        if exists|j: int| 0 <= j < n && !exploded@[j] {
            let b = best->0;
            let j = choose|j: int| 0 <= j < n && !exploded@[j] && spaces@[j] == b;
            assert(w@[j]);
        }
    }
    w
}

/// Black-chip result for seat `i` against its neighbours: with two players a tie or more gives
/// the droplet step and more gives the ruby too; with three or four, beating one neighbour gives
/// the droplet step and beating both the ruby too. No black chip, no reward.
pub open spec fn black_spec(blacks: Seq<i32>, i: int) -> (bool, bool) {
    let n = blacks.len() as int;
    let b = blacks[i];
    if b == 0 {
        (false, false)
    } else if n == 2 {
        (b >= blacks[1 - i], b > blacks[1 - i])
    } else {
        let left = blacks[(i + n - 1) % n];
        let right = blacks[(i + 1) % n];
        let beaten = (if b > left { 1int } else { 0 }) + (if b > right { 1int } else { 0 });
        (beaten >= 1, beaten == 2)
    }
}

/// The black-chip comparison of seat `i` with its neighbours: (droplet step, ruby).
pub fn black_result(blacks: &[i32], i: usize) -> (r: (bool, bool))
    requires
        2 <= blacks@.len() <= usize::MAX / 2,
        i < blacks@.len(),
    ensures
        r == black_spec(blacks@, i as int),
{
    let n = blacks.len();
    let b = blacks[i];
    if b == 0 {
        return (false, false);
    }
    if n == 2 {
        let o = blacks[1 - i];
        return (b >= o, b > o);
    }
    let left = blacks[(i + n - 1) % n];
    let right = blacks[(i + 1) % n];
    let mut beaten: u32 = 0;
    if b > left {
        beaten = beaten + 1;
    }
    if b > right {
        beaten = beaten + 1;
    }
    (beaten >= 1, beaten == 2)
}

/// With three or more players the black-chip result of a seat depends only on its own count
/// and its two neighbours' (the seats before and after it round the table): with at least one
/// black chip, beating either neighbour gives the droplet step, beating both gives the ruby.
/// With two players a tie or more gives the droplet step and more gives the ruby. No black
/// chip, no reward.
pub proof fn lemma_black_neighbours(blacks: Seq<i32>, i: int)
    requires
        2 <= blacks.len(),
        0 <= i < blacks.len(),
    ensures
        ({
            let n = blacks.len() as int;
            let b = blacks[i];
            let left = blacks[if i == 0 { n - 1 } else { i - 1 }];
            let right = blacks[if i == n - 1 { 0 } else { i + 1 }];
            let r = black_spec(blacks, i);
            &&& b == 0 ==> !r.0 && !r.1
            &&& (b != 0 && n >= 3) ==> (r.0 <==> (b > left || b > right)) && (r.1 <==> (b > left && b > right))
            &&& (b != 0 && n == 2) ==> (r.0 <==> b >= blacks[1 - i]) && (r.1 <==> b > blacks[1 - i])
        }),
{
    let n = blacks.len() as int;
    if i == 0 {
        assert((i + n - 1) % n == n - 1) by {
            vstd::arithmetic::div_mod::lemma_small_mod((n - 1) as nat, n as nat);
        }
    } else {
        assert((i + n - 1) % n == i - 1) by {
            vstd::arithmetic::div_mod::lemma_mod_add_multiples_vanish(i - 1, n);
            vstd::arithmetic::div_mod::lemma_small_mod((i - 1) as nat, n as nat);
        }
    }
    if i == n - 1 {
        assert((i + 1) % n == 0) by {
            vstd::arithmetic::div_mod::lemma_mod_self_0(n);
        }
    } else {
        assert((i + 1) % n == i + 1) by {
            vstd::arithmetic::div_mod::lemma_small_mod((i + 1) as nat, n as nat);
        }
    }
}

/// Who won: every seat with the highest final score (ties all win).
pub fn winners(vps: &[i32]) -> (w: Vec<bool>)
    requires
        vps@.len() >= 1,
    ensures
        w@.len() == vps@.len(),
        forall|i: int| 0 <= i < w@.len() ==> (w@[i] <==> forall|j: int| 0 <= j < vps@.len() ==> vps@[j] <= vps@[i]),
        exists|i: int| 0 <= i < w@.len() && w@[i],
{
    let top = leader_vp(vps);
    let mut w: Vec<bool> = Vec::new();
    let mut i: usize = 0;
    while i < vps.len()
        invariant
            i <= vps@.len(),
            w@.len() == i,
            vps@.contains(top),
            forall|j: int| 0 <= j < vps@.len() ==> vps@[j] <= top,
            forall|k: int| 0 <= k < i ==> (w@[k] <==> forall|j: int| 0 <= j < vps@.len() ==> vps@[j] <= vps@[k]),
        decreases vps@.len() - i,
    {
        w.push(vps[i] == top);
        i = i + 1;
    }
    proof {
        let k = choose|k: int| 0 <= k < vps@.len() && vps@[k] == top;
        assert(w@[k]);
    }
    w
}

} // verus!
