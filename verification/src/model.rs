//! The value model's features and weights files: the feature names in coefficient order, and
//! the layout of a weights file (which lists of numbers it holds, and where).

use vstd::prelude::*;
use crate::data::{N, NAMES, ROUNDS};
use crate::text::{chars_of, find, find_from, list_between, list_items, views};

verus! {

/// The feature names in coefficient order: the constant, each chip count, each chip count
/// squared, then the droplet, its square, rubies, flask, total white value, coloured chips,
/// orange times red, white fraction and the margin.
pub open spec fn feature_names_spec() -> Seq<Seq<char>> {
    seq!["const"@] + Seq::new(18, |i: int| NAMES@[i]@) + Seq::new(18, |i: int| NAMES@[i]@ + "^2"@)
        + seq![
        "droplet"@,
        "droplet^2"@,
        "rubies"@,
        "flask"@,
        "white_value"@,
        "coloured_chips"@,
        "orange_x_red"@,
        "white_fraction"@,
        "margin"@,
    ]
}

pub open spec fn strings_view(v: Seq<String>) -> Seq<Seq<char>> {
    v.map_values(|s: String| s@)
}

proof fn lemma_strings_view_push(v: Seq<String>, s: String)
    ensures
        strings_view(v.push(s)) == strings_view(v).push(s@),
{
    assert(strings_view(v.push(s)) =~= strings_view(v).push(s@));
}

fn push_name(v: &mut Vec<String>, s: &str)
    ensures
        strings_view(final(v)@) == strings_view(old(v)@).push(s@),
{
    let t = String::from_str(s);
    proof {
        lemma_strings_view_push(v@, t);
    }
    v.push(t);
}

/// The names of the model's features, in coefficient order.
pub fn feature_names() -> (v: Vec<String>)
    ensures
        strings_view(v@) == feature_names_spec(),
{
    let mut v: Vec<String> = Vec::new();
    push_name(&mut v, "const");
    let mut i: usize = 0;
    while i < N
        invariant
            i <= N,
            strings_view(v@) == seq!["const"@] + Seq::new(i as nat, |k: int| NAMES@[k]@),
        decreases N - i,
    {
        push_name(&mut v, NAMES[i]);
        proof {
            assert(seq!["const"@] + Seq::new((i + 1) as nat, |k: int| NAMES@[k]@) =~= (seq!["const"@]
                + Seq::new(i as nat, |k: int| NAMES@[k]@)).push(NAMES@[i as int]@));
        }
        i = i + 1;
    }
    let ghost first = strings_view(v@);
    let mut i: usize = 0;
    while i < N
        invariant
            i <= N,
            first == seq!["const"@] + Seq::new(18, |k: int| NAMES@[k]@),
            strings_view(v@) == first + Seq::new(i as nat, |k: int| NAMES@[k]@ + "^2"@),
        decreases N - i,
    {
        let mut t = String::from_str(NAMES[i]);
        t.append("^2");
        proof {
            lemma_strings_view_push(v@, t);
            assert(first + Seq::new((i + 1) as nat, |k: int| NAMES@[k]@ + "^2"@) =~= (first + Seq::new(
                i as nat,
                |k: int| NAMES@[k]@ + "^2"@,
            )).push(NAMES@[i as int]@ + "^2"@));
        }
        v.push(t);
        i = i + 1;
    }
    let ghost second = strings_view(v@);
    push_name(&mut v, "droplet");
    push_name(&mut v, "droplet^2");
    push_name(&mut v, "rubies");
    push_name(&mut v, "flask");
    push_name(&mut v, "white_value");
    push_name(&mut v, "coloured_chips");
    push_name(&mut v, "orange_x_red");
    push_name(&mut v, "white_fraction");
    push_name(&mut v, "margin");
    proof {
        assert(strings_view(v@) =~= feature_names_spec());
    }
    v
}

/// Number of features (and coefficients per round) of the value model: the constant, 18 chip
/// counts, their squares, 8 summary features and the margin.
pub const NF: usize = 46;

/// The number texts a weights file holds: whether it is a win model, the opponents' mean VP
/// gain per round (win models only), and each round's coefficients.
pub struct WeightsText {
    pub win: bool,
    pub opp_gain: Vec<Vec<char>>,
    pub rounds: Vec<Vec<Vec<char>>>,
}

/// A key as a weights file writes it, in double quotes.
pub open spec fn quoted(s: Seq<char>) -> Seq<char> {
    seq!['"'] + s + seq!['"']
}

fn quoted_chars(s: &str) -> (v: Vec<char>)
    ensures
        v@ == quoted(s@),
{
    let mut v = vec!['"'];
    let mut c = chars_of(s);
    v.append(&mut c);
    v.push('"');
    proof {
        assert(v@ =~= quoted(s@));
    }
    v
}

proof fn lemma_lists_view_cons(items: Vec<Vec<char>>, rest: Seq<Vec<Vec<char>>>)
    ensures
        lists_view(seq![items] + rest) == seq![views(items@)] + lists_view(rest),
{
    let a = lists_view(seq![items] + rest);
    let b = seq![views(items@)] + lists_view(rest);
    assert(a.len() == b.len());
    assert forall|j: int| 0 <= j < a.len() implies a[j] == b[j] by {
        if j > 0 {
            assert((seq![items] + rest)[j] == rest[j - 1]);
        }
    }
    assert(a =~= b);
}

/// The coefficient lists of `n` rounds, each the next bracketed list from `pos` on; a round
/// must have NF numbers (a VP model may also have NF - 1, written before the margin feature).
pub open spec fn rounds_layout(t: Seq<char>, pos: int, n: nat, win: bool) -> Option<Seq<Seq<Seq<char>>>>
    decreases n,
{
    if n == 0 {
        Some(seq![])
    } else {
        let open = find_from(t, seq!['['], pos);
        let close = find_from(t, seq![']'], open);
        if open < 0 || close < 0 {
            None
        } else {
            let items = list_items(t.subrange(open + 1, close));
            if !(items.len() == NF || (!win && items.len() == NF - 1)) {
                None
            } else {
                match rounds_layout(t, close + 1, (n - 1) as nat, win) {
                    Some(rest) => Some(seq![items] + rest),
                    None => None,
                }
            }
        }
    }
}

/// The layout of a weights file: it is a win model when it names the win format; a win model
/// has an "opp_gain" list of at most 9 numbers; after the "rounds" key's opening bracket come
/// 9 coefficient lists (10 for a win model). None when a part is missing or a list has the
/// wrong length.
pub open spec fn weights_layout(t: Seq<char>) -> Option<(bool, Seq<Seq<char>>, Seq<Seq<Seq<char>>>)> {
    let win = find_from(t, "quackulator-win-v2"@, 0) >= 0;
    let gi = find_from(t, quoted("opp_gain"@), 0);
    let go = find_from(t, seq!['['], gi);
    let gc = find_from(t, seq![']'], go);
    let gains = if win {
        list_items(t.subrange(go + 1, gc))
    } else {
        seq![]
    };
    let ri = find_from(t, quoted("rounds"@), 0);
    let first = find_from(t, seq!['['], ri);
    if win && (gi < 0 || go < 0 || gc < 0 || gains.len() > 9) {
        None
    } else if ri < 0 || first < 0 {
        None
    } else {
        match rounds_layout(t, first + 1, if win { 10 } else { 9 }, win) {
            Some(rs) => Some((win, gains, rs)),
            None => None,
        }
    }
}

/// The characters of each item of each list.
pub open spec fn lists_view(v: Seq<Vec<Vec<char>>>) -> Seq<Seq<Seq<char>>> {
    v.map_values(|x: Vec<Vec<char>>| views(x@))
}

/// Read `n` coefficient lists, each the next bracketed list from `pos` on.
fn read_rounds(t: &Vec<char>, pos: usize, n: u32, win: bool) -> (r: Option<Vec<Vec<Vec<char>>>>)
    requires
        pos <= t.len(),
    ensures
        match r {
            Some(v) => rounds_layout(t@, pos as int, n as nat, win) == Some(lists_view(v@)),
            None => rounds_layout(t@, pos as int, n as nat, win) is None,
        },
    decreases n,
{
    if n == 0 {
        let v: Vec<Vec<Vec<char>>> = Vec::new();
        proof {
            assert(lists_view(v@) =~= seq![]);
        }
        return Some(v);
    }
    let lb = vec!['['];
    let rb = vec![']'];
    proof {
        assert(lb@ =~= seq!['[']);
        assert(rb@ =~= seq![']']);
    }
    let open = match find(t, &lb, pos) {
        Some(o) => o,
        None => {
            return None;
        },
    };
    let close = match find(t, &rb, open) {
        Some(c) => c,
        None => {
            return None;
        },
    };
    proof {
        assert(t@.subrange(close as int, close + 1)[0] == t@[close as int]);
        assert(t@.subrange(open as int, open + 1)[0] == t@[open as int]);
    }
    let items = list_between(t, open, close);
    if !(items.len() == NF || (!win && items.len() == NF - 1)) {
        proof {
            assert(views(items@).len() == items@.len());
        }
        return None;
    }
    match read_rounds(t, close + 1, n - 1, win) {
        Some(rest) => {
            let ghost rest_view = rest@;
            let mut v: Vec<Vec<Vec<char>>> = Vec::new();
            v.push(items);
            let ghost head = v@;
            let mut rest = rest;
            v.append(&mut rest);
            proof {
                assert(head =~= seq![items]);
                assert(v@ =~= seq![items] + rest_view);
                lemma_lists_view_cons(items, rest_view);
            }
            Some(v)
        },
        None => None,
    }
}

/// Find where a weights file keeps its numbers: whether it is a win model, the texts of the
/// opponents' gains (win models) and of each round's coefficients. None when a part is
/// missing or a list has the wrong length; the texts themselves are not checked here.
pub fn read_weights(text: &str) -> (r: Option<WeightsText>)
    ensures
        match r {
            Some(w) => weights_layout(text@) == Some((w.win, views(w.opp_gain@), lists_view(w.rounds@))),
            None => weights_layout(text@) is None,
        },
{
    let t = chars_of(text);
    let win = find(&t, &chars_of("quackulator-win-v2"), 0).is_some();
    let lb = vec!['['];
    let rb = vec![']'];
    proof {
        assert(lb@ =~= seq!['[']);
        assert(rb@ =~= seq![']']);
    }
    let mut gains: Vec<Vec<char>> = Vec::new();
    if win {
        let gi = match find(&t, &quoted_chars("opp_gain"), 0) {
            Some(g) => g,
            None => {
                return None;
            },
        };
        let go = match find(&t, &lb, gi) {
            Some(g) => g,
            None => {
                return None;
            },
        };
        let gc = match find(&t, &rb, go) {
            Some(g) => g,
            None => {
                return None;
            },
        };
        proof {
            assert(t@.subrange(go as int, go + 1)[0] == t@[go as int]);
            assert(t@.subrange(gc as int, gc + 1)[0] == t@[gc as int]);
        }
        gains = list_between(&t, go, gc);
        if gains.len() > 9 {
            proof {
                assert(views(gains@).len() == gains@.len());
            }
            return None;
        }
    }
    proof {
        assert(views(gains@).len() == gains@.len());
        if !win {
            assert(views(gains@) =~= seq![]);
        }
    }
    let ri = match find(&t, &quoted_chars("rounds"), 0) {
        Some(x) => x,
        None => {
            return None;
        },
    };
    let first = match find(&t, &lb, ri) {
        Some(x) => x,
        None => {
            return None;
        },
    };
    let n: u32 = if win { ROUNDS + 1 } else { ROUNDS };
    match read_rounds(&t, first + 1, n, win) {
        Some(rounds) => Some(WeightsText { win, opp_gain: gains, rounds }),
        None => None,
    }
}

} // verus!
