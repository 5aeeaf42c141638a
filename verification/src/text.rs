//! Characters of text: reading a string's characters, white space, upper case, searching,
//! comma-separated lists, command-line options, and reading a byte-sized decimal number.

use vstd::prelude::*;

verus! {

/// The characters of a string, in order.
pub fn chars_of(s: &str) -> (v: Vec<char>)
    ensures
        v@ == s@,
{
    let mut v: Vec<char> = Vec::new();
    for c in it: s.chars()
        invariant
            v@ == it.seq().take(it.index() as int),
            it.seq() == s@,
    {
        v.push(c);
    }
    v
}

/// The Unicode White_Space characters.
pub open spec fn is_space(c: char) -> bool {
    let u = c as u32;
    ||| 0x09 <= u <= 0x0D
    ||| u == 0x20
    ||| u == 0x85
    ||| u == 0xA0
    ||| u == 0x1680
    ||| 0x2000 <= u <= 0x200A
    ||| u == 0x2028
    ||| u == 0x2029
    ||| u == 0x202F
    ||| u == 0x205F
    ||| u == 0x3000
}

/// Whether a character is white space (the Unicode White_Space property).
pub fn is_white(c: char) -> (b: bool)
    ensures
        b == is_space(c),
{
    let u = c as u32;
    (0x09 <= u && u <= 0x0D) || u == 0x20 || u == 0x85 || u == 0xA0 || u == 0x1680 || (0x2000 <= u
        && u <= 0x200A) || u == 0x2028 || u == 0x2029 || u == 0x202F || u == 0x205F || u == 0x3000
}

/// What `char::to_uppercase` yields for a character.
pub uninterp spec fn upper_of(c: char) -> Seq<char>;

/// `char::to_uppercase`, collected: claimed to return exactly the characters the standard
/// library's Unicode upper-case mapping gives for `c`, named `upper_of(c)`; nothing more is
/// stated of that mapping.
#[verifier::external_body]
fn std_upper(c: char) -> (r: Vec<char>)
    ensures
        r@ == upper_of(c),
{
    c.to_uppercase().collect()
}

/// The upper case of one character: ASCII letters a-z become A-Z, other ASCII characters stay,
/// and any other character maps as the Unicode upper-case mapping says.
pub open spec fn upper_char(c: char) -> Seq<char> {
    if 'a' <= c && c <= 'z' {
        seq![((c as u32) - 32) as char]
    } else if (c as u32) < 128 {
        seq![c]
    } else {
        upper_of(c)
    }
}

/// The upper case of a text, character by character.
pub open spec fn upper_seq(t: Seq<char>) -> Seq<char>
    decreases t.len(),
{
    if t.len() == 0 {
        seq![]
    } else {
        upper_seq(t.drop_last()) + upper_char(t.last())
    }
}

/// The upper case of a text.
pub fn to_upper(t: &Vec<char>) -> (u: Vec<char>)
    ensures
        u@ == upper_seq(t@),
{
    let mut u: Vec<char> = Vec::new();
    let mut k: usize = 0;
    while k < t.len()
        invariant
            k <= t@.len(),
            u@ == upper_seq(t@.take(k as int)),
        decreases t@.len() - k,
    {
        let c = t[k];
        proof {
            assert(t@.take(k + 1).drop_last() =~= t@.take(k as int));
            assert(t@.take(k + 1).last() == c);
        }
        if 'a' <= c && c <= 'z' {
            let up = ((c as u32) - 32) as u8 as char;
            u.push(up);
            proof {
                assert(up == ((c as u32) - 32) as char);
                assert(u@ =~= upper_seq(t@.take(k as int)) + upper_char(c));
            }
        } else if (c as u32) < 128 {
            u.push(c);
            proof {
                assert(u@ =~= upper_seq(t@.take(k as int)) + upper_char(c));
            }
        } else {
            let mut more = std_upper(c);
            let ghost before = u@;
            u.append(&mut more);
            proof {
                assert(u@ =~= before + upper_char(c));
            }
        }
        k = k + 1;
    }
    proof {
        assert(t@.take(k as int) =~= t@);
    }
    u
}

/// The value of a run of decimal digits.
pub open spec fn digits_value(d: Seq<char>) -> int
    decreases d.len(),
{
    if d.len() == 0 {
        0
    } else {
        digits_value(d.drop_last()) * 10 + (d.last() as int - 48)
    }
}

pub open spec fn is_digit(c: char) -> bool {
    '0' <= c && c <= '9'
}

/// Every character is a decimal digit.
pub open spec fn all_digits(d: Seq<char>) -> bool {
    forall|k: int| 0 <= k < d.len() ==> is_digit(#[trigger] d[k])
}

/// The text after an optional leading '+'.
pub open spec fn strip_plus(s: Seq<char>) -> Seq<char> {
    if s.len() > 0 && s[0] == '+' {
        s.drop_first()
    } else {
        s
    }
}

/// A byte written as one or more decimal digits.
pub open spec fn parse_digits(d: Seq<char>) -> Option<int> {
    if d.len() == 0 || !all_digits(d) || digits_value(d) > 255 {
        None
    } else {
        Some(digits_value(d))
    }
}

/// How the standard library reads a byte from text: an optional '+', then one or more
/// decimal digits whose value is at most 255.
pub open spec fn parse_u8_spec(s: Seq<char>) -> Option<int> {
    parse_digits(strip_plus(s))
}

pub proof fn lemma_digits_value_nonneg(d: Seq<char>)
    requires
        all_digits(d),
    ensures
        digits_value(d) >= 0,
    decreases d.len(),
{
    if d.len() > 0 {
        assert(all_digits(d.drop_last()));
        lemma_digits_value_nonneg(d.drop_last());
    }
}

/// Digits values only grow as digits are appended.
proof fn lemma_digits_value_grows(d: Seq<char>, k: int)
    requires
        0 <= k <= d.len(),
        all_digits(d),
    ensures
        digits_value(d.take(k)) <= digits_value(d),
    decreases d.len() - k,
{
    if k < d.len() {
        lemma_digits_value_grows(d, k + 1);
        assert(d.take(k + 1).drop_last() =~= d.take(k));
        assert(all_digits(d.take(k)));
        lemma_digits_value_nonneg(d.take(k));
    } else {
        assert(d.take(k) =~= d);
    }
}

/// Read a byte from `s[from..]` as the standard library does (None when it is not one).
pub fn parse_u8(s: &Vec<char>, from: usize) -> (r: Option<u8>)
    requires
        from <= s@.len(),
    ensures
        r matches Some(v) ==> parse_u8_spec(s@.skip(from as int)) == Some(v as int),
        r is None ==> parse_u8_spec(s@.skip(from as int)) is None,
{
    let ghost t = s@.skip(from as int);
    let mut k = from;
    if k < s.len() && s[k] == '+' {
        k = k + 1;
    }
    let ghost d = s@.skip(k as int);
    proof {
        if t.len() > 0 && t[0] == '+' {
            assert(d =~= t.drop_first());
        } else {
            assert(d =~= t);
        }
    }
    if k == s.len() {
        return None;
    }
    let start = k;
    let mut v: u32 = 0;
    while k < s.len()
        invariant
            from <= start <= k <= s@.len(),
            d == s@.skip(start as int),
            t == s@.skip(from as int),
            d.len() > 0,
            (t.len() > 0 && t[0] == '+') ==> d == t.drop_first(),
            !(t.len() > 0 && t[0] == '+') ==> d == t,
            forall|j: int| start <= j < k ==> is_digit(s@[j]),
            v == digits_value(s@.subrange(start as int, k as int)),
            v <= 255,
        decreases s@.len() - k,
    {
        let c = s[k];
        if !('0' <= c && c <= '9') {
            proof {
                assert(d[k - start] == c);
                assert(!is_digit(d[k - start]));
                assert(!all_digits(d));
                assert(strip_plus(t) == d);
            }
            return None;
        }
        proof {
            assert(s@.subrange(start as int, k + 1).drop_last() =~= s@.subrange(start as int, k as int));
        }
        v = v * 10 + (c as u32 - 48);
        if v > 255 {
            proof {
                if all_digits(d) {
                    lemma_digits_value_grows(d, k + 1 - start);
                    assert(d.take(k + 1 - start) =~= s@.subrange(start as int, k + 1));
                    assert(digits_value(d) > 255);
                }
                assert(strip_plus(t) == d);
            }
            return None;
        }
        k = k + 1;
    }
    proof {
        assert(s@.subrange(start as int, k as int) =~= d);
        assert forall|j: int| 0 <= j < d.len() implies is_digit(#[trigger] d[j]) by {
            assert(d[j] == s@[start + j]);
        }
        assert(all_digits(d));
        assert(strip_plus(t) == d);
    }
    Some(v as u8)
}

/// Whether two character sequences are the same.
fn same_chars(a: &Vec<char>, b: &Vec<char>) -> (r: bool)
    ensures
        r == (a@ == b@),
{
    if a.len() != b.len() {
        return false;
    }
    let mut i: usize = 0;
    while i < a.len()
        invariant
            i <= a.len(),
            a.len() == b.len(),
            forall|j: int| 0 <= j < i ==> a@[j] == b@[j],
        decreases a.len() - i,
    {
        if a[i] != b[i] {
            return false;
        }
        i = i + 1;
    }
    assert(a@ =~= b@);
    true
}

/// The index of the first argument from `i` on that equals `key` (the length if none does).
pub open spec fn first_match(args: Seq<String>, key: Seq<char>, i: int) -> int
    decreases args.len() - i,
{
    if i >= args.len() || i < 0 {
        args.len() as int
    } else if args[i]@ == key {
        i
    } else {
        first_match(args, key, i + 1)
    }
}

/// The value of a command-line option: the argument after the first one equal to `key`, if
/// there is one after it.
pub fn arg(args: &[String], key: &str) -> (r: Option<String>)
    ensures
        ({
            let m = first_match(args@, key@, 0);
            r == if m + 1 < args@.len() { Some(args@[m + 1]) } else { None::<String> }
        }),
{
    let k = chars_of(key);
    let mut i: usize = 0;
    while i < args.len()
        invariant
            i <= args.len(),
            k@ == key@,
            first_match(args@, key@, 0) == first_match(args@, key@, i as int),
        decreases args.len() - i,
    {
        let a = chars_of(args[i].as_str());
        if same_chars(&a, &k) {
            if i + 1 < args.len() {
                return Some(args[i + 1].clone());
            }
            return None;
        }
        i = i + 1;
    }
    None
}

/// The pieces of a text between commas (empty pieces included), the current piece being `cur`.
pub open spec fn comma_pieces(u: Seq<char>, i: int, cur: Seq<char>) -> Seq<Seq<char>>
    decreases u.len() - i,
{
    if i >= u.len() || i < 0 {
        seq![cur]
    } else if u[i] == ',' {
        seq![cur] + comma_pieces(u, i + 1, seq![])
    } else {
        comma_pieces(u, i + 1, cur.push(u[i]))
    }
}

/// A text without its leading white space.
pub open spec fn trim_start(p: Seq<char>) -> Seq<char>
    decreases p.len(),
{
    if p.len() > 0 && is_space(p[0]) {
        trim_start(p.drop_first())
    } else {
        p
    }
}

/// A text without its trailing white space.
pub open spec fn trim_end(p: Seq<char>) -> Seq<char>
    decreases p.len(),
{
    if p.len() > 0 && is_space(p.last()) {
        trim_end(p.drop_last())
    } else {
        p
    }
}

/// The piece without its surrounding white space.
pub fn trim_piece(p: &Vec<char>) -> (t: Vec<char>)
    ensures
        t@ == trim_end(trim_start(p@)),
{
    let mut a: usize = 0;
    proof {
        assert(p@.skip(0) =~= p@);
    }
    while a < p.len() && is_white(p[a])
        invariant
            a <= p@.len(),
            trim_start(p@) == trim_start(p@.skip(a as int)),
        decreases p@.len() - a,
    {
        proof {
            assert(p@.skip(a as int).drop_first() =~= p@.skip(a + 1));
        }
        a = a + 1;
    }
    let ghost s = p@.skip(a as int);
    proof {
        assert(trim_start(s) == s);
    }
    let mut z: usize = p.len();
    while z > a && is_white(p[z - 1])
        invariant
            a <= z <= p@.len(),
            s == p@.skip(a as int),
            trim_start(p@) == s,
            trim_end(s) == trim_end(p@.subrange(a as int, z as int)),
        decreases z,
    {
        proof {
            assert(p@.subrange(a as int, z as int).drop_last() =~= p@.subrange(a as int, z - 1));
        }
        z = z - 1;
    }
    proof {
        assert(s =~= p@.subrange(a as int, p@.len() as int));
        assert(trim_end(p@.subrange(a as int, z as int)) == p@.subrange(a as int, z as int));
    }
    let mut t: Vec<char> = Vec::new();
    let mut k = a;
    while k < z
        invariant
            a <= k <= z,
            z <= p@.len(),
            t@ == p@.subrange(a as int, k as int),
        decreases z - k,
    {
        t.push(p[k]);
        proof {
            assert(t@ =~= p@.subrange(a as int, k + 1));
        }
        k = k + 1;
    }
    t
}

/// The first position at or after `from` where `pat` occurs in `t`, or -1 when there is none.
pub open spec fn find_from(t: Seq<char>, pat: Seq<char>, from: int) -> int
    decreases t.len() + 1 - from,
{
    if from < 0 || from + pat.len() > t.len() {
        -1
    } else if t.subrange(from, from + pat.len()) == pat {
        from
    } else {
        find_from(t, pat, from + 1)
    }
}

/// A position `find_from` gives is at or after `from`, and `pat` occurs there.
pub proof fn lemma_find_from(t: Seq<char>, pat: Seq<char>, from: int)
    ensures
        -1 <= find_from(t, pat, from) <= t.len(),
        find_from(t, pat, from) >= 0 ==> {
            let i = find_from(t, pat, from);
            &&& from <= i
            &&& i + pat.len() <= t.len()
            &&& t.subrange(i, i + pat.len()) == pat
        },
    decreases t.len() + 1 - from,
{
    if !(from < 0 || from + pat.len() > t.len()) && t.subrange(from, from + pat.len()) != pat {
        lemma_find_from(t, pat, from + 1);
    }
}

/// Whether `pat` occurs in `t` at position `i`.
fn matches_at(t: &Vec<char>, pat: &Vec<char>, i: usize) -> (r: bool)
    requires
        i + pat.len() <= t.len(),
    ensures
        r == (t@.subrange(i as int, i + pat.len()) == pat@),
{
    let mut j: usize = 0;
    while j < pat.len()
        invariant
            j <= pat.len(),
            i + pat.len() <= t.len(),
            forall|k: int| 0 <= k < j ==> t@[i + k] == pat@[k],
        decreases pat.len() - j,
    {
        if t[i + j] != pat[j] {
            proof {
                assert(t@.subrange(i as int, i + pat.len())[j as int] != pat@[j as int]);
            }
            return false;
        }
        j = j + 1;
    }
    assert(t@.subrange(i as int, i + pat.len()) =~= pat@);
    true
}

/// The first position at or after `from` where `pat` occurs in `t`.
pub fn find(t: &Vec<char>, pat: &Vec<char>, from: usize) -> (r: Option<usize>)
    ensures
        r == if find_from(t@, pat@, from as int) >= 0 {
            Some(find_from(t@, pat@, from as int) as usize)
        } else {
            None::<usize>
        },
        r matches Some(i) ==> from <= i && i + pat.len() <= t.len() && t@.subrange(i as int, i + pat.len()) == pat@,
        -1 <= find_from(t@, pat@, from as int) <= t.len(),
{
    proof {
        lemma_find_from(t@, pat@, from as int);
    }
    if pat.len() > t.len() {
        return None;
    }
    let last = t.len() - pat.len();
    if from > last {
        return None;
    }
    let mut i = from;
    loop
        invariant
            last == t.len() - pat.len(),
            pat.len() <= t.len(),
            from <= i <= last,
            find_from(t@, pat@, from as int) == find_from(t@, pat@, i as int),
        decreases last - i,
    {
        if matches_at(t, pat, i) {
            return Some(i);
        }
        if i == last {
            proof {
                assert(find_from(t@, pat@, i + 1) == -1);
            }
            return None;
        }
        i = i + 1;
    }
}

/// The items of a comma-separated list: the pieces between commas, each without its
/// surrounding white space.
pub open spec fn list_items(u: Seq<char>) -> Seq<Seq<char>> {
    comma_pieces(u, 0, seq![]).map_values(|p: Seq<char>| trim_end(trim_start(p)))
}

/// The characters of each text.
pub open spec fn views(v: Seq<Vec<char>>) -> Seq<Seq<char>> {
    v.map_values(|x: Vec<char>| x@)
}

proof fn lemma_trimmed_push(r: Seq<Vec<char>>, done: Seq<Seq<char>>, piece: Vec<char>, cur: Seq<char>)
    requires
        views(r) == done.map_values(|p: Seq<char>| trim_end(trim_start(p))),
        piece@ == trim_end(trim_start(cur)),
    ensures
        views(r.push(piece)) == done.push(cur).map_values(|p: Seq<char>| trim_end(trim_start(p))),
{
    let a = views(r.push(piece));
    let b = done.push(cur).map_values(|p: Seq<char>| trim_end(trim_start(p)));
    assert(views(r).len() == r.len());
    assert(a.len() == b.len());
    assert forall|j: int| 0 <= j < a.len() implies a[j] == b[j] by {
        if j < r.len() {
            assert(a[j] == r[j]@);
            assert(views(r)[j] == r[j]@);
            assert(b[j] == trim_end(trim_start(done[j])));
        }
    }
    assert(a =~= b);
}

/// The items of the comma-separated list strictly between positions `open` and `close`.
pub fn list_between(t: &Vec<char>, open: usize, close: usize) -> (r: Vec<Vec<char>>)
    requires
        open < close <= t.len(),
    ensures
        views(r@) == list_items(t@.subrange(open + 1, close as int)),
{
    let ghost u = t@.subrange(open + 1, close as int);
    let ghost all = comma_pieces(u, 0, seq![]);
    let mut r: Vec<Vec<char>> = Vec::new();
    let mut cur: Vec<char> = Vec::new();
    let ghost mut done: Seq<Seq<char>> = seq![];
    let mut k = open + 1;
    while k < close
        invariant
            open < k <= close,
            close <= t.len(),
            u == t@.subrange(open + 1, close as int),
            all == comma_pieces(u, 0, seq![]),
            all == done + comma_pieces(u, k - open - 1, cur@),
            views(r@) == done.map_values(|p: Seq<char>| trim_end(trim_start(p))),
        decreases close - k,
    {
        let ghost i = k - open - 1;
        if t[k] == ',' {
            let piece = trim_piece(&cur);
            proof {
                assert(u[i] == t@[k as int]);
                assert(comma_pieces(u, i, cur@) == seq![cur@] + comma_pieces(u, i + 1, seq![]));
                assert(all =~= done.push(cur@) + comma_pieces(u, i + 1, seq![]));
                lemma_trimmed_push(r@, done, piece, cur@);
                done = done.push(cur@);
            }
            r.push(piece);
            cur = Vec::new();
        } else {
            proof {
                assert(u[i] == t@[k as int]);
                assert(comma_pieces(u, i, cur@) == comma_pieces(u, i + 1, cur@.push(u[i])));
            }
            cur.push(t[k]);
        }
        k = k + 1;
    }
    let piece = trim_piece(&cur);
    proof {
        assert(comma_pieces(u, (k - open - 1) as int, cur@) == seq![cur@]);
        assert(all =~= done.push(cur@));
        lemma_trimmed_push(r@, done, piece, cur@);
    }
    r.push(piece);
    r
}

} // verus!
