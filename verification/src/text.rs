//! Character-level text helpers: decimal rendering, whitespace trimming,
//! splitting on `..` and parsing of unsigned decimal numbers.

use vstd::prelude::*;

verus! {

/// The character of a decimal digit.
pub open spec fn digit_char(d: nat) -> char
    recommends
        d < 10,
{
    (48 + d) as char
}

/// The shortest decimal representation of `n`.
pub open spec fn decimal(n: nat) -> Seq<char>
    decreases n,
{
    if n < 10 {
        seq![digit_char(n)]
    } else {
        decimal(n / 10).push(digit_char(n % 10))
    }
}

/// Appends one character to a string (`String::push`).
#[verifier::external_body]
pub(crate) fn push_char(s: &mut String, c: char)
    ensures
        final(s)@ == old(s)@.push(c),
{
    s.push(c)
}

/// Appends the decimal representation of `n` to `s`.
pub fn push_decimal(s: &mut String, n: u64)
    ensures
        final(s)@ == old(s)@ + decimal(n as nat),
    decreases n,
{
    if n >= 10 {
        push_decimal(s, n / 10);
    }
    let d: u8 = (n % 10) as u8;
    let c: char = (48u8 + d) as char;
    push_char(s, c);
    assert(s@ =~= old(s)@ + decimal(n as nat));
}


/// The decimal representation of `n` as a new string.
pub fn decimal_string(n: u64) -> (s: String)
    ensures
        s@ == decimal(n as nat),
{
    let mut s = String::new();
    push_decimal(&mut s, n);
    assert(s@ =~= decimal(n as nat));
    s
}

/// The characters of a string, one by one.
pub fn chars_of(s: &str) -> (cs: Vec<char>)
    ensures
        cs@ == s@,
{
    let n = s.unicode_len();
    let mut cs: Vec<char> = Vec::new();
    let mut i: usize = 0;
    while i < n
        invariant
            n == s@.len(),
            i <= n,
            cs@ == s@.subrange(0, i as int),
        decreases n - i,
    {
        let c = s.get_char(i);
        cs.push(c);
        i = i + 1;
        assert(cs@ =~= s@.subrange(0, i as int));
    }
    assert(cs@ =~= s@);
    cs
}

/// The characters that `char::is_whitespace` accepts: those with the
/// Unicode `White_Space` property.
pub open spec fn is_white_space(c: char) -> bool {
    ||| ('\u{9}' <= c && c <= '\u{d}')
    ||| c == ' '
    ||| c == '\u{85}'
    ||| c == '\u{a0}'
    ||| c == '\u{1680}'
    ||| ('\u{2000}' <= c && c <= '\u{200a}')
    ||| c == '\u{2028}'
    ||| c == '\u{2029}'
    ||| c == '\u{202f}'
    ||| c == '\u{205f}'
    ||| c == '\u{3000}'
}

/// `c.is_whitespace()`
pub fn white_space(c: char) -> (b: bool)
    ensures
        b == is_white_space(c),
{
    ('\u{9}' <= c && c <= '\u{d}') || c == ' ' || c == '\u{85}' || c == '\u{a0}' || c == '\u{1680}'
        || ('\u{2000}' <= c && c <= '\u{200a}') || c == '\u{2028}' || c == '\u{2029}' || c
        == '\u{202f}' || c == '\u{205f}' || c == '\u{3000}'
}

/// `s` without its leading white space.
pub open spec fn trim_start(s: Seq<char>) -> Seq<char>
    decreases s.len(),
{
    if s.len() > 0 && is_white_space(s[0]) {
        trim_start(s.drop_first())
    } else {
        s
    }
}

/// `s` without its trailing white space.
pub open spec fn trim_end(s: Seq<char>) -> Seq<char>
    decreases s.len(),
{
    if s.len() > 0 && is_white_space(s.last()) {
        trim_end(s.drop_last())
    } else {
        s
    }
}

/// `str::trim`: `s` without leading and trailing white space.
pub open spec fn trim(s: Seq<char>) -> Seq<char> {
    trim_end(trim_start(s))
}

/// The bounds of the trimmed part of `cs[lo..hi]`.
pub fn trim_bounds(cs: &Vec<char>, lo: usize, hi: usize) -> (r: (usize, usize))
    requires
        lo <= hi <= cs@.len(),
    ensures
        lo <= r.0 <= r.1 <= hi,
        cs@.subrange(r.0 as int, r.1 as int) == trim(cs@.subrange(lo as int, hi as int)),
{
    let mut a = lo;
    while a < hi && white_space(cs[a])
        invariant
            lo <= a <= hi <= cs@.len(),
            trim_start(cs@.subrange(lo as int, hi as int)) == trim_start(
                cs@.subrange(a as int, hi as int),
            ),
        decreases hi - a,
    {
        assert(cs@.subrange(a as int, hi as int).drop_first() =~= cs@.subrange(
            a + 1,
            hi as int,
        ));
        a = a + 1;
    }
    let mut b = hi;
    assert(trim_start(cs@.subrange(a as int, hi as int)) == cs@.subrange(a as int, hi as int));
    while b > a && white_space(cs[b - 1])
        invariant
            lo <= a <= b <= hi <= cs@.len(),
            trim(cs@.subrange(lo as int, hi as int)) == trim_end(
                cs@.subrange(a as int, b as int),
            ),
        decreases b - a,
    {
        assert(cs@.subrange(a as int, b as int).drop_last() =~= cs@.subrange(
            a as int,
            b - 1,
        ));
        b = b - 1;
    }
    (a, b)
}


/// The parts of `s` from position `start` on when it is split at each `..`,
/// scanning from position `i` (`str::split` with the pattern `".."`).
pub open spec fn split_dots_from(s: Seq<char>, start: int, i: int) -> Seq<Seq<char>>
    decreases s.len() - i,
{
    if i + 1 >= s.len() {
        seq![s.subrange(start, s.len() as int)]
    } else if s[i] == '.' && s[i + 1] == '.' {
        seq![s.subrange(start, i)] + split_dots_from(s, i + 2, i + 2)
    } else {
        split_dots_from(s, start, i + 1)
    }
}

/// `s.split("..")`: the parts between the non-overlapping occurrences of
/// `..`, found from left to right.
pub open spec fn split_dots(s: Seq<char>) -> Seq<Seq<char>> {
    split_dots_from(s, 0, 0)
}

/// The bounds, in `cs`, of the parts of `cs[lo..hi]` split at `..`.
pub fn split_dots_bounds(cs: &Vec<char>, lo: usize, hi: usize) -> (r: Vec<(usize, usize)>)
    requires
        lo <= hi <= cs@.len(),
    ensures
        r@.len() == split_dots(cs@.subrange(lo as int, hi as int)).len(),
        forall|k: int|
            0 <= k < r@.len() ==> {
                &&& lo <= (#[trigger] r@[k]).0 <= r@[k].1 <= hi
                &&& cs@.subrange(r@[k].0 as int, r@[k].1 as int) == split_dots(
                    cs@.subrange(lo as int, hi as int),
                )[k]
            },
{
    let ghost t = cs@.subrange(lo as int, hi as int);
    let mut r: Vec<(usize, usize)> = Vec::new();
    let mut start = lo;
    let mut i = lo;
    while i < hi && i + 1 < hi
        invariant
            lo <= start <= i <= hi <= cs@.len(),
            t == cs@.subrange(lo as int, hi as int),
            split_dots(t) == r@.map_values(
                |b: (usize, usize)| cs@.subrange(b.0 as int, b.1 as int),
            ) + split_dots_from(t, start - lo, i - lo),
            forall|k: int| 0 <= k < r@.len() ==> lo <= (#[trigger] r@[k]).0 <= r@[k].1 <= hi,
        decreases hi - i,
    {
        if cs[i] == '.' && cs[i + 1] == '.' {
            let ghost r0 = r@;
            let ghost rest = split_dots_from(t, i + 2 - lo, i + 2 - lo);
            assert(split_dots_from(t, start - lo, i - lo) == seq![t.subrange(start - lo, i - lo)]
                + rest);
            assert(t.subrange(start - lo, i - lo) =~= cs@.subrange(start as int, i as int));
            r.push((start, i));
            assert(r@.map_values(|b: (usize, usize)| cs@.subrange(b.0 as int, b.1 as int))
                =~= r0.map_values(|b: (usize, usize)| cs@.subrange(b.0 as int, b.1 as int))
                + seq![cs@.subrange(start as int, i as int)]);
            i = i + 2;
            start = i;
            assert(split_dots(t) =~= r@.map_values(
                |b: (usize, usize)| cs@.subrange(b.0 as int, b.1 as int),
            ) + split_dots_from(t, start - lo, i - lo));
        } else {
            i = i + 1;
        }
    }
    let ghost r0 = r@;
    assert(split_dots_from(t, start - lo, i - lo) == seq![t.subrange(start - lo, t.len() as int)]);
    assert(t.subrange(start - lo, t.len() as int) =~= cs@.subrange(start as int, hi as int));
    r.push((start, hi));
    assert(r@.map_values(|b: (usize, usize)| cs@.subrange(b.0 as int, b.1 as int)) =~= r0.map_values(
        |b: (usize, usize)| cs@.subrange(b.0 as int, b.1 as int),
    ) + seq![cs@.subrange(start as int, hi as int)]);
    assert(split_dots(t) =~= r@.map_values(
        |b: (usize, usize)| cs@.subrange(b.0 as int, b.1 as int),
    ));
    assert forall|k: int| 0 <= k < r@.len() implies cs@.subrange(
        (#[trigger] r@[k]).0 as int,
        r@[k].1 as int,
    ) == split_dots(t)[k] by {
        assert(split_dots(t)[k] == r@.map_values(
            |b: (usize, usize)| cs@.subrange(b.0 as int, b.1 as int),
        )[k]);
    }
    r
}

/// An ASCII decimal digit.
pub open spec fn is_digit(c: char) -> bool {
    '0' <= c && c <= '9'
}

/// The number that a string of decimal digits denotes.
pub open spec fn digits_value(s: Seq<char>) -> nat
    decreases s.len(),
{
    if s.len() == 0 {
        0
    } else {
        digits_value(s.drop_last()) * 10 + ((s.last() as nat) - 48) as nat
    }
}

/// `s` without one leading `+`.
pub open spec fn unsigned_digits(s: Seq<char>) -> Seq<char> {
    if s.len() > 0 && s[0] == '+' {
        s.drop_first()
    } else {
        s
    }
}

/// `s.parse::<usize>()`: an optional `+` followed by at least one ASCII
/// digit, denoting a number that fits in a `usize`.
pub open spec fn parse_usize(s: Seq<char>) -> Option<nat> {
    let d = unsigned_digits(s);
    if d.len() > 0 && (forall|i: int| 0 <= i < d.len() ==> is_digit(#[trigger] d[i]))
        && digits_value(d) <= usize::MAX {
        Some(digits_value(d))
    } else {
        None
    }
}

proof fn lemma_digits_value_grows(s: Seq<char>, k: int)
    requires
        0 <= k <= s.len(),
        forall|i: int| 0 <= i < s.len() ==> is_digit(#[trigger] s[i]),
    ensures
        digits_value(s.subrange(0, k)) <= digits_value(s),
    decreases s.len() - k,
{
    if k < s.len() {
        let t = s.subrange(0, k + 1);
        assert(t.drop_last() =~= s.subrange(0, k));
        assert(is_digit(t.last()));
        lemma_digits_value_grows(s, k + 1);
    } else {
        assert(s.subrange(0, k) =~= s);
    }
}

/// Parses `cs[lo..hi]` as a `usize`, as `str::parse::<usize>` does.
pub fn parse_usize_in(cs: &Vec<char>, lo: usize, hi: usize) -> (r: Option<usize>)
    requires
        lo <= hi <= cs@.len(),
    ensures
        match r {
            Some(v) => parse_usize(cs@.subrange(lo as int, hi as int)) == Some(v as nat),
            None => parse_usize(cs@.subrange(lo as int, hi as int)) is None,
        },
{
    let ghost s = cs@.subrange(lo as int, hi as int);
    let mut a = lo;
    if a < hi && cs[a] == '+' {
        a = a + 1;
    }
    let ghost d = unsigned_digits(s);
    assert(d =~= cs@.subrange(a as int, hi as int));
    if a == hi {
        return None;
    }
    let mut acc: usize = 0;
    let mut i = a;
    while i < hi
        invariant
            lo <= a <= i <= hi <= cs@.len(),
            s == cs@.subrange(lo as int, hi as int),
            d == unsigned_digits(s),
            d == cs@.subrange(a as int, hi as int),
            forall|j: int| 0 <= j < i - a ==> is_digit(#[trigger] d[j]),
            acc as nat == digits_value(d.subrange(0, i - a)),
        decreases hi - i,
    {
        let c = cs[i];
        if !('0' <= c && c <= '9') {
            assert(!is_digit(d[i - a]));
            return None;
        }
        let dv: usize = ((c as u32) - 48) as usize;
        assert(d.subrange(0, i + 1 - a).drop_last() =~= d.subrange(0, i - a));
        match acc.checked_mul(10) {
            None => {
                proof {
                    let ghost rest_ok = forall|j: int| 0 <= j < d.len() ==> is_digit(#[trigger] d[j]);
                    if rest_ok {
                        lemma_digits_value_grows(d, i + 1 - a);
                    }
                }
                return None;
            },
            Some(m) => match m.checked_add(dv) {
                None => {
                    proof {
                        let ghost rest_ok = forall|j: int| 0 <= j < d.len() ==> is_digit(#[trigger] d[j]);
                        if rest_ok {
                            lemma_digits_value_grows(d, i + 1 - a);
                        }
                    }
                    return None;
                },
                Some(v) => {
                    acc = v;
                },
            },
        }
        i = i + 1;
    }
    assert(d.subrange(0, i - a) =~= d);
    Some(acc)
}


/// The parts joined, with `sep` between each two (`[String]::join`).
pub open spec fn join(parts: Seq<Seq<char>>, sep: Seq<char>) -> Seq<char>
    decreases parts.len(),
{
    if parts.len() == 0 {
        Seq::empty()
    } else if parts.len() == 1 {
        parts[0]
    } else {
        join(parts.drop_last(), sep) + sep + parts.last()
    }
}

} // verus!
