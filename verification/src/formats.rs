//! Human-readable sizes: a byte count shown in mebibytes below 1000 MiB and
//! in gibibytes above, with two decimals, as `{:<7.2}` renders the `f64`
//! quotient.

use vstd::prelude::*;
use crate::text::{decimal, digit_char, push_char, push_decimal};

verus! {

/// 2^53: below this every integer is exactly an `f64`.
pub open spec fn exact_f64_bound() -> nat {
    0x20000000000000
}

/// The spacing of the `f64` values around `b`: one below 2^53, doubled for
/// every bit above.
pub open spec fn f64_spacing(b: nat) -> nat
    decreases b,
{
    if b < exact_f64_bound() {
        1
    } else {
        2 * f64_spacing(b / 2)
    }
}

/// `b as f64`: the nearest multiple of the spacing, ties to the even
/// multiple.
pub open spec fn f64_of(b: nat) -> nat {
    let u = f64_spacing(b);
    let q = b / u;
    let r = b % u;
    if 2 * r > u || (2 * r == u && q % 2 == 1) {
        (q + 1) * u
    } else {
        q * u
    }
}

/// `x / den` rounded to hundredths, ties to the even hundredth (the
/// rounding of `{:.2}`), counted in hundredths.
pub open spec fn hundredths(x: nat, den: nat) -> nat
    recommends
        den > 0,
{
    let q = (100 * x) / den;
    let r = (100 * x) % den;
    if 2 * r > den || (2 * r == den && q % 2 == 1) {
        q + 1
    } else {
        q
    }
}

/// A count of hundredths written with two decimals.
pub open spec fn fixed2(h: nat) -> Seq<char> {
    decimal(h / 100) + seq!['.', digit_char((h / 10) % 10), digit_char(h % 10)]
}

/// `s` padded with spaces on the right to at least `width` characters.
pub open spec fn pad_right(s: Seq<char>, width: nat) -> Seq<char> {
    if s.len() < width {
        s + Seq::new((width - s.len()) as nat, |i: int| ' ')
    } else {
        s
    }
}

/// One mebibyte.
pub open spec fn mebibyte() -> nat {
    1048576
}

/// One gibibyte.
pub open spec fn gibibyte() -> nat {
    1073741824
}

/// The text of a size of `bytes` bytes: the size in MB when under 1000 MB,
/// otherwise in GB, two decimals, left-aligned in seven columns.
pub open spec fn size_text(bytes: nat) -> Seq<char> {
    let x = f64_of(bytes);
    if x < 1000 * mebibyte() {
        pad_right(fixed2(hundredths(x, mebibyte())), 7) + seq!['M', 'B']
    } else {
        pad_right(fixed2(hundredths(x, gibibyte())), 7) + seq!['G', 'B']
    }
}

fn f64_spacing_of(b: u64) -> (u: u64)
    ensures
        u == f64_spacing(b as nat),
        u >= 1,
        u == 1 || u * 0x10000000000000 <= b,
    decreases b,
{
    if b < 0x20000000000000 {
        1
    } else {
        let h = f64_spacing_of(b / 2);
        2 * h
    }
}

fn rounded_quotient(q: u128, r: u128, den: u128) -> (h: u128)
    requires
        q < u128::MAX,
        r < den,
    ensures
        h as int == (if 2 * r > den || (2 * r == den && q % 2 == 1) {
            q + 1
        } else {
            q as int
        }),
{
    if r > den - r || (r == den - r && q % 2 == 1) {
        q + 1
    } else {
        q
    }
}

/// `format_size(size)`: the size in bytes as text, e.g. `"1.50   MB"`.
pub fn format_size(size: &usize) -> (s: String)
    ensures
        s@ == size_text(*size as nat),
{
    let b: u64 = *size as u64;
    let u = f64_spacing_of(b);
    let q = b / u;
    let r = b % u;
    assert(q * u + r == b && r < u) by (nonlinear_arith)
        requires
            q == b / u,
            r == b % u,
            u >= 1,
    ;
    assert(u < 4096) by (nonlinear_arith)
        requires
            u == 1 || u * 0x10000000000000 <= b,
            b <= u64::MAX,
    ;
    let qq = rounded_quotient(q as u128, r as u128, u as u128);
    assert(qq * u <= 0x10000000000001000) by (nonlinear_arith)
        requires
            qq <= q + 1,
            q * u + r == b,
            u < 4096,
            b <= u64::MAX,
    ;
    let x: u128 = qq * (u as u128);
    assert(x == f64_of(b as nat));
    let den: u128 = if x < 1000 * 1048576 {
        1048576
    } else {
        1073741824
    };
    let n: u128 = 100 * x;
    let h = rounded_quotient(n / den, n % den, den);
    assert(h == hundredths(x as nat, den as nat));
    assert(h / 100 < 0x10000000000000) by (nonlinear_arith)
        requires
            h <= n / den + 1,
            n == 100 * x,
            x <= 0x10000000000001000,
            den >= 1048576,
    ;
    let whole: u64 = (h / 100) as u64;
    let tens: u8 = ((h / 10) % 10) as u8;
    let units: u8 = (h % 10) as u8;
    let mut s = String::new();
    push_decimal(&mut s, whole);
    push_char(&mut s, '.');
    push_char(&mut s, (48u8 + tens) as char);
    push_char(&mut s, (48u8 + units) as char);
    assert(s@ =~= fixed2(h as nat));
    let ghost number = s@;
    let len = s.as_str().unicode_len();
    let mut k = len;
    while k < 7
        invariant
            len == number.len(),
            len <= k <= 7 || (len > 7 && k == len),
            s@ == number + Seq::new((k - len) as nat, |i: int| ' '),
        decreases 7 - k,
    {
        push_char(&mut s, ' ');
        k = k + 1;
        assert(s@ =~= number + Seq::new((k - len) as nat, |i: int| ' '));
    }
    assert(s@ =~= pad_right(number, 7));
    if x < 1000 * 1048576 {
        push_char(&mut s, 'M');
    } else {
        push_char(&mut s, 'G');
    }
    push_char(&mut s, 'B');
    assert(s@ =~= size_text(*size as nat));
    s
}

} // verus!
