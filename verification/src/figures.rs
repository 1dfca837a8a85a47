//! Numbers as they are shown: decimal digits, rounding, padding and byte rates.

use vstd::prelude::*;
use vstd::slice::slice_subrange;
use crate::float;
use crate::float::{Float, Precision};
use crate::text;

verus! {

// ---------------------------------------------------------------------------
// Decimal digits

/// The decimal digit `d`.
pub open spec fn digit(d: nat) -> char {
    ('0' as u32 + d) as u8 as char
}

/// The decimal digits of `n`, without leading zeros.
pub open spec fn decimal(n: nat) -> Seq<char>
    decreases n,
{
    if n < 10 {
        seq![digit(n)]
    } else {
        decimal(n / 10).push(digit(n % 10))
    }
}

fn digit_char(d: u8) -> (r: char)
    requires
        d < 10,
    ensures
        r == digit(d as nat),
        r as u32 - '0' as u32 == d,
        text::is_digit(r),
{
    (48 + d) as char
}

fn push_decimal(n: u128, out: &mut Vec<char>)
    ensures
        final(out)@ == old(out)@ + decimal(n as nat),
    decreases n,
{
    if n >= 10 {
        push_decimal(n / 10, out);
    }
    out.push(digit_char((n % 10) as u8));
    proof {
        if n >= 10 {
            assert(out@ =~= old(out)@ + decimal((n / 10) as nat).push(digit((n % 10) as nat)));
        } else {
            assert(out@ =~= old(out)@ + seq![digit(n as nat)]);
        }
    }
}

/// The decimal digits of a number are digits, and denote it.
pub proof fn lemma_decimal(n: nat)
    ensures
        decimal(n).len() > 0,
        forall|i: int| 0 <= i < decimal(n).len() ==> text::is_digit(#[trigger] decimal(n)[i]),
        text::decimal_value(decimal(n)) == n,
    decreases n,
{
    let d = n % 10;
    assert(digit(d) as u32 - '0' as u32 == d);
    assert(text::is_digit(digit(d)));
    if n < 10 {
        let s = seq![digit(n)];
        assert(s.drop_last() =~= Seq::<char>::empty());
        assert(text::decimal_value(s.drop_last()) == 0);
        assert(text::decimal_value(s) == n);
    } else {
        lemma_decimal(n / 10);
        let s = decimal(n / 10).push(digit(d));
        assert(s.drop_last() =~= decimal(n / 10));
        assert(text::decimal_value(s) == text::decimal_value(decimal(n / 10)) * 10 + d);
        assert forall|i: int| 0 <= i < s.len() implies text::is_digit(#[trigger] s[i]) by {
            if i < s.len() - 1 {
                assert(s[i] == decimal(n / 10)[i]);
            }
        }
    }
}

/// The digits of twice the number that `s` denotes, plus `carry`.
fn doubled(s: &[char], carry: u8) -> (r: Vec<char>)
    requires
        s@ == decimal(text::decimal_value(s@)),
        carry <= 1,
    ensures
        r@ == decimal(2 * text::decimal_value(s@) + carry as nat),
    decreases s@.len(),
{
    let ghost n = text::decimal_value(s@);
    proof {
        lemma_decimal(n);
        assert(text::is_digit(decimal(n)[s@.len() - 1]));
    }
    let last = s[s.len() - 1];
    let d: u8 = (last as u32 - '0' as u32) as u8;
    proof {
        assert(n == text::decimal_value(s@.drop_last()) * 10 + d);
    }
    if s.len() == 1 {
        proof {
            assert(s@.drop_last() =~= Seq::<char>::empty());
            assert(n == d);
        }
        let mut r: Vec<char> = Vec::new();
        push_decimal((2 * d + carry) as u128, &mut r);
        assert(Seq::<char>::empty() + decimal((2 * d + carry) as nat) =~= decimal(
            (2 * d + carry) as nat,
        ));
        return r;
    }
    let head = slice_subrange(s, 0, s.len() - 1);
    proof {
        assert(n >= 10) by {
            if n < 10 {
                assert(decimal(n).len() == 1);
            }
        }
        assert(head@ =~= decimal(n / 10).push(digit(n % 10)).drop_last());
        assert(head@ =~= decimal(n / 10));
        lemma_decimal(n / 10);
        assert(head@ =~= s@.drop_last());
    }
    let low: u8 = 2 * d + carry;
    let mut r = doubled(head, low / 10);
    r.push(digit_char(low % 10));
    proof {
        let twice = 2 * n + carry as nat;
        let h = text::decimal_value(head@);
        assert(h == n / 10);
        assert(twice == 10 * (2 * h + (low / 10) as nat) + (low % 10) as nat);
        assert(twice / 10 == 2 * h + (low / 10) as nat);
        assert(twice % 10 == (low % 10) as nat);
    }
    r
}

/// `n` as text.
pub fn number_text(n: u64) -> (r: String)
    ensures
        r@ == decimal(n as nat),
{
    let mut out: Vec<char> = Vec::new();
    push_decimal(n as u128, &mut out);
    assert(Seq::<char>::empty() + decimal(n as nat) =~= decimal(n as nat));
    text::to_text(out.as_slice())
}

// ---------------------------------------------------------------------------
// Rounded numbers

/// `f` with one digit after the decimal point.
pub open spec fn tenths(f: float::Dyadic) -> Seq<char> {
    let n = float::rounded(f, 10);
    decimal(n / 10).push('.').push(digit(n % 10))
}

/// `f` without digits after the decimal point.
pub open spec fn units(f: float::Dyadic) -> Seq<char> {
    decimal(float::rounded(f, 1))
}

/// Where the exponent is not negative, rounding leaves the number as it is.
proof fn lemma_whole(m: nat, e: nat, scale: nat)
    ensures
        float::rounded(float::Dyadic { m, e: e as int }, scale) == (m * float::exp2(e)) * scale,
{
    let n = m * scale;
    let (a, b) = float::at_scale(n, 1, -e);
    assert(float::exp2(0) == 1);
    assert(b == 1) by {
        if e == 0 {
            assert(1 * float::exp2(0) == 1);
        }
    }
    assert(a == n * float::exp2(e)) by {
        if e == 0 {
            assert(n * float::exp2(0) == n);
        }
    }
    assert((m * scale) * float::exp2(e) == (m * float::exp2(e)) * scale) by (nonlinear_arith);
    assert(a / 1 == a && a % 1 == 0);
}

/// The digits of `m` times 2 to the power of `e`.
fn scaled_digits(m: u64, e: u32) -> (r: Vec<char>)
    ensures
        r@ == decimal(m as nat * float::exp2(e as nat)),
{
    let mut r: Vec<char> = Vec::new();
    push_decimal(m as u128, &mut r);
    let mut i: u32 = 0;
    proof {
        assert(Seq::<char>::empty() + decimal(m as nat) =~= decimal(m as nat));
        assert(m as nat * float::exp2(0) == m as nat) by (nonlinear_arith)
            requires
                float::exp2(0) == 1,
        ;
    }
    while i < e
        invariant
            i <= e,
            r@ == decimal(m as nat * float::exp2(i as nat)),
        decreases e - i,
    {
        proof {
            lemma_decimal(m as nat * float::exp2(i as nat));
            assert(2 * (m as nat * float::exp2(i as nat)) == m as nat * (2 * float::exp2(i as nat)))
                by (nonlinear_arith);
            assert(float::exp2((i + 1) as nat) == 2 * float::exp2(i as nat));
        }
        r = doubled(r.as_slice(), 0);
        i += 1;
    }
    r
}

/// `f` with one digit after the decimal point, as `{:.1}` writes it.
pub fn tenths_chars(f: Float) -> (r: Vec<char>)
    ensures
        r@ == tenths(f@),
{
    if f.e >= 0 {
        let mut r = scaled_digits(f.m, f.e as u32);
        r.push('.');
        r.push(digit_char(0));
        proof {
            lemma_whole(f.m as nat, f.e as nat, 10);
        }
        r
    } else {
        let n = f.round_scaled(10);
        let mut r: Vec<char> = Vec::new();
        push_decimal(n / 10, &mut r);
        r.push('.');
        r.push(digit_char((n % 10) as u8));
        assert(r@ =~= tenths(f@));
        r
    }
}

/// `f` without digits after the decimal point, as `{:.0}` writes it.
pub fn units_chars(f: Float) -> (r: Vec<char>)
    ensures
        r@ == units(f@),
{
    if f.e >= 0 {
        proof {
            lemma_whole(f.m as nat, f.e as nat, 1);
        }
        scaled_digits(f.m, f.e as u32)
    } else {
        let n = f.round_scaled(1);
        let mut r: Vec<char> = Vec::new();
        push_decimal(n, &mut r);
        assert(Seq::<char>::empty() + decimal(n as nat) =~= decimal(n as nat));
        r
    }
}

// ---------------------------------------------------------------------------
// Putting texts together

/// `s`, with spaces before it up to a width.
pub open spec fn padded(s: Seq<char>, width: nat) -> Seq<char> {
    if s.len() < width {
        Seq::new((width - s.len()) as nat, |i: int| ' ') + s
    } else {
        s
    }
}

/// Appends a text.
pub fn append(out: &mut Vec<char>, s: &str)
    ensures
        final(out)@ == old(out)@ + s@,
{
    let c = text::to_chars(s);
    append_chars(out, c.as_slice());
}

/// Appends characters.
pub fn append_chars(out: &mut Vec<char>, s: &[char])
    ensures
        final(out)@ == old(out)@ + s@,
{
    let mut i: usize = 0;
    assert(out@ =~= old(out)@ + s@.take(0));
    while i < s.len()
        invariant
            i <= s@.len(),
            out@ == old(out)@ + s@.take(i as int),
        decreases s@.len() - i,
    {
        out.push(s[i]);
        assert(s@.take(i + 1) =~= s@.take(i as int).push(s@[i as int]));
        assert(out@ =~= old(out)@ + s@.take(i + 1));
        i += 1;
    }
    assert(s@.take(s@.len() as int) =~= s@);
}

/// Appends the digits of `n`.
pub fn append_number(out: &mut Vec<char>, n: u64)
    ensures
        final(out)@ == old(out)@ + decimal(n as nat),
{
    push_decimal(n as u128, out);
}

/// `s`, with spaces before it up to a width.
pub fn pad(s: &[char], width: usize) -> (r: Vec<char>)
    ensures
        r@ == padded(s@, width as nat),
{
    let mut r: Vec<char> = Vec::new();
    if s.len() < width {
        let n = width - s.len();
        while r.len() < n
            invariant
                r@ =~= Seq::new(r@.len(), |i: int| ' '),
                r@.len() <= n,
            decreases n - r@.len(),
        {
            r.push(' ');
        }
    }
    append_chars(&mut r, s);
    assert(r@ =~= padded(s@, width as nat));
    r
}

// ---------------------------------------------------------------------------
// Byte rates

/// A byte rate as it is shown: in bytes below 1024 B/s, otherwise in KB, MB or GB with one digit
/// after the decimal point. The rate is rounded to double precision before it is scaled.
pub open spec fn rate_text(bps: u64) -> Seq<char> {
    let b = float::nearest(bps as nat, 1, Precision::Double);
    if bps < 1024 {
        padded(decimal(bps as nat), 6) + " B/s"@
    } else if bps < 0x10_0000 {
        padded(tenths(float::shifted(b, -10)), 5) + " KB/s"@
    } else if bps < 0x4000_0000 {
        padded(tenths(float::shifted(b, -20)), 5) + " MB/s"@
    } else {
        padded(tenths(float::shifted(b, -30)), 5) + " GB/s"@
    }
}

fn rate_chars(bps: u64) -> (r: Vec<char>)
    ensures
        r@ == rate_text(bps),
{
    if bps < 1024 {
        let mut digits: Vec<char> = Vec::new();
        append_number(&mut digits, bps);
        assert(Seq::<char>::empty() + decimal(bps as nat) =~= decimal(bps as nat));
        let mut r = pad(digits.as_slice(), 6);
        append(&mut r, " B/s");
        return r;
    }
    let b = Float::from_int(bps, Precision::Double);
    let (down, unit): (i32, &str) = if bps < 0x10_0000 {
        (10, " KB/s")
    } else if bps < 0x4000_0000 {
        (20, " MB/s")
    } else {
        (30, " GB/s")
    };
    let scaled = tenths_chars(Float { m: b.m, e: b.e - down });
    let mut r = pad(scaled.as_slice(), 5);
    append(&mut r, unit);
    r
}

/// A byte rate as a readable text, scaled to a unit that fits.
pub fn fmt_bps(bps: u64) -> (r: String)
    ensures
        r@ == rate_text(bps),
{
    let r = rate_chars(bps);
    text::to_text(r.as_slice())
}

/// Two byte rates as one table cell shows them.
pub open spec fn rates_text(r: u64, w: u64) -> Seq<char> {
    rate_text(r) + " / "@ + rate_text(w)
}

/// Two byte rates, such as reading and writing, as one table cell shows them.
pub fn fmt_rw(r: u64, w: u64) -> (s: String)
    ensures
        s@ == rates_text(r, w),
{
    let mut out = rate_chars(r);
    append(&mut out, " / ");
    let second = rate_chars(w);
    append_chars(&mut out, second.as_slice());
    text::to_text(out.as_slice())
}

// ---------------------------------------------------------------------------
// Laws

/// A number that is written is read back.
pub proof fn law_numbers_read_back(n: u64)
    ensures
        text::u64_of(decimal(n as nat)) == Some(n),
{
    let s = decimal(n as nat);
    lemma_decimal(n as nat);
    assert(text::is_digit(s[0]));
    assert(text::unsigned_part(s) == s);
}

/// The digits of a number make a word that is read as this number, as far as it fits.
pub proof fn lemma_number_word(n: nat)
    ensures
        text::is_clean(decimal(n)),
        forall|i: int|
            0 <= i < decimal(n).len() ==> text::is_digit(#[trigger] decimal(n)[i]) && !text::is_space(
                decimal(n)[i],
            ),
        n <= u32::MAX ==> text::u32_of(decimal(n)) == Some(n as u32),
        n <= u64::MAX ==> text::u64_of(decimal(n)) == Some(n as u64),
        text::trimmed(decimal(n)) == decimal(n),
{
    let s = decimal(n);
    let none = Seq::<char>::empty();
    lemma_decimal(n);
    assert(text::is_digit(s[0]));
    assert(text::is_digit(s[s.len() - 1]));
    assert(text::unsigned_part(s) == s);
    text::lemma_trim(none, s, none);
    assert(none + s + none =~= s);
}

/// The digits of a number hold no other character.
pub proof fn lemma_digits_alone(n: nat, c: char)
    requires
        !text::is_digit(c),
    ensures
        !decimal(n).contains(c),
{
    lemma_decimal(n);
    if decimal(n).contains(c) {
        let k = choose|k: int| 0 <= k < decimal(n).len() && decimal(n)[k] == c;
        assert(text::is_digit(decimal(n)[k]));
    }
}

/// Numbers are written in base ten, the highest digit first and without zeros before it.
pub proof fn law_numbers_are_written_in_base_ten(n: nat, d: nat)
    requires
        d < 10,
    ensures
        decimal(d).len() == 1 && decimal(d)[0] as u32 == 48 + d,
        n > 0 ==> decimal(10 * n + d) == decimal(n) + decimal(d),
        n > 0 ==> decimal(n)[0] != '0',
    decreases n,
{
    assert(digit(d) as u32 == 48 + d);
    if n > 0 {
        let m = 10 * n + d;
        assert(m / 10 == n && m % 10 == d);
        assert(decimal(m) =~= decimal(n) + decimal(d));
        if n >= 10 {
            law_numbers_are_written_in_base_ten(n / 10, d);
            lemma_decimal(n / 10);
            assert(decimal(n)[0] == decimal(n / 10)[0]);
        } else {
            assert(digit(n) as u32 == 48 + n);
        }
    }
}

/// Padding puts spaces before a text until it has the width, and leaves a longer one as it is.
pub proof fn law_padding_puts_spaces_before(s: Seq<char>, width: nat)
    ensures
        padded(s, width).len() == if s.len() < width {
            width
        } else {
            s.len()
        },
        padded(s, width).skip(padded(s, width).len() - s.len()) == s,
        forall|i: int|
            0 <= i < padded(s, width).len() - s.len() ==> #[trigger] padded(s, width)[i] == ' ',
{
    assert(padded(s, width).skip(padded(s, width).len() - s.len()) =~= s);
}

/// A number is written with one digit after the point, rounded to the nearest tenth, and to the even
/// one of two that are equally near.
pub proof fn law_tenths_are_rounded(f: float::Dyadic) -> (n: nat)
    ensures
        tenths(f) == decimal(n / 10) + "."@ + decimal(n % 10),
        ({
            let (a, b) = float::at_scale(f.m, 1, -f.e);
            &&& 2 * (n * b) <= 20 * a + b
            &&& 20 * a <= 2 * (n * b) + b
            &&& 2 * (n * b) == 20 * a + b || 20 * a == 2 * (n * b) + b ==> n % 2 == 0
        }),
{
    reveal_strlit(".");
    let n = float::rounded(f, 10);
    lemma_scaled_ratio(f, 10);
    let (a, b) = float::at_scale(f.m, 1, -f.e);
    float::law_rounding_gives_the_nearest_integer(a * 10, b);
    assert(tenths(f) =~= decimal(n / 10) + "."@ + decimal(n % 10));
    n
}

/// A number without digits after the point is rounded to the nearest integer, and to the even one of
/// two that are equally near.
pub proof fn law_units_are_rounded(f: float::Dyadic) -> (n: nat)
    ensures
        units(f) == decimal(n),
        ({
            let (a, b) = float::at_scale(f.m, 1, -f.e);
            &&& 2 * (n * b) <= 2 * a + b
            &&& 2 * a <= 2 * (n * b) + b
            &&& 2 * (n * b) == 2 * a + b || 2 * a == 2 * (n * b) + b ==> n % 2 == 0
        }),
{
    let n = float::rounded(f, 1);
    lemma_scaled_ratio(f, 1);
    let (a, b) = float::at_scale(f.m, 1, -f.e);
    assert(a * 1 == a);
    float::law_rounding_gives_the_nearest_integer(a, b);
    n
}

proof fn lemma_scaled_ratio(f: float::Dyadic, scale: nat)
    ensures
        ({
            let (a, b) = float::at_scale(f.m, 1, -f.e);
            &&& float::at_scale(f.m * scale, 1, -f.e) == (a * scale, b)
            &&& b > 0
        }),
{
    if f.e <= 0 {
        float::lemma_exp2_pos((-f.e) as nat);
    } else {
        let t = float::exp2(f.e as nat);
        assert((f.m * scale) * t == (f.m * t) * scale) by (nonlinear_arith);
    }
}

/// A byte rate is shown in bytes below 1024 B/s, and else in the largest of KB, MB and GB that it
/// reaches, of 1024, 1024 times 1024 and so on bytes, with one digit after the point: the number of
/// tenths nearest to the rate. It has to be one that double precision holds exactly.
pub proof fn law_rates_are_shown_in_a_unit_that_fits(bps: u64) -> (n: nat)
    requires
        bps < 0x20_0000_0000_0000,
    ensures
        bps < 1024 ==> rate_text(bps) == padded(decimal(bps as nat), 6) + " B/s"@,
        1024 <= bps < 1024 * 1024 ==> {
            &&& rate_text(bps) == padded(decimal(n / 10) + "."@ + decimal(n % 10), 5) + " KB/s"@
            &&& 2048 * n <= 20 * bps + 1024
            &&& 20 * bps <= 2048 * n + 1024
        },
        1024 * 1024 <= bps < 1024 * 1024 * 1024 ==> {
            &&& rate_text(bps) == padded(decimal(n / 10) + "."@ + decimal(n % 10), 5) + " MB/s"@
            &&& 0x20_0000 * n <= 20 * bps + 0x10_0000
            &&& 20 * bps <= 0x20_0000 * n + 0x10_0000
        },
        1024 * 1024 * 1024 <= bps ==> {
            &&& rate_text(bps) == padded(decimal(n / 10) + "."@ + decimal(n % 10), 5) + " GB/s"@
            &&& 0x8000_0000 * n <= 20 * bps + 0x4000_0000
            &&& 20 * bps <= 0x8000_0000 * n + 0x4000_0000
        },
{
    float::lemma_exp2_values();
    if bps < 1024 {
        0
    } else if bps < 1024 * 1024 {
        lemma_tenths_of_unit(bps, 10, 1024)
    } else if bps < 1024 * 1024 * 1024 {
        lemma_tenths_of_unit(bps, 20, 0x10_0000)
    } else {
        lemma_tenths_of_unit(bps, 30, 0x4000_0000)
    }
}

proof fn lemma_tenths_of_unit(bps: u64, k: nat, unit: nat) -> (n: nat)
    requires
        0 < bps < 0x20_0000_0000_0000,
        k > 0,
        unit == float::exp2(k),
    ensures
        tenths(float::shifted(float::nearest(bps as nat, 1, Precision::Double), -k)) == decimal(
            n / 10,
        ) + "."@ + decimal(n % 10),
        2 * (unit * n) <= 20 * bps + unit,
        20 * bps <= 2 * (unit * n) + unit,
{
    let x = bps as nat;
    float::lemma_exp2_values();
    assert(float::exp2(53) == 2 * float::exp2(52));
    float::lemma_int_is_exact(x, Precision::Double);
    let b = float::nearest(x, 1, Precision::Double);
    let f = float::shifted(b, -k);
    let n = law_tenths_are_rounded(f);
    let t = float::exp2((-b.e) as nat);
    float::lemma_exp2_pos((-b.e) as nat);
    float::lemma_exp2_add(k, (-b.e) as nat);
    let d = float::exp2((-f.e) as nat);
    assert(d == unit * t);
    assert(float::at_scale(f.m, 1, -f.e) == (b.m, d));
    assert(2 * (unit * n) <= 20 * x + unit && 20 * x <= 2 * (unit * n) + unit) by (nonlinear_arith)
        requires
            2 * (n * d) <= 20 * b.m + d,
            20 * b.m <= 2 * (n * d) + d,
            b.m == x * t,
            d == unit * t,
            t > 0,
    ;
    n
}

} // verus!
