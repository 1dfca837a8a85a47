//! Single-precision numbers in their IEEE 754 encoding, as measured percentages arrive.

use vstd::prelude::*;
use crate::figures;
use crate::float;
use crate::float::{Float, Precision};

verus! {

/// A single-precision number: a sign bit, 8 bits of exponent and 23 bits of fraction.
#[derive(Debug, Clone, Copy, PartialEq, Eq, Structural)]
pub struct F32 {
    pub bits: u32,
}

impl F32 {
    /// Whether the sign bit is set.
    pub open spec fn negative(self) -> bool {
        self.bits >= 0x8000_0000
    }

    /// The encoding without the sign bit.
    pub open spec fn unsigned(self) -> u32 {
        self.bits % 0x8000_0000
    }

    /// Whether this is not a number.
    pub open spec fn is_nan(self) -> bool {
        self.unsigned() > 0x7f80_0000
    }

    /// Whether this is an infinity.
    pub open spec fn is_infinite(self) -> bool {
        self.unsigned() == 0x7f80_0000
    }

    /// The absolute value of a finite number.
    pub open spec fn magnitude(self) -> float::Dyadic {
        let exponent = self.unsigned() / 0x80_0000;
        let fraction = self.unsigned() % 0x80_0000;
        if exponent == 0 {
            float::Dyadic { m: fraction as nat, e: -149 }
        } else {
            float::Dyadic { m: (fraction + 0x80_0000) as nat, e: exponent - 150 }
        }
    }

    /// Whether this is a number and not infinite.
    pub open spec fn is_finite(self) -> bool {
        !self.is_nan() && !self.is_infinite()
    }

    /// A finite number as a multiple of the least positive one, which is 2 to the power of -149.
    pub open spec fn multiple(self) -> int {
        let n = scaled(self.magnitude()) as int;
        if self.negative() {
            -n
        } else {
            n
        }
    }

    /// Where the number stands in the order of the numbers: the encoding, negated for a negative
    /// number. Both zeros stand at 0.
    pub open spec fn rank(self) -> int {
        if self.negative() {
            -(self.unsigned() as int)
        } else {
            self.unsigned() as int
        }
    }

    /// Whether the number is at least `k`, which is positive. What is not a number is not.
    pub open spec fn at_least(self, k: nat) -> bool {
        &&& !self.is_nan()
        &&& !self.negative()
        &&& (self.is_infinite() || float::at_least(self.magnitude(), k))
    }

    /// The number with one digit after the decimal point.
    pub open spec fn text(self) -> Seq<char> {
        if self.is_nan() {
            "NaN"@
        } else {
            let value = if self.is_infinite() {
                "inf"@
            } else {
                figures::tenths(self.magnitude())
            };
            if self.negative() {
                "-"@ + value
            } else {
                value
            }
        }
    }

    /// The number 0.
    pub fn zero() -> (r: Self)
        ensures
            r.bits == 0,
    {
        F32 { bits: 0 }
    }

    fn to_float(self) -> (r: Float)
        requires
            !self.is_nan(),
            !self.is_infinite(),
        ensures
            r@ == self.magnitude(),
        {
        let unsigned: u32 = self.bits % 0x8000_0000;
        let exponent: u32 = unsigned / 0x80_0000;
        let fraction: u32 = unsigned % 0x80_0000;
        if exponent == 0 {
            Float { m: fraction as u64, e: -149 }
        } else {
            Float { m: (fraction + 0x80_0000) as u64, e: exponent as i32 - 150 }
        }
    }

    /// Where the number stands in the order of the numbers.
    pub fn order(self) -> (r: i64)
        ensures
            r == self.rank(),
            -0x8000_0000 < r < 0x8000_0000,
    {
        let unsigned = (self.bits % 0x8000_0000) as i64;
        if self.bits >= 0x8000_0000 {
            -unsigned
        } else {
            unsigned
        }
    }

    /// Whether the number is at least `k`.
    pub fn is_at_least(self, k: u32) -> (r: bool)
        ensures
            r == self.at_least(k as nat),
    {
        let unsigned: u32 = self.bits % 0x8000_0000;
        if unsigned > 0x7f80_0000 || self.bits >= 0x8000_0000 {
            false
        } else {
            unsigned == 0x7f80_0000 || self.to_float().is_at_least(k)
        }
    }

    /// The number with one digit after the decimal point, as `{:.1}` writes it.
    pub fn chars(self) -> (r: Vec<char>)
        ensures
            r@ == self.text(),
    {
        let mut out: Vec<char> = Vec::new();
        let unsigned: u32 = self.bits % 0x8000_0000;
        if unsigned > 0x7f80_0000 {
            figures::append(&mut out, "NaN");
            assert(out@ =~= "NaN"@);
            return out;
        }
        if self.bits >= 0x8000_0000 {
            figures::append(&mut out, "-");
        }
        let ghost sign = out@;
        if unsigned == 0x7f80_0000 {
            figures::append(&mut out, "inf");
        } else {
            let value = figures::tenths_chars(self.to_float());
            figures::append_chars(&mut out, value.as_slice());
        }
        proof {
            if self.negative() {
                assert(sign =~= "-"@);
            }
            assert(out@ =~= self.text());
        }
        out
    }
}

/// `a` times 2 to the power of 149, which is an integer for every finite number.
pub open spec fn scaled(a: float::Dyadic) -> nat {
    a.m * float::exp2((a.e + 149) as nat)
}

// ---------------------------------------------------------------------------
// Rounding

/// The number nearest to `n / d` times the least positive number, with a sign. Below 2 to the power
/// of 24 the numbers are the integers; above, they have 24 bits. What is too large is infinite.
pub open spec fn encoded(negative: bool, n: nat, d: nat) -> F32 {
    let unsigned = if n < 0x100_0000 * d {
        float::half_even(n, d) as int
    } else {
        let f = float::nearest(n, d, Precision::Single);
        f.m + f.e * 0x80_0000
    };
    let bounded = if unsigned < 0x7f80_0000 {
        unsigned
    } else {
        0x7f80_0000
    };
    F32 {
        bits: if negative {
            (bounded + 0x8000_0000) as u32
        } else {
            bounded as u32
        },
    }
}

/// What is not a number.
pub open spec fn nan() -> F32 {
    F32 { bits: 0x7fc0_0000 }
}

/// The sum of two numbers, rounded.
pub open spec fn plus(a: F32, b: F32) -> F32 {
    if a.is_nan() || b.is_nan() {
        nan()
    } else if a.is_infinite() {
        if b.is_infinite() && a.negative() != b.negative() {
            nan()
        } else {
            a
        }
    } else if b.is_infinite() {
        b
    } else {
        let s = a.multiple() + b.multiple();
        if s == 0 {
            F32 {
                bits: if a.negative() && b.negative() {
                    0x8000_0000
                } else {
                    0
                },
            }
        } else if s > 0 {
            encoded(false, s as nat, 1)
        } else {
            encoded(true, (-s) as nat, 1)
        }
    }
}

/// The sum of numbers, rounded after each.
pub open spec fn sum(s: Seq<F32>) -> F32
    decreases s.len(),
{
    if s.len() == 0 {
        F32 { bits: 0 }
    } else {
        plus(sum(s.drop_last()), s.last())
    }
}

/// A number divided by a count, rounded. The count is rounded to single precision before.
pub open spec fn over(a: F32, count: nat) -> F32 {
    if a.is_nan() {
        nan()
    } else if a.is_infinite() {
        a
    } else {
        let c = float::nearest(count, 1, Precision::Single);
        let (n, d) = float::at_scale(scaled(a.magnitude()), c.m, c.e);
        encoded(a.negative(), n, d)
    }
}

/// The mean of numbers, or 0 where there are none.
pub open spec fn mean(s: Seq<F32>) -> F32 {
    if s.len() == 0 {
        F32 { bits: 0 }
    } else {
        over(sum(s), s.len())
    }
}

fn with_sign(negative: bool, unsigned: i64) -> (r: F32)
    requires
        0 <= unsigned,
    ensures
        r.bits == (if unsigned < 0x7f80_0000 {
            unsigned as int
        } else {
            0x7f80_0000
        }) + (if negative {
            0x8000_0000int
        } else {
            0
        }),
{
    let bounded: u32 = if unsigned < 0x7f80_0000 {
        unsigned as u32
    } else {
        0x7f80_0000
    };
    if negative {
        F32 { bits: bounded + 0x8000_0000 }
    } else {
        F32 { bits: bounded }
    }
}

/// A number of 24 bits or more has an exponent that is not negative.
proof fn lemma_long_exponent(n: nat, d: nat)
    requires
        d > 0,
        n >= 0x100_0000 * d,
    ensures
        float::nearest(n, d, Precision::Single).e >= 0,
{
    let p = Precision::Single;
    float::lemma_exp2_values();
    float::lemma_has_exponent(n, d, p);
    let e = choose|e: int| float::is_exponent(n, d, p, e);
    if e < 0 {
        let t = float::exp2((-e) as nat);
        float::lemma_exp2_pos((-e) as nat);
        assert(n * t >= d * 0x100_0000) by (nonlinear_arith)
            requires
                n >= 0x100_0000 * d,
                t >= 1,
        ;
    }
}

/// The number nearest to `s` times 2 to the power of `k`, counted in the least positive number.
fn encode(negative: bool, s: u128, k: u32) -> (r: F32)
    requires
        0 < s < 0x4000_0000_0000_0000_0000_0000_0000_0000,
        k <= 1000,
    ensures
        r == encoded(negative, s as nat * float::exp2(k as nat), 1),
{
    let ghost n = s as nat * float::exp2(k as nat);
    proof {
        float::lemma_exp2_values();
        float::lemma_exp2_pos(k as nat);
        assert(n >= s && n >= float::exp2(k as nat)) by (nonlinear_arith)
            requires
                n == s as nat * float::exp2(k as nat),
                s >= 1,
                float::exp2(k as nat) >= 1,
        ;
        if k > 24 {
            float::lemma_exp2_mono(24, k as nat);
        } else {
            float::lemma_exp2_mono(k as nat, 24);
            assert(s < 0x100_0000 ==> n <= 0x100_0000 * 0x100_0000) by (nonlinear_arith)
                requires
                    n == s as nat * float::exp2(k as nat),
                    float::exp2(k as nat) <= 0x100_0000,
            ;
        }
        assert(n / 1 == n && n % 1 == 0);
    }
    if s < 0x100_0000 && k <= 24 {
        let product: u128 = s * float::power(k);
        if product < 0x100_0000 {
            return with_sign(negative, product as i64);
        }
    }
    proof {
        float::lemma_nearest_scaled(s as nat, 1, k as nat, Precision::Single);
        lemma_long_exponent(n, 1);
    }
    let f = float::round_ratio(s, 1, Precision::Single);
    with_sign(negative, f.m as i64 + (f.e as i64 + k as i64) * 0x80_0000)
}

impl F32 {
    /// The sum of two numbers, rounded.
    pub fn add_rounded(self, other: F32) -> (r: F32)
        ensures
            r == plus(self, other),
    {
        let ua: u32 = self.bits % 0x8000_0000;
        let ub: u32 = other.bits % 0x8000_0000;
        if ua > 0x7f80_0000 || ub > 0x7f80_0000 {
            return F32 { bits: 0x7fc0_0000 };
        }
        let na = self.bits >= 0x8000_0000;
        let nb = other.bits >= 0x8000_0000;
        if ua == 0x7f80_0000 {
            if ub == 0x7f80_0000 && na != nb {
                return F32 { bits: 0x7fc0_0000 };
            }
            return self;
        }
        if ub == 0x7f80_0000 {
            return other;
        }
        if self.to_float().e >= other.to_float().e {
            add_finite(self, other)
        } else {
            proof {
                assert(plus(other, self) == plus(self, other));
            }
            add_finite(other, self)
        }
    }
}

/// The sum of two finite numbers, of which the first has no smaller exponent.
fn add_finite(hi: F32, lo: F32) -> (r: F32)
    requires
        hi.is_finite(),
        lo.is_finite(),
        hi.magnitude().e >= lo.magnitude().e,
    ensures
        r == plus(hi, lo),
{
    let a = hi.to_float();
    let b = lo.to_float();
    let d = a.e - b.e;
    if d > 60 {
        proof {
            lemma_negligible(hi, lo);
        }
        return hi;
    }
    let k = (b.e + 149) as u32;
    let t = float::power(d as u32);
    proof {
        float::lemma_exp2_mono(d as nat, 60);
        float::lemma_exp2_mono(60, 64);
        float::lemma_exp2_values();
        assert(a.m * t <= 0x100_0000 * 0x1_0000_0000_0000_0000) by (nonlinear_arith)
            requires
                a.m <= 0x100_0000,
                t <= 0x1_0000_0000_0000_0000,
        ;
    }
    let x: u128 = a.m as u128 * t;
    let y: u128 = b.m as u128;
    let ghost u = float::exp2(k as nat);
    proof {
        float::lemma_exp2_pos(k as nat);
        float::lemma_exp2_add(d as nat, k as nat);
        assert(scaled(a@) == x as nat * u) by (nonlinear_arith)
            requires
                scaled(a@) == a.m as nat * (t as nat * u),
                x == a.m * t,
        ;
        assert(scaled(b@) == y as nat * u);
        assert((x as nat + y as nat) * u == x as nat * u + y as nat * u) by (nonlinear_arith);
        assert(x >= y ==> (x - y) as nat * u == x as nat * u - y as nat * u) by (nonlinear_arith)
            requires
                u > 0,
        ;
        assert(x < y ==> (y - x) as nat * u == y as nat * u - x as nat * u) by (nonlinear_arith)
            requires
                u > 0,
        ;
    }
    let nh = hi.bits >= 0x8000_0000;
    let nl = lo.bits >= 0x8000_0000;
    let (negative, s): (bool, u128) = if nh == nl {
        (nh, x + y)
    } else if x >= y {
        (nh, x - y)
    } else {
        (nl, y - x)
    };
    if s == 0 {
        proof {
            assert(s as nat * u == 0) by (nonlinear_arith)
                requires
                    s == 0,
            ;
        }
        return F32 {
            bits: if nh && nl {
                0x8000_0000
            } else {
                0
            },
        };
    }
    proof {
        assert(s as nat * u > 0) by (nonlinear_arith)
            requires
                s > 0,
                u > 0,
        ;
    }
    encode(negative, s, k)
}

/// A number whose exponent is smaller by more than 60 does not change a sum.
proof fn lemma_negligible(hi: F32, lo: F32)
    requires
        hi.is_finite(),
        lo.is_finite(),
        hi.magnitude().e - lo.magnitude().e > 60,
    ensures
        plus(hi, lo) == hi,
{
    let a = hi.magnitude();
    let b = lo.magnitude();
    let d = (a.e - b.e) as nat;
    let k = (b.e + 149) as nat;
    let u = float::exp2(k);
    let t = float::exp2(d);
    let x = a.m * t;
    let y = b.m;
    float::lemma_exp2_pos(k);
    float::lemma_exp2_add(d, k);
    float::lemma_exp2_mono(60, d);
    float::lemma_exp2_mono(53, 60);
    float::lemma_exp2_values();
    assert(scaled(a) == x * u) by (nonlinear_arith)
        requires
            scaled(a) == a.m * (t * u),
            x == a.m * t,
    ;
    assert(x >= t) by (nonlinear_arith)
        requires
            a.m >= 1,
            x == a.m * t,
    ;
    assert((x + y) * u == x * u + y * u) by (nonlinear_arith);
    assert((x - y) as nat * u == x * u - y * u) by (nonlinear_arith)
        requires
            x >= y,
            u > 0,
    ;
    let n = if hi.negative() == lo.negative() {
        x + y
    } else {
        (x - y) as nat
    };
    assert(n * u > 0 && n * u >= n) by (nonlinear_arith)
        requires
            n > 0,
            u > 0,
    ;
    lemma_rounds_to_large(a.m, d, y, hi.negative() == lo.negative());
    float::lemma_nearest_scaled(n, 1, k, Precision::Single);
    let f = float::nearest(n * u, 1, Precision::Single);
    assert(f == float::Dyadic { m: a.m, e: (d + k) as int });
    assert(n * u >= 0x100_0000);
    assert(f.m + f.e * 0x80_0000 == hi.unsigned());
}

/// A long number plus or minus a short one rounds to the long one.
proof fn lemma_rounds_to_large(m: nat, d: nat, y: nat, same: bool)
    requires
        0x80_0000 <= m < 0x100_0000,
        y < 0x100_0000,
        d > 60,
    ensures
        ({
            let x = m * float::exp2(d);
            let n = if same {
                x + y
            } else {
                (x - y) as nat
            };
            float::nearest(n, 1, Precision::Single) == (float::Dyadic { m, e: d as int })
        }),
{
    let p = Precision::Single;
    let t = float::exp2(d);
    let x = m * t;
    float::lemma_exp2_values();
    float::lemma_exp2_mono(60, d);
    float::lemma_exp2_mono(53, 60);
    let n = if same {
        x + y
    } else {
        (x - y) as nat
    };
    assert(x >= t) by (nonlinear_arith)
        requires
            m >= 1,
            x == m * t,
    ;
    if same || y == 0 || m > 0x80_0000 {
        assert(float::at_scale(n, 1, d as int) == (n, t));
        assert(t * 0x80_0000 <= n && n < t * 0x100_0000) by (nonlinear_arith)
            requires
                x == m * t,
                n == x + y || (n == x - y && (y == 0 || m > 0x80_0000)),
                0x80_0000 <= m < 0x100_0000,
                y < t,
        ;
        assert(float::is_exponent(n, 1, p, d as int));
        let e = choose|e: int| float::is_exponent(n, 1, p, e);
        float::lemma_exponent_unique(n, 1, p, e, d as int);
        if same || y == 0 {
            assert(n == m * t + y);
            vstd::arithmetic::div_mod::lemma_fundamental_div_mod_converse(
                n as int,
                t as int,
                m as int,
                y as int,
            );
        } else {
            assert(n == (m - 1) * t + (t - y)) by (nonlinear_arith)
                requires
                    n == m * t - y,
            ;
            vstd::arithmetic::div_mod::lemma_fundamental_div_mod_converse(
                n as int,
                t as int,
                m - 1,
                t - y,
            );
        }
    } else {
        // Just below a power of two: one exponent less, and a carry.
        let h = float::exp2((d - 1) as nat);
        assert(t == 2 * h);
        assert(float::at_scale(n, 1, d - 1) == (n, h));
        assert(n == 0x100_0000 * h - y) by (nonlinear_arith)
            requires
                n == m * t - y,
                m == 0x80_0000,
                t == 2 * h,
        ;
        assert(h * p.least() == 0x80_0000 * h && h * (2 * p.least()) == 0x100_0000 * h)
            by (nonlinear_arith)
            requires
                p.least() == 0x80_0000,
        ;
        float::lemma_exp2_mono(53, (d - 1) as nat);
        assert(float::is_exponent(n, 1, p, d - 1));
        let e = choose|e: int| float::is_exponent(n, 1, p, e);
        float::lemma_exponent_unique(n, 1, p, e, d - 1);
        assert(n == 0xff_ffff * h + (h - y));
        vstd::arithmetic::div_mod::lemma_fundamental_div_mod_converse(
            n as int,
            h as int,
            0xff_ffff,
            h - y,
        );
    }
}

/// The sum of numbers, rounded after each.
pub fn sum_rounded(s: &[F32]) -> (r: F32)
    ensures
        r == sum(s@),
{
    let mut total = F32::zero();
    let mut i: usize = 0;
    while i < s.len()
        invariant
            i <= s@.len(),
            total == sum(s@.take(i as int)),
        decreases s@.len() - i,
    {
        proof {
            assert(s@.take(i + 1).drop_last() =~= s@.take(i as int));
        }
        total = total.add_rounded(s[i]);
        i += 1;
    }
    assert(s@.take(s@.len() as int) =~= s@);
    total
}

/// Encoding depends on the ratio only.
proof fn lemma_encoded_common(negative: bool, n: nat, d: nat, c: nat)
    requires
        d > 0,
        c > 0,
    ensures
        encoded(negative, n * c, d * c) == encoded(negative, n, d),
{
    assert(n * c < 0x100_0000 * (d * c) <==> n < 0x100_0000 * d) by (nonlinear_arith)
        requires
            c > 0,
    ;
    float::lemma_half_even_common(n, d, c);
    if n > 0 {
        float::lemma_nearest_common(n, d, c, Precision::Single);
    }
}

/// A scaled mantissa over a count, with the powers of two put together.
proof fn lemma_ratio(negative: bool, m: nat, e: int, c: float::Dyadic)
    requires
        e >= -149,
        c.m > 0,
    ensures
        ({
            let (n, d) = float::at_scale(m * float::exp2((e + 149) as nat), c.m, c.e);
            let t = e + 149 - c.e;
            encoded(negative, n, d) == if t >= 0 {
                encoded(negative, m * float::exp2(t as nat), c.m)
            } else {
                encoded(negative, m, c.m * float::exp2((-t) as nat))
            }
        }),
{
    let k = (e + 149) as nat;
    let u = float::exp2(k);
    let t = e + 149 - c.e;
    float::lemma_exp2_pos(k);
    if c.e >= 0 {
        let v = float::exp2(c.e as nat);
        if t >= 0 {
            // u is v times 2 to the power of t.
            float::lemma_exp2_add(t as nat, c.e as nat);
            float::lemma_exp2_pos(c.e as nat);
            let w = float::exp2(t as nat);
            assert(m * u == (m * w) * v) by (nonlinear_arith)
                requires
                    u == w * v,
            ;
            lemma_encoded_common(negative, m * w, c.m, v);
        } else {
            float::lemma_exp2_add((-t) as nat, k);
            float::lemma_exp2_pos((-t) as nat);
            let w = float::exp2((-t) as nat);
            assert(c.m * v == (c.m * w) * u) by (nonlinear_arith)
                requires
                    v == w * u,
            ;
            assert(c.m * w > 0) by (nonlinear_arith)
                requires
                    c.m > 0,
                    w > 0,
            ;
            lemma_encoded_common(negative, m, c.m * w, u);
        }
    } else {
        let v = float::exp2((-c.e) as nat);
        float::lemma_exp2_add(k, (-c.e) as nat);
        assert((m * u) * v == m * (u * v)) by (nonlinear_arith);
    }
}

impl F32 {
    /// The number divided by a count, rounded.
    pub fn divided_by_count(self, count: u64) -> (r: F32)
        requires
            count > 0,
        ensures
            r == over(self, count as nat),
    {
        let unsigned: u32 = self.bits % 0x8000_0000;
        if unsigned > 0x7f80_0000 {
            return F32 { bits: 0x7fc0_0000 };
        }
        if unsigned == 0x7f80_0000 {
            return self;
        }
        let negative = self.bits >= 0x8000_0000;
        let a = self.to_float();
        let c = float::round_ratio(count as u128, 1, Precision::Single);
        proof {
            float::lemma_exp2_values();
            assert(float::exp2(0) == 1);
            assert(float::exponent_within(Precision::Single, c.e as int, 64, 0));
            lemma_ratio(negative, a.m as nat, a.e as int, c@);
        }
        let t: i32 = a.e + 149 - c.e;
        if t < 0 {
            proof {
                float::lemma_exp2_pos((-t) as nat);
                float::lemma_exp2_mono((-t) as nat, 52);
                let w = float::exp2((-t) as nat);
                assert(0 < c.m * w && c.m * w <= 0x100_0000 * 0x10_0000_0000_0000)
                    by (nonlinear_arith)
                    requires
                        0 < c.m <= 0x100_0000,
                        0 < w <= 0x10_0000_0000_0000,
                ;
            }
            let d = c.m as u128 * float::power((-t) as u32);
            let rounded = float::round_half_even(a.m as u128, d);
            proof {
                lemma_quotient_small(a.m as nat, d as nat);
            }
            return with_sign(negative, rounded as i64);
        }
        let ghost n = a.m as nat * float::exp2(t as nat);
        if a.m == 0 {
            proof {
                assert(n == 0) by (nonlinear_arith)
                    requires
                        n == a.m as nat * float::exp2(t as nat),
                        a.m == 0,
                ;
                let d = c.m as nat;
                assert(0nat / d == 0 && 0nat % d == 0) by (nonlinear_arith)
                    requires
                        d > 0,
                ;
            }
            return with_sign(negative, 0);
        }
        if t < 48 {
            proof {
                float::lemma_exp2_mono(t as nat, 52);
                let w = float::exp2(t as nat);
                assert(a.m * w <= 0x100_0000 * 0x10_0000_0000_0000) by (nonlinear_arith)
                    requires
                        a.m <= 0x100_0000,
                        w <= 0x10_0000_0000_0000,
                ;
            }
            let product = a.m as u128 * float::power(t as u32);
            if product < 0x100_0000 * c.m as u128 {
                let rounded = float::round_half_even(product, c.m as u128);
                proof {
                    lemma_quotient_bound(product as nat, c.m as nat);
                }
                return with_sign(negative, rounded as i64);
            }
        } else {
            proof {
                float::lemma_exp2_mono(48, t as nat);
                float::lemma_exp2_add(24, 24);
                let w = float::exp2(t as nat);
                assert(n >= w) by (nonlinear_arith)
                    requires
                        n == a.m as nat * w,
                        a.m >= 1,
                ;
            }
        }
        proof {
            float::lemma_nearest_scaled(a.m as nat, c.m as nat, t as nat, Precision::Single);
            lemma_long_exponent(n, c.m as nat);
        }
        let f = float::round_ratio(a.m as u128, c.m as u128, Precision::Single);
        with_sign(negative, f.m as i64 + (f.e as i64 + t as i64) * 0x80_0000)
    }
}

/// Rounding a ratio whose numerator is short gives a short number.
proof fn lemma_quotient_small(n: nat, d: nat)
    requires
        d > 0,
        n < 0x100_0000,
    ensures
        float::half_even(n, d) <= 0x100_0000,
        n < 0x100_0000 * d,
{
    assert(n / d <= n && n < 0x100_0000 * d) by (nonlinear_arith)
        requires
            d > 0,
            n < 0x100_0000,
    ;
}

/// Rounding a ratio below 2 to the power of 24 does not go beyond it.
proof fn lemma_quotient_bound(n: nat, d: nat)
    requires
        d > 0,
        n < 0x100_0000 * d,
    ensures
        float::half_even(n, d) <= 0x100_0000,
{
    assert(n / d < 0x100_0000) by (nonlinear_arith)
        requires
            d > 0,
            n < 0x100_0000 * d,
    ;
}

/// The mean of numbers, or 0 where there are none.
pub fn mean_rounded(s: &[F32]) -> (r: F32)
    ensures
        r == mean(s@),
{
    if s.len() == 0 {
        F32::zero()
    } else {
        sum_rounded(s).divided_by_count(s.len() as u64)
    }
}

// ---------------------------------------------------------------------------
// Laws

/// Numbers that are not negative are ordered by their value.
pub proof fn law_order_is_by_value(a: F32, b: F32)
    requires
        !a.is_nan() && !a.is_infinite() && !a.negative(),
        !b.is_nan() && !b.is_infinite() && !b.negative(),
    ensures
        a.rank() <= b.rank() <==> scaled(a.magnitude()) <= scaled(b.magnitude()),
{
    if a.rank() < b.rank() {
        lemma_larger_encoding(a, b);
    } else if b.rank() < a.rank() {
        lemma_larger_encoding(b, a);
    }
}

proof fn lemma_larger_encoding(a: F32, b: F32)
    requires
        a.unsigned() < b.unsigned() < 0x7f80_0000,
    ensures
        scaled(a.magnitude()) < scaled(b.magnitude()),
{
    let (x, y) = (a.magnitude(), b.magnitude());
    let i = (x.e + 149) as nat;
    let j = (y.e + 149) as nat;
    float::lemma_exp2_pos(i);
    if x.e == y.e {
        assert(x.m * float::exp2(i) < y.m * float::exp2(i)) by (nonlinear_arith)
            requires
                x.m < y.m,
                float::exp2(i) > 0,
        ;
    } else {
        // The exponent of b is larger, so that its value is at least that of the next power of two.
        float::lemma_exp2_mono(i + 1, j);
        assert(float::exp2(i + 1) == 2 * float::exp2(i));
        assert(x.m * float::exp2(i) < y.m * float::exp2(j)) by (nonlinear_arith)
            requires
                x.m < 0x100_0000,
                y.m >= 0x80_0000,
                float::exp2(j) >= 2 * float::exp2(i),
                float::exp2(i) > 0,
        ;
    }
}

/// The sum of a single number is this number. It may be infinite, but is a number, and not the zero
/// with a sign.
pub proof fn law_sum_of_one_is_its_own(a: F32)
    requires
        !a.is_nan(),
        a.bits != 0x8000_0000,
    ensures
        sum(seq![a]) == a,
{
    let zero = F32 { bits: 0 };
    assert(seq![a].drop_last() =~= Seq::<F32>::empty());
    assert(sum(seq![a].drop_last()) == zero);
    assert(zero.magnitude() == (float::Dyadic { m: 0, e: -149 }));
    assert(scaled(zero.magnitude()) == 0) by (nonlinear_arith)
        requires
            scaled(zero.magnitude()) == 0 * float::exp2(0),
    ;
    if !a.is_infinite() {
        lemma_encoded_back(a);
    }
}

/// A finite number is encoded back from its multiple of the least positive one.
proof fn lemma_encoded_back(a: F32)
    requires
        a.is_finite(),
    ensures
        encoded(a.negative(), scaled(a.magnitude()), 1) == a,
        scaled(a.magnitude()) == 0 <==> a.unsigned() == 0,
{
    let x = a.magnitude();
    let k = (x.e + 149) as nat;
    let n = scaled(x);
    let p = Precision::Single;
    float::lemma_exp2_values();
    float::lemma_exp2_pos(k);
    assert(n == 0 <==> x.m == 0) by (nonlinear_arith)
        requires
            n == x.m * float::exp2(k),
            float::exp2(k) > 0,
    ;
    let exponent = a.unsigned() / 0x80_0000;
    if exponent <= 1 {
        assert(k == 0);
        assert(n == x.m) by (nonlinear_arith)
            requires
                n == x.m * float::exp2(k),
                float::exp2(k) == 1,
        ;
        assert(n / 1 == n && n % 1 == 0);
        assert(float::half_even(n, 1) == n);
    } else {
        assert(k >= 1);
        assert(float::exp2(k) >= 2) by {
            float::lemma_exp2_mono(1, k);
            assert(float::exp2(1) == 2 * float::exp2(0));
        }
        assert(n >= 0x100_0000) by (nonlinear_arith)
            requires
                n == x.m * float::exp2(k),
                x.m >= 0x80_0000,
                float::exp2(k) >= 2,
        ;
        float::lemma_int_is_exact(x.m, p);
        let f = float::nearest(x.m, 1, p);
        assert(f.e == 0) by {
            if f.e < 0 {
                let t = float::exp2((-f.e) as nat);
                float::lemma_exp2_mono(1, (-f.e) as nat);
                assert(float::exp2(1) == 2 * float::exp2(0));
                assert(f.m >= 0x100_0000) by (nonlinear_arith)
                    requires
                        f.m == x.m * t,
                        x.m >= 0x80_0000,
                        t >= 2,
                ;
            }
        }
        assert(f.m == x.m) by (nonlinear_arith)
            requires
                f.m == x.m * float::exp2(0),
                float::exp2(0) == 1,
        ;
        float::lemma_nearest_scaled(x.m, 1, k, p);
        assert(float::nearest(n, 1, p) == (float::Dyadic { m: x.m, e: k as int }));
    }
}

/// The encoding of a whole number.
pub open spec fn whole(n: nat) -> F32 {
    encoded(false, n * float::exp2(149), 1)
}

/// A whole number of up to 24 bits is encoded exactly. The encoding of 1 is that of IEEE 754.
pub proof fn law_whole_numbers_are_exact(n: nat)
    requires
        n < 0x100_0000,
    ensures
        whole(n).is_finite() && !whole(n).negative(),
        scaled(whole(n).magnitude()) == n * float::exp2(149),
        whole(n).multiple() == n * float::exp2(149),
        whole(0).bits == 0,
        whole(1).bits == 0x3f80_0000,
{
    float::lemma_exp2_values();
    lemma_whole_zero();
    lemma_whole(1);
    if n > 0 {
        lemma_whole(n);
    }
    let f = float::nearest(1, 1, Precision::Single);
    assert(float::exp2(24) == 2 * float::exp2(23));
    float::lemma_int_is_exact(1, Precision::Single);
    assert(f.e == -23) by {
        let k = (-f.e) as nat;
        assert(1 * float::exp2(k) == float::exp2(k));
        if k > 23 {
            float::lemma_exp2_mono(24, k);
        } else if k < 23 {
            float::lemma_exp2_mono(k, 22);
            assert(float::exp2(23) == 2 * float::exp2(22));
        }
    }
    assert(f.m == 0x80_0000);
}

proof fn lemma_whole_zero()
    ensures
        whole(0) == (F32 { bits: 0 }),
        scaled(whole(0).magnitude()) == 0,
        0 * float::exp2(149) == 0,
{
    assert(0 * float::exp2(149) == 0) by (nonlinear_arith);
    assert(0nat / 1 == 0 && 0nat % 1 == 0);
    assert(float::half_even(0, 1) == 0);
    assert(0 * float::exp2(0) == 0) by (nonlinear_arith);
}

proof fn lemma_whole(n: nat)
    requires
        0 < n < 0x100_0000,
    ensures
        whole(n).is_finite() && !whole(n).negative(),
        scaled(whole(n).magnitude()) == n * float::exp2(149),
        ({
            let f = float::nearest(n, 1, Precision::Single);
            whole(n).bits == f.m + (f.e + 149) * 0x80_0000
        }),
{
    let p = Precision::Single;
    float::lemma_exp2_values();
    assert(float::exp2(24) == 2 * float::exp2(23));
    let f = float::nearest(n, 1, p);
    let m = n * float::exp2(149);
    float::lemma_int_is_exact(n, p);
    float::lemma_nearest_scaled(n, 1, 149, p);
    float::lemma_exp2_mono(24, 149);
    assert(m >= 0x100_0000) by (nonlinear_arith)
        requires
            m == n * float::exp2(149),
            n >= 1,
            float::exp2(149) >= 0x100_0000,
    ;
    let k = (-f.e) as nat;
    let t = float::exp2(k);
    assert(k < 24) by {
        if k >= 24 {
            float::lemma_exp2_mono(24, k);
            assert(n * t >= 0x100_0000) by (nonlinear_arith)
                requires
                    n >= 1,
                    t >= 0x100_0000,
            ;
        }
    }
    let w = whole(n);
    assert(w.bits == f.m + (f.e + 149) * 0x80_0000);
    assert(w.magnitude() == f);
    let u = float::exp2((f.e + 149) as nat);
    float::lemma_exp2_add(k, (f.e + 149) as nat);
    assert(t * u == float::exp2(149));
    assert(f.m * u == n * (t * u)) by (nonlinear_arith)
        requires
            f.m == n * t,
    ;
}

/// The sum of natural numbers.
pub open spec fn count(ns: Seq<nat>) -> nat
    decreases ns.len(),
{
    if ns.len() == 0 {
        0
    } else {
        count(ns.drop_last()) + ns.last()
    }
}

/// The mean of whole numbers is their sum divided by how many there are, rounded once: the number of
/// single precision nearest to it.
pub proof fn law_mean_is_the_sum_over_the_number(s: Seq<F32>, ns: Seq<nat>)
    requires
        0 < s.len() < 0x100_0000,
        s.len() == ns.len(),
        forall|i: int| 0 <= i < s.len() ==> #[trigger] s[i] == whole(ns[i]),
        count(ns) < 0x100_0000,
    ensures
        sum(s) == whole(count(ns)),
        mean(s) == encoded(false, count(ns) * float::exp2(149), s.len()),
        mean(Seq::empty()).bits == 0,
{
    lemma_sum_of_whole(s, ns);
    let total = count(ns);
    let n = s.len();
    law_whole_numbers_are_exact(total);
    let a = whole(total);
    let m = total * float::exp2(149);
    let p = Precision::Single;
    float::lemma_exp2_values();
    assert(float::exp2(24) == 2 * float::exp2(23));
    float::lemma_int_is_exact(n, p);
    let c = float::nearest(n, 1, p);
    let t = float::exp2((-c.e) as nat);
    float::lemma_exp2_pos((-c.e) as nat);
    if c.e < 0 {
        assert(float::at_scale(m, c.m, c.e) == (m * t, n * t));
        lemma_encoded_common(false, m, n, t);
    } else {
        assert(n * float::exp2(0) == n) by (nonlinear_arith)
            requires
                float::exp2(0) == 1,
        ;
        assert(c.m == n);
        assert(float::at_scale(m, c.m, 0) == (m, n * float::exp2(0)));
    }
}

proof fn lemma_sum_of_whole(s: Seq<F32>, ns: Seq<nat>)
    requires
        s.len() == ns.len(),
        forall|i: int| 0 <= i < s.len() ==> #[trigger] s[i] == whole(ns[i]),
        count(ns) < 0x100_0000,
    ensures
        sum(s) == whole(count(ns)),
    decreases s.len(),
{
    lemma_whole_zero();
    if s.len() > 0 {
        let (r, q) = (s.drop_last(), ns.drop_last());
        assert forall|i: int| 0 <= i < r.len() implies #[trigger] r[i] == whole(q[i]) by {
            assert(r[i] == s[i]);
        }
        lemma_sum_of_whole(r, q);
        let (x, y) = (count(q), ns.last());
        assert(s[s.len() - 1] == s.last());
        law_whole_numbers_are_exact(x);
        law_whole_numbers_are_exact(y);
        let u = float::exp2(149);
        float::lemma_exp2_pos(149);
        assert(x * u + y * u == (x + y) * u) by (nonlinear_arith);
        assert((x + y) * u == 0 <==> x + y == 0) by (nonlinear_arith)
            requires
                u > 0,
        ;
    }
}

/// The number nearest to a ratio differs from it by half a unit in the last of its 24 bits at most,
/// where it is neither too large nor too small for them.
pub proof fn law_encoded_is_the_nearest_number(n: nat, d: nat)
    requires
        d > 0,
        n >= 0x80_0000 * d,
        encoded(false, n, d).is_finite(),
    ensures
        !encoded(false, n, d).negative(),
        float::is_near(scaled(encoded(false, n, d).magnitude()) * d, n, 0x100_0000),
        encoded(true, n, d).bits == encoded(false, n, d).bits + 0x8000_0000,
{
    let x = encoded(false, n, d);
    float::lemma_exp2_values();
    assert(float::exp2(24) == 2 * float::exp2(23));
    assert(n > 0) by (nonlinear_arith)
        requires
            n >= 0x80_0000 * d,
            d > 0,
    ;
    if n < 0x100_0000 * d {
        let q = float::half_even(n, d);
        lemma_quotient_bound(n, d);
        float::lemma_half_even_near(n, d);
        assert(q >= 0x80_0000) by {
            assert(n / d >= 0x80_0000) by (nonlinear_arith)
                requires
                    n >= 0x80_0000 * d,
                    d > 0,
            ;
        }
        assert(x.bits == q);
        assert(float::exp2(1) == 2 * float::exp2(0));
        if q < 0x100_0000 {
            assert(x.magnitude() == (float::Dyadic { m: q, e: -149 }));
            assert(q * float::exp2(0) == q) by (nonlinear_arith)
                requires
                    float::exp2(0) == 1,
            ;
        } else {
            assert(x.magnitude() == (float::Dyadic { m: 0x80_0000, e: -148 }));
            assert(0x80_0000 * float::exp2(1) == 0x100_0000);
        }
        assert(scaled(x.magnitude()) == q);
        let qd = q * d;
        let k: int = 0x100_0000;
        assert((k - 1) * n <= k * qd && k * qd <= (k + 1) * n) by (nonlinear_arith)
            requires
                k == 0x100_0000,
                2 * qd <= 2 * n + d,
                2 * n <= 2 * qd + d,
                0x80_0000 * d <= n,
        ;
    } else {
        let p = Precision::Single;
        lemma_long_exponent(n, d);
        let f = float::nearest(n, d, p);
        float::law_nearest_keeps_the_precision(n, d, p, -1);
        assert(x.bits == f.m + f.e * 0x80_0000);
        assert(x.magnitude() == (float::Dyadic { m: f.m, e: f.e - 149 }));
        let u = float::exp2(f.e as nat);
        assert(float::exp2((f.e + 1) as nat) == 2 * u);
        assert(float::exp2(1) == 2 * float::exp2(0));
        let v = f.m * u;
        assert((f.m * (2 * u)) * d == (v * d) * 2) by (nonlinear_arith)
            requires
                v == f.m * u,
        ;
        float::lemma_near_cancel(v * d, n, 0x100_0000, 2);
    }
}

/// A finite number is at least `k`, where that is positive, if and only if its value is.
pub proof fn law_at_least_is_by_value(a: F32, k: nat)
    requires
        a.is_finite(),
        k > 0,
    ensures
        a.at_least(k) <==> k * float::exp2(149) <= a.multiple(),
{
    float::lemma_compare_in_units(a.magnitude(), k, -149);
    float::lemma_exp2_pos(149);
    let (x, u) = (k * float::exp2(149), float::exp2(149));
    assert(x > 0) by (nonlinear_arith)
        requires
            x == k * u,
            k > 0,
            u > 0,
    ;
}

/// Finite numbers are ordered by their value, negative ones too.
pub proof fn law_order_is_by_signed_value(a: F32, b: F32)
    requires
        a.is_finite() && b.is_finite(),
    ensures
        a.rank() <= b.rank() <==> a.multiple() <= b.multiple(),
{
    lemma_encoded_back(a);
    lemma_encoded_back(b);
    if a.unsigned() < b.unsigned() {
        lemma_larger_encoding(a, b);
    } else if b.unsigned() < a.unsigned() {
        lemma_larger_encoding(b, a);
    }
}

/// The text of a finite number is that of its absolute value with one digit after the point, after a
/// minus sign where it is negative.
pub proof fn law_text_of_a_number(a: F32)
    requires
        a.is_finite(),
    ensures
        !a.negative() ==> a.text() == figures::tenths(a.magnitude()),
        a.negative() ==> a.text() == "-"@ + figures::tenths(a.magnitude()),
{
}

/// The sum of whole numbers is exact, as long as it has no more than 24 bits.
pub proof fn law_sum_of_whole_numbers(s: Seq<F32>, ns: Seq<nat>)
    requires
        s.len() == ns.len(),
        forall|i: int| 0 <= i < s.len() ==> #[trigger] s[i] == whole(ns[i]),
        count(ns) < 0x100_0000,
    ensures
        sum(s) == whole(count(ns)),
{
    lemma_sum_of_whole(s, ns);
}

/// What is not a number is at least nothing, and infinity at least everything; each has a text of its
/// own.
pub proof fn law_odd_numbers(a: F32, k: nat)
    ensures
        a.is_nan() ==> !a.at_least(k) && a.text() == "NaN"@,
        a.bits == 0x7f80_0000 ==> a.at_least(k) && a.text() == "inf"@,
        a.bits == 0xff80_0000 ==> !a.at_least(k) && a.text() == "-"@ + "inf"@,
        a.is_nan() <==> (0x7f80_0000 < a.bits < 0x8000_0000 || a.bits > 0xff80_0000),
{
}

} // verus!
