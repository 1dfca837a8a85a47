//! Binary floating-point numbers as integers: an integer times a power of two. Rates and shares
//! are rounded here exactly as IEEE 754 single and double precision round them, to the nearest
//! number and to the even one of two that are equally near. The numbers here are never negative
//! and stay well inside the exponent range of either precision, which is therefore not modelled.

use vstd::prelude::*;

verus! {

// ---------------------------------------------------------------------------
// Powers of two

/// 2 to the power of `n`.
pub open spec fn exp2(n: nat) -> nat
    decreases n,
{
    if n == 0 {
        1
    } else {
        2 * exp2((n - 1) as nat)
    }
}

pub proof fn lemma_exp2_pos(n: nat)
    ensures
        exp2(n) > 0,
    decreases n,
{
    if n > 0 {
        lemma_exp2_pos((n - 1) as nat);
    }
}

pub proof fn lemma_exp2_add(a: nat, b: nat)
    ensures
        exp2(a + b) == exp2(a) * exp2(b),
    decreases b,
{
    if b > 0 {
        lemma_exp2_add(a, (b - 1) as nat);
        assert(exp2(a + b) == 2 * exp2((a + b - 1) as nat));
        assert(2 * (exp2(a) * exp2((b - 1) as nat)) == exp2(a) * (2 * exp2((b - 1) as nat)))
            by (nonlinear_arith);
    } else {
        assert(exp2(a) * 1 == exp2(a)) by (nonlinear_arith);
    }
}

pub proof fn lemma_exp2_mono(a: nat, b: nat)
    requires
        a <= b,
    ensures
        exp2(a) <= exp2(b),
    decreases b,
{
    if a < b {
        lemma_exp2_mono(a, (b - 1) as nat);
        lemma_exp2_pos((b - 1) as nat);
    }
}

/// Of two powers of two the one with the smaller exponent is the smaller one.
pub proof fn lemma_exp2_order(a: nat, b: nat)
    requires
        exp2(a) < exp2(b),
    ensures
        a < b,
{
    if b <= a {
        lemma_exp2_mono(b, a);
    }
}

pub proof fn lemma_exp2_values()
    ensures
        exp2(10) == 1024,
        exp2(20) == 0x10_0000,
        exp2(23) == 0x80_0000,
        exp2(24) == 0x100_0000,
        exp2(30) == 0x4000_0000,
        exp2(32) == 0x1_0000_0000,
        exp2(52) == 0x10_0000_0000_0000,
        exp2(53) == 0x20_0000_0000_0000,
        exp2(64) == 0x1_0000_0000_0000_0000,
        exp2(128) == 0x1_0000_0000_0000_0000 * 0x1_0000_0000_0000_0000,
{
    reveal_with_fuel(exp2, 33);
    assert(exp2(10) == 1024);
    assert(exp2(20) == 0x10_0000);
    assert(exp2(30) == 0x4000_0000);
    lemma_exp2_add(32, 20);
    lemma_exp2_add(32, 21);
    lemma_exp2_add(32, 32);
    lemma_exp2_add(64, 64);
}

/// 2 to the power of `n`.
pub fn power(n: u32) -> (r: u128)
    requires
        n < 128,
    ensures
        r == exp2(n as nat),
{
    let mut r: u128 = 1;
    let mut i: u32 = 0;
    while i < n
        invariant
            i <= n < 128,
            r == exp2(i as nat),
        decreases n - i,
    {
        proof {
            lemma_exp2_mono((i + 1) as nat, 127);
            lemma_exp2_values();
            assert(exp2(128) == 2 * exp2(127));
        }
        r = r * 2;
        i += 1;
    }
    r
}

// ---------------------------------------------------------------------------
// Rounding

/// `n / d`, rounded to the nearest integer, and to the even one of two that are equally near.
pub open spec fn half_even(n: nat, d: nat) -> nat {
    let q = n / d;
    let r = n % d;
    if 2 * r < d || (2 * r == d && q % 2 == 0) {
        q
    } else {
        q + 1
    }
}

/// `n / d`, rounded to the nearest integer, and to the even one of two that are equally near.
pub fn round_half_even(n: u128, d: u128) -> (r: u128)
    requires
        0 < d < 0x8000_0000_0000_0000_0000_0000_0000_0000,
        n < 0x8000_0000_0000_0000_0000_0000_0000_0000,
    ensures
        r == half_even(n as nat, d as nat),
{
    let q = n / d;
    let r = n % d;
    if 2 * r < d || (2 * r == d && q % 2 == 0) {
        q
    } else {
        assert(q <= n) by (nonlinear_arith)
            requires
                d > 0,
                q == n / d,
        ;
        q + 1
    }
}

/// The number `m` times 2 to the power of `e`.
pub ghost struct Dyadic {
    pub m: nat,
    pub e: int,
}

/// How many significant bits a number has.
#[derive(Debug, Clone, Copy, PartialEq, Eq, Structural)]
pub enum Precision {
    Single,
    Double,
}

impl Precision {
    /// The number of significant bits.
    pub open spec fn bits(self) -> nat {
        match self {
            Precision::Single => 24,
            Precision::Double => 53,
        }
    }

    /// The least integer with this many bits.
    pub open spec fn least(self) -> nat {
        exp2((self.bits() - 1) as nat)
    }

    fn least_value(self) -> (r: u128)
        ensures
            r == self.least(),
            r == 0x80_0000 || r == 0x10_0000_0000_0000,
    {
        proof {
            lemma_exp2_values();
        }
        match self {
            Precision::Single => 0x80_0000,
            Precision::Double => 0x10_0000_0000_0000,
        }
    }
}

/// The numerator and denominator of `n / d` divided by 2 to the power of `e`.
pub open spec fn at_scale(n: nat, d: nat, e: int) -> (nat, nat) {
    if e >= 0 {
        (n, d * exp2(e as nat))
    } else {
        (n * exp2((-e) as nat), d)
    }
}

/// Whether `n / d` divided by 2 to the power of `e` has as many bits before the binary point as
/// the precision has.
pub open spec fn is_exponent(n: nat, d: nat, p: Precision, e: int) -> bool {
    let (a, b) = at_scale(n, d, e);
    b * p.least() <= a < b * (2 * p.least())
}

/// The number of the precision nearest to `n / d`.
pub open spec fn nearest(n: nat, d: nat, p: Precision) -> Dyadic {
    if n == 0 {
        Dyadic { m: 0, e: 0 }
    } else {
        let e = choose|e: int| is_exponent(n, d, p, e);
        let (a, b) = at_scale(n, d, e);
        let q = half_even(a, b);
        if q == 2 * p.least() {
            Dyadic { m: p.least(), e: e + 1 }
        } else {
            Dyadic { m: q, e }
        }
    }
}

proof fn lemma_scale_step(n: nat, d: nat, e: int, c: nat)
    requires
        ({
            let (a, b) = at_scale(n, d, e + 1);
            b * c <= a
        }),
    ensures
        ({
            let (a, b) = at_scale(n, d, e);
            b * (2 * c) <= a
        }),
{
    if e >= 0 {
        let x = exp2(e as nat);
        assert(exp2((e + 1) as nat) == 2 * x);
        assert((d * (2 * x)) * c == (d * x) * (2 * c)) by (nonlinear_arith);
    } else {
        let x = exp2((-e - 1) as nat);
        assert(exp2((-e) as nat) == 2 * x);
        if e + 1 == 0 {
            assert(x == 1);
            assert(d * 1 * c <= n ==> d * (2 * c) <= n * 2) by (nonlinear_arith);
            assert(d * exp2(0) == d) by (nonlinear_arith)
                requires
                    exp2(0) == 1,
            ;
            assert(n * (2 * x) == n * 2);
        } else {
            assert((-(e + 1)) as nat == (-e - 1) as nat);
            assert(d * c <= n * x ==> d * (2 * c) <= n * (2 * x)) by (nonlinear_arith);
        }
    }
}

proof fn lemma_scale_steps(n: nat, d: nat, e: int, f: int, c: nat)
    requires
        e < f,
        ({
            let (a, b) = at_scale(n, d, f);
            b * c <= a
        }),
    ensures
        ({
            let (a, b) = at_scale(n, d, e);
            b * (2 * c) <= a
        }),
    decreases f - e,
{
    if e + 1 < f {
        lemma_scale_steps(n, d, e + 1, f, c);
        let (a, b) = at_scale(n, d, e + 1);
        assert(b * c <= b * (2 * c)) by (nonlinear_arith);
    }
    lemma_scale_step(n, d, e, c);
}

/// A number has one exponent only.
pub proof fn lemma_exponent_unique(n: nat, d: nat, p: Precision, e: int, f: int)
    requires
        is_exponent(n, d, p, e),
        is_exponent(n, d, p, f),
    ensures
        e == f,
{
    if e < f {
        lemma_scale_steps(n, d, e, f, p.least());
    } else if f < e {
        lemma_scale_steps(n, d, f, e, p.least());
    }
}

/// The number `m` times 2 to the power of `e`.
#[derive(Debug, Clone, Copy, PartialEq, Eq, Structural)]
pub struct Float {
    pub m: u64,
    pub e: i32,
}

impl View for Float {
    type V = Dyadic;

    open spec fn view(&self) -> Dyadic {
        Dyadic { m: self.m as nat, e: self.e as int }
    }
}

/// Bounds on the exponent of a number below 2 to the power of `top` over a denominator of at most 2
/// to the power of `bottom`.
pub open spec fn exponent_within(p: Precision, e: int, top: int, bottom: int) -> bool {
    -(bottom + p.bits()) < e <= top - p.bits() + 2
}

proof fn lemma_exponent_bounds(n: nat, d: nat, p: Precision, e: int, top: nat, bottom: nat)
    requires
        0 < n < exp2(top),
        0 < d <= exp2(bottom),
        is_exponent(n, d, p, e),
    ensures
        e <= top - p.bits(),
        e > -(bottom + p.bits()),
{
    let x = p.least();
    lemma_exp2_pos((p.bits() - 1) as nat);
    if e >= 0 {
        let t = exp2(e as nat);
        lemma_exp2_pos(e as nat);
        assert(x * t <= (d * t) * x) by (nonlinear_arith)
            requires
                d >= 1,
                t >= 1,
                x >= 1,
        ;
        lemma_exp2_add((p.bits() - 1) as nat, e as nat);
        lemma_exp2_order((p.bits() - 1 + e) as nat, top);
    } else {
        let t = exp2((-e) as nat);
        lemma_exp2_pos((-e) as nat);
        // Above: the least mantissa is at most n * t.
        assert(x <= d * x) by (nonlinear_arith)
            requires
                d >= 1,
                x >= 1,
        ;
        assert(n * t < exp2(top) * t) by (nonlinear_arith)
            requires
                n < exp2(top),
                t >= 1,
        ;
        lemma_exp2_add(top, (-e) as nat);
        lemma_exp2_order((p.bits() - 1) as nat, (top - e) as nat);
        // Below: t is less than d times the greatest mantissa.
        assert(t <= n * t) by (nonlinear_arith)
            requires
                n >= 1,
                t >= 1,
        ;
        assert(d * (2 * x) <= exp2(bottom) * (2 * x)) by (nonlinear_arith)
            requires
                d <= exp2(bottom),
                x >= 1,
        ;
        assert(2 * x == exp2(p.bits()));
        lemma_exp2_add(bottom, p.bits());
        lemma_exp2_order((-e) as nat, bottom + p.bits());
    }
}

proof fn lemma_rounded_bits(a: nat, b: nat, x: nat)
    requires
        b > 0,
        x > 0,
        b * x <= a < b * (2 * x),
    ensures
        x <= half_even(a, b) <= 2 * x,
{
    assert(x <= a / b < 2 * x) by (nonlinear_arith)
        requires
            b > 0,
            b * x <= a < b * (2 * x),
    ;
}

/// The number of the precision nearest to `n / d`.
pub fn round_ratio(n: u128, d: u128, p: Precision) -> (r: Float)
    requires
        n < 0x4000_0000_0000_0000_0000_0000_0000_0000,
        0 < d <= u64::MAX,
    ensures
        r@ == nearest(n as nat, d as nat, p),
        n > 0 ==> p.least() <= r.m < 2 * p.least(),
        r.m < 0x20_0000_0000_0000,
        -200 < r.e < 200,
        forall|top: nat, bottom: nat|
            n > 0 && n < #[trigger] exp2(top) && d <= #[trigger] exp2(bottom) ==> exponent_within(
                p,
                r.e as int,
                top as int,
                bottom as int,
            ),
{
    if n == 0 {
        return Float { m: 0, e: 0 };
    }
    let x = p.least_value();
    let mut a: u128 = n;
    let mut b: u128 = d;
    let mut e: i32 = 0;
    proof {
        lemma_exp2_values();
        assert(n * exp2(0) == n && d * exp2(0) == d) by (nonlinear_arith)
            requires
                exp2(0) == 1,
        ;
        assert(b * x <= 0x1_0000_0000_0000_0000 * 0x10_0000_0000_0000) by (nonlinear_arith)
            requires
                b <= 0x1_0000_0000_0000_0000,
                x <= 0x10_0000_0000_0000,
        ;
    }
    while a < b * x
        invariant
            0 < n,
            0 < a < 0x4000_0000_0000_0000_0000_0000_0000_0000,
            b == d,
            0 < b <= u64::MAX,
            x == p.least(),
            x == 0x80_0000 || x == 0x10_0000_0000_0000,
            b * x <= 0x1_0000_0000_0000_0000 * 0x10_0000_0000_0000,
            -128 < e <= 0,
            a == n * exp2((-e) as nat),
            e < 0 ==> a < b * (2 * x),
        decreases 128 + e,
    {
        proof {
            let t = exp2((-e) as nat);
            assert(exp2((-e + 1) as nat) == 2 * t);
            assert(n * (2 * t) == 2 * (n * t)) by (nonlinear_arith);
            assert(2 * (b * x) == b * (2 * x)) by (nonlinear_arith);
            lemma_exp2_values();
            if -e + 1 >= 128 {
                lemma_exp2_mono(128, (-e + 1) as nat);
                assert(2 * t <= n * (2 * t)) by (nonlinear_arith)
                    requires
                        n >= 1,
                ;
                assert(false);
            }
        }
        a = a * 2;
        e = e - 1;
    }
    proof {
        assert(b * (2 * x) == 2 * (b * x)) by (nonlinear_arith);
        lemma_exp2_pos(0);
    }
    while a >= 2 * (b * x)
        invariant
            0 < n,
            0 < d,
            x == p.least(),
            x == 0x80_0000 || x == 0x10_0000_0000_0000,
            a < 0x4000_0000_0000_0000_0000_0000_0000_0000,
            0 < b,
            b * x <= a,
            2 * (b * x) <= u128::MAX,
            -128 < e < 128,
            (a as nat, b as nat) == at_scale(n as nat, d as nat, e as int),
            e < 0 ==> a < 2 * (b * x),
        decreases a - b * x,
    {
        proof {
            let t = exp2(e as nat);
            assert(exp2((e + 1) as nat) == 2 * t);
            assert(d * (2 * t) == 2 * (d * t)) by (nonlinear_arith);
            assert((2 * b) * x == 2 * (b * x)) by (nonlinear_arith);
            assert(b * x >= 1 * x) by (nonlinear_arith)
                requires
                    b >= 1,
                    x >= 0,
            ;
            lemma_exp2_values();
            assert(2 * b <= 2 * (b * x)) by (nonlinear_arith)
                requires
                    x >= 1,
                    b >= 1,
            ;
            if e + 1 >= 128 {
                lemma_exp2_mono(128, (e + 1) as nat);
                assert(2 * t <= d * (2 * t)) by (nonlinear_arith)
                    requires
                        d >= 1,
                ;
                assert(false);
            }
        }
        b = b * 2;
        e = e + 1;
    }
    proof {
        assert(b * (2 * x) == 2 * (b * x)) by (nonlinear_arith);
        assert(is_exponent(n as nat, d as nat, p, e as int));
        let f = choose|f: int| is_exponent(n as nat, d as nat, p, f);
        lemma_exponent_unique(n as nat, d as nat, p, e as int, f);
        lemma_rounded_bits(a as nat, b as nat, x as nat);
        assert(b <= b * x) by (nonlinear_arith)
            requires
                x >= 1,
                b >= 1,
        ;
        assert forall|top: nat, bottom: nat|
            n > 0 && n < #[trigger] exp2(top) && d <= #[trigger] exp2(bottom) implies e <= top
            - p.bits() && e > -(bottom + p.bits()) by {
            lemma_exponent_bounds(n as nat, d as nat, p, e as int, top, bottom);
        }
    }
    let q = round_half_even(a, b);
    if q == 2 * x {
        Float { m: x as u64, e: e + 1 }
    } else {
        Float { m: q as u64, e }
    }
}

// ---------------------------------------------------------------------------
// Arithmetic

/// The number `f` times 2 to the power of `k`.
pub open spec fn shifted(f: Dyadic, k: int) -> Dyadic {
    Dyadic { m: f.m, e: f.e + k }
}

/// The number of the precision nearest to `a / b`.
pub open spec fn quotient(a: Dyadic, b: Dyadic, p: Precision) -> Dyadic {
    shifted(nearest(a.m, b.m, p), a.e - b.e)
}

/// The number of the precision nearest to `a` times `k`.
pub open spec fn multiple(a: Dyadic, k: nat, p: Precision) -> Dyadic {
    shifted(nearest(a.m * k, 1, p), a.e)
}

impl Float {
    /// Whether the exponent lies within a range that holds those of single and double precision,
    /// with room to spare.
    pub open spec fn tame(self) -> bool {
        -4000 < self.e < 4000
    }

    /// The number of the precision nearest to `n`.
    pub fn from_int(n: u64, p: Precision) -> (r: Float)
        ensures
            r@ == nearest(n as nat, 1, p),
            n > 0 ==> r.m > 0,
            n > 0 ==> p.least() <= r.m < 2 * p.least(),
            r.m < 0x20_0000_0000_0000,
            -200 < r.e < 200,
    {
        proof {
            lemma_exp2_pos((p.bits() - 1) as nat);
        }
        round_ratio(n as u128, 1, p)
    }

    /// The number of the precision nearest to the quotient of two numbers.
    pub fn divided_by(self, b: Float, p: Precision) -> (r: Float)
        requires
            b.m > 0,
            self.tame(),
            b.tame(),
        ensures
            r@ == quotient(self@, b@, p),
            r.m < 0x20_0000_0000_0000,
            self.e - b.e - 200 < r.e < self.e - b.e + 200,
    {
        let q = round_ratio(self.m as u128, b.m as u128, p);
        Float { m: q.m, e: q.e + (self.e - b.e) }
    }

    /// The number of the precision nearest to a multiple of the number.
    pub fn times(self, k: u32, p: Precision) -> (r: Float)
        requires
            self.tame(),
        ensures
            r@ == multiple(self@, k as nat, p),
            r.m < 0x20_0000_0000_0000,
            self.e - 200 < r.e < self.e + 200,
    {
        assert(self.m * k <= 0xffff_ffff_ffff_ffff * 0xffff_ffff) by (nonlinear_arith)
            requires
                self.m <= 0xffff_ffff_ffff_ffff,
                k <= 0xffff_ffff,
        ;
        let q = round_ratio(self.m as u128 * k as u128, 1, p);
        Float { m: q.m, e: q.e + self.e }
    }
}

// ---------------------------------------------------------------------------
// Comparing and rounding to integers

/// Whether `f` is at least `k`.
pub open spec fn at_least(f: Dyadic, k: nat) -> bool {
    let (a, b) = at_scale(f.m, 1, -f.e);
    k * b <= a
}

/// Whether `f` is more than `k`.
pub open spec fn exceeds(f: Dyadic, k: nat) -> bool {
    let (a, b) = at_scale(f.m, 1, -f.e);
    k * b < a
}

/// The smaller one of `f` and `k`.
pub open spec fn at_most(f: Dyadic, k: nat) -> Dyadic {
    if exceeds(f, k) {
        Dyadic { m: k, e: 0 }
    } else {
        f
    }
}

/// `f` without the part after the binary point.
pub open spec fn floor(f: Dyadic) -> nat {
    let (a, b) = at_scale(f.m, 1, -f.e);
    a / b
}

/// `f` times `scale`, rounded to the nearest integer, and to the even one of two that are equally
/// near.
pub open spec fn rounded(f: Dyadic, scale: nat) -> nat {
    let (a, b) = at_scale(f.m * scale, 1, -f.e);
    half_even(a, b)
}

/// Where the binary point stands within reach of 128 bits, the number as a ratio of integers.
fn ratio(f: Float) -> (r: (u128, u128))
    requires
        -126 <= f.e <= 63,
    ensures
        (r.0 as nat, r.1 as nat) == at_scale(f.m as nat, 1, -f.e),
        r.1 > 0,
{
    let n: u128 = f.m as u128;
    if f.e <= 0 {
        let d = power((-f.e) as u32);
        proof {
            lemma_exp2_mono((-f.e) as nat, 126);
            lemma_exp2_pos((-f.e) as nat);
            lemma_exp2_values();
            assert(exp2(128) == 2 * exp2(127));
            assert(exp2(127) == 2 * exp2(126));
            assert(n * 1 == n);
            assert(exp2(0) == 1);
        }
        (n, d)
    } else {
        let t = power(f.e as u32);
        proof {
            lemma_exp2_mono(f.e as nat, 63);
            lemma_exp2_values();
            assert(exp2(64) == 2 * exp2(63));
            assert(n * t <= 0xffff_ffff_ffff_ffff * 0x8000_0000_0000_0000) by (nonlinear_arith)
                requires
                    n <= 0xffff_ffff_ffff_ffff,
                    t <= 0x8000_0000_0000_0000,
            ;
        }
        (n * t, 1)
    }
}

/// A number with a large exponent is at least 2 to the power of that exponent.
proof fn lemma_large(m: nat, e: int, k: nat)
    requires
        m > 0,
        0 < k <= e,
    ensures
        at_scale(m, 1, -e) == (m * exp2(e as nat), 1nat),
        m * exp2(e as nat) >= exp2(k),
{
    lemma_exp2_mono(k, e as nat);
    assert(m * exp2(e as nat) >= exp2(e as nat)) by (nonlinear_arith)
        requires
            m >= 1,
    ;
}

/// Zero is zero whatever its exponent.
proof fn lemma_zero(e: int)
    requires
        e > 0,
    ensures
        at_scale(0, 1, -e) == (0nat, 1nat),
{
    let t = exp2(e as nat);
    assert(0 * t == 0) by (nonlinear_arith);
}

/// A ratio with the denominator 1 is its numerator.
proof fn lemma_ratio_whole(k: nat, r: (nat, nat))
    by (nonlinear_arith)
    requires
        r.1 == 1,
    ensures
        k * r.1 == k,
{
}

/// A denominator of 1 leaves the bounds of a mantissa.
proof fn lemma_whole_bounds(b: nat, x: nat)
    by (nonlinear_arith)
    requires
        b == 1,
    ensures
        b * x == x,
        b * (2 * x) == 2 * x,
{
}

/// Comparing with a ratio comes down to comparing with its quotient and remainder.
proof fn lemma_ratio_order(k: nat, a: nat, b: nat)
    by (nonlinear_arith)
    requires
        b > 0,
    ensures
        k * b <= a <==> k <= a / b,
        k * b < a <==> k < a / b || (k == a / b && a % b > 0),
{
}

/// A number with a small exponent is a ratio with a large denominator.
proof fn lemma_small(m: nat, e: int)
    requires
        e < -126,
        m < 0x1_0000_0000_0000_0000 * 0x1_0000_0000,
    ensures
        at_scale(m, 1, -e) == (m, exp2((-e) as nat)),
        2 * m < exp2((-e) as nat),
        m / exp2((-e) as nat) == 0,
        m % exp2((-e) as nat) == m,
{
    let d = exp2((-e) as nat);
    lemma_exp2_mono(126, (-e) as nat);
    lemma_exp2_mono(97, 126);
    lemma_exp2_values();
    lemma_exp2_add(64, 32);
    assert(exp2(97) == 2 * exp2(96));
    assert(m / d == 0 && m % d == m) by (nonlinear_arith)
        requires
            0 <= m < d,
    ;
}

impl Float {
    /// Whether the number is at least `k`.
    pub fn is_at_least(self, k: u32) -> (r: bool)
        ensures
            r == at_least(self@, k as nat),
    {
        if self.e > 63 {
            proof {
                lemma_exp2_values();
                if self.m > 0 {
                    lemma_large(self.m as nat, self.e as int, 64);
                } else {
                    lemma_zero(self.e as int);
                }
                lemma_ratio_whole(k as nat, at_scale(self.m as nat, 1, -self.e));
            }
            self.m > 0 || k == 0
        } else if self.e < -126 {
            proof {
                lemma_small(self.m as nat, self.e as int);
                let d = exp2((-self.e) as nat);
                assert(k >= 1 ==> k * d >= d) by (nonlinear_arith);
                assert(k == 0 ==> k * d == 0) by (nonlinear_arith);
            }
            k == 0
        } else {
            let (a, b) = ratio(self);
            proof {
                lemma_ratio_order(k as nat, a as nat, b as nat);
            }
            k as u128 <= a / b
        }
    }

    /// Whether the number is more than `k`.
    pub fn is_above(self, k: u32) -> (r: bool)
        ensures
            r == exceeds(self@, k as nat),
    {
        if self.e > 63 {
            proof {
                lemma_exp2_values();
                if self.m > 0 {
                    lemma_large(self.m as nat, self.e as int, 64);
                } else {
                    lemma_zero(self.e as int);
                }
                lemma_ratio_whole(k as nat, at_scale(self.m as nat, 1, -self.e));
            }
            self.m > 0
        } else if self.e < -126 {
            proof {
                lemma_small(self.m as nat, self.e as int);
                let d = exp2((-self.e) as nat);
                assert(k >= 1 ==> k * d >= d) by (nonlinear_arith);
                assert(k == 0 ==> k * d == 0) by (nonlinear_arith);
            }
            k == 0 && self.m > 0
        } else {
            let (a, b) = ratio(self);
            proof {
                lemma_ratio_order(k as nat, a as nat, b as nat);
            }
            (k as u128) < a / b || (k as u128 == a / b && a % b > 0)
        }
    }

    /// The smaller one of the number and `k`.
    pub fn capped_at(self, k: u32) -> (r: Float)
        ensures
            r@ == at_most(self@, k as nat),
            self.tame() ==> r.tame(),
    {
        if self.is_above(k) {
            Float { m: k as u64, e: 0 }
        } else {
            self
        }
    }

    /// The number without the part after the binary point, or the greatest `u64` where it is
    /// smaller.
    pub fn to_u64(self) -> (r: u64)
        ensures
            r == if floor(self@) <= u64::MAX { floor(self@) } else { u64::MAX as nat },
    {
        if self.e > 63 {
            proof {
                lemma_exp2_values();
                if self.m > 0 {
                    lemma_large(self.m as nat, self.e as int, 64);
                } else {
                    lemma_zero(self.e as int);
                }
            }
            if self.m > 0 {
                u64::MAX
            } else {
                0
            }
        } else if self.e < -126 {
            proof {
                lemma_small(self.m as nat, self.e as int);
            }
            0
        } else {
            let (a, b) = ratio(self);
            let q = a / b;
            if q > u64::MAX as u128 {
                u64::MAX
            } else {
                q as u64
            }
        }
    }

    /// The number times `scale`, rounded to the nearest integer, and to the even one of two that
    /// are equally near.
    pub fn round_scaled(self, scale: u32) -> (r: u128)
        requires
            self.e < 0,
        ensures
            r == rounded(self@, scale as nat),
    {
        proof {
            assert(self.m * scale < 0x1_0000_0000_0000_0000 * 0x1_0000_0000) by (nonlinear_arith)
                requires
                    self.m < 0x1_0000_0000_0000_0000,
                    scale < 0x1_0000_0000,
            ;
        }
        let n = self.m as u128 * scale as u128;
        if self.e < -126 {
            proof {
                lemma_small(n as nat, self.e as int);
            }
            0
        } else {
            let d = power((-self.e) as u32);
            proof {
                lemma_exp2_mono((-self.e) as nat, 126);
                lemma_exp2_pos((-self.e) as nat);
                lemma_exp2_values();
                assert(exp2(128) == 2 * exp2(127));
                assert(exp2(127) == 2 * exp2(126));
            }
            round_half_even(n, d)
        }
    }
}

// ---------------------------------------------------------------------------
// Exact results and bounds

/// A small integer has the exponent that brings it to full length.
proof fn lemma_exponent_of_int(n: nat, p: Precision, k: nat) -> (r: nat)
    requires
        0 < n,
        n * exp2(k) < 2 * p.least(),
    ensures
        is_exponent(n, 1, p, -(r as int)),
    decreases 2 * p.least() - n * exp2(k),
{
    let x = p.least();
    assert(exp2(k + 1) == 2 * exp2(k));
    assert(n * exp2(k + 1) == 2 * (n * exp2(k))) by (nonlinear_arith)
        requires
            exp2(k + 1) == 2 * exp2(k),
    ;
    lemma_exp2_pos(k);
    assert(n * exp2(k) > 0) by (nonlinear_arith)
        requires
            n > 0,
            exp2(k) > 0,
    ;
    if n * exp2(k) >= x {
        if k == 0 {
            assert(n * exp2(0) == n) by (nonlinear_arith)
                requires
                    exp2(0) == 1,
            ;
            assert(at_scale(n, 1, 0) == (n, 1nat));
        } else {
            assert(at_scale(n, 1, -(k as int)) == (n * exp2(k), 1nat));
        }
        lemma_whole_bounds(at_scale(n, 1, -(k as int)).1, x);
        k
    } else {
        lemma_exponent_of_int(n, p, k + 1)
    }
}

/// An integer with no more bits than the precision is a number of the precision.
pub proof fn lemma_int_is_exact(n: nat, p: Precision)
    requires
        0 < n < 2 * p.least(),
    ensures
        ({
            let f = nearest(n, 1, p);
            f.e <= 0 && f.m == n * exp2((-f.e) as nat) && p.least() <= f.m < 2 * p.least()
        }),
{
    assert(n * exp2(0) == n) by (nonlinear_arith)
        requires
            exp2(0) == 1,
    ;
    let k = lemma_exponent_of_int(n, p, 0);
    let e = choose|e: int| is_exponent(n, 1, p, e);
    lemma_exponent_unique(n, 1, p, e, -(k as int));
    let a = n * exp2(k);
    assert(at_scale(n, 1, e) == (a, 1nat)) by {
        if k == 0 {
            assert(1 * exp2(0) == 1);
        }
    }
    lemma_whole_bounds(at_scale(n, 1, e).1, p.least());
    assert(a / 1 == a && a % 1 == 0);
}

/// To divide by 1 changes nothing.
pub proof fn lemma_divide_by_one(f: Dyadic)
    requires
        Precision::Double.least() <= f.m < 2 * Precision::Double.least(),
    ensures
        quotient(f, nearest(1, 1, Precision::Double), Precision::Double) == f,
{
    let p = Precision::Double;
    let x = p.least();
    lemma_exp2_pos(52);
    lemma_exp2_values();
    lemma_int_is_exact(1, p);
    let one = nearest(1, 1, p);
    // The exponent of 1 is -52.
    if (-one.e) as nat != 52 {
        if (-one.e) as nat <= 51 {
            lemma_exp2_mono((-one.e) as nat, 51);
            assert(exp2(52) == 2 * exp2(51));
        } else {
            lemma_exp2_mono(53, (-one.e) as nat);
        }
        assert(false);
    }
    assert(one.m == x);
    // f.m divided by x has the same exponent.
    let a = f.m * exp2(52);
    assert(at_scale(f.m, x, -52) == (a, x));
    assert(x * x <= f.m * x && f.m * x < x * (2 * x)) by (nonlinear_arith)
        requires
            x <= f.m < 2 * x,
            x > 0,
    ;
    assert(is_exponent(f.m, x, p, -52));
    let e = choose|e: int| is_exponent(f.m, x, p, e);
    lemma_exponent_unique(f.m, x, p, e, -52);
    assert(a / x == f.m && a % x == 0) by (nonlinear_arith)
        requires
            a == f.m * x,
            x > 0,
    ;
}

/// Every positive number has an exponent.
pub proof fn lemma_has_exponent(n: nat, d: nat, p: Precision)
    requires
        n > 0,
        d > 0,
    ensures
        exists|e: int| is_exponent(n, d, p, e),
{
    lemma_exceeds_self(n);
    lemma_exp2_pos((p.bits() - 1) as nat);
    let b = d * exp2(n);
    assert(n < b * (2 * p.least())) by (nonlinear_arith)
        requires
            n < exp2(n),
            b == d * exp2(n),
            d >= 1,
            p.least() >= 1,
    ;
    lemma_find_exponent(n, d, p, n as int);
}

proof fn lemma_exceeds_self(n: nat)
    ensures
        n < exp2(n),
    decreases n,
{
    if n > 0 {
        lemma_exceeds_self((n - 1) as nat);
    }
}

/// Where the exponent `e` leaves too few bits, a smaller one fits.
proof fn lemma_find_exponent(n: nat, d: nat, p: Precision, e: int)
    requires
        n > 0,
        d > 0,
        ({
            let (a, b) = at_scale(n, d, e);
            a < b * (2 * p.least())
        }),
    ensures
        exists|f: int| is_exponent(n, d, p, f),
    decreases e + p.bits() + d,
{
    let x = p.least();
    lemma_exp2_pos((p.bits() - 1) as nat);
    let (a, b) = at_scale(n, d, e);
    if b * x <= a {
        assert(is_exponent(n, d, p, e));
    } else {
        // One less doubles the ratio.
        lemma_scale_down(n, d, e);
        let (a1, b1) = at_scale(n, d, e - 1);
        assert(a1 < b1 * (2 * x)) by (nonlinear_arith)
            requires
                a < b * x,
                (a1 == 2 * a && b1 == b) || (a1 == a && b == 2 * b1),
        ;
        assert(e + p.bits() + d > 0) by {
            if e + p.bits() + d <= 0 {
                // Then n times a large power is at least d times x.
                let t = exp2((-e) as nat);
                lemma_exp2_mono(p.bits() + d, (-e) as nat);
                lemma_exp2_add(p.bits(), d);
                lemma_exceeds_self(d);
                assert(exp2(p.bits()) == 2 * x);
                assert(n * t >= d * x) by (nonlinear_arith)
                    requires
                        n >= 1,
                        t >= (2 * x) * exp2(d),
                        exp2(d) > d,
                        x >= 1,
                ;
            }
        }
        lemma_find_exponent(n, d, p, e - 1);
    }
}

proof fn lemma_scale_down(n: nat, d: nat, e: int)
    ensures
        ({
            let (a, b) = at_scale(n, d, e);
            let (a1, b1) = at_scale(n, d, e - 1);
            (a1 == 2 * a && b1 == b) || (a1 == a && b == 2 * b1)
        }),
{
    if e > 0 {
        let t = exp2((e - 1) as nat);
        assert(exp2(e as nat) == 2 * t);
        assert(d * (2 * t) == 2 * (d * t)) by (nonlinear_arith);
    } else {
        let t = exp2((-e) as nat);
        assert(exp2((-e + 1) as nat) == 2 * t);
        assert(n * (2 * t) == 2 * (n * t)) by (nonlinear_arith);
        assert(e == 0 ==> n * t == n && d * t == d) by (nonlinear_arith)
            requires
                e == 0 ==> t == 1,
        ;
    }
}

// ---------------------------------------------------------------------------
// Ratios

/// Rounding depends on the ratio only.
pub proof fn lemma_half_even_common(a: nat, b: nat, c: nat)
    requires
        b > 0,
        c > 0,
    ensures
        half_even(a * c, b * c) == half_even(a, b),
{
    let q = a / b;
    let r = a % b;
    vstd::arithmetic::div_mod::lemma_fundamental_div_mod(a as int, b as int);
    assert(a * c == q * (b * c) + r * c) by (nonlinear_arith)
        requires
            a == b * q + r,
    ;
    assert(0 <= r * c < b * c && b * c > 0) by (nonlinear_arith)
        requires
            0 <= r < b,
            c > 0,
    ;
    vstd::arithmetic::div_mod::lemma_fundamental_div_mod_converse(
        (a * c) as int,
        (b * c) as int,
        q as int,
        (r * c) as int,
    );
    assert((2 * (r * c) < b * c <==> 2 * r < b) && (2 * (r * c) == b * c <==> 2 * r == b))
        by (nonlinear_arith)
        requires
            c > 0,
    ;
}

/// An exponent, and the rounded mantissa, depend on the ratio only.
proof fn lemma_same_ratio(n: nat, d: nat, m: nat, f: nat, p: Precision, e: int, g: int, c: nat)
    requires
        n > 0,
        d > 0,
        m > 0,
        f > 0,
        c > 0,
        is_exponent(n, d, p, e),
        ({
            let (a, b) = at_scale(n, d, e);
            at_scale(m, f, g) == (a * c, b * c)
        }),
    ensures
        nearest(m, f, p) == shifted(nearest(n, d, p), g - e),
{
    let (a, b) = at_scale(n, d, e);
    let x = p.least();
    assert(b > 0) by {
        if e >= 0 {
            lemma_exp2_pos(e as nat);
            assert(d * exp2(e as nat) > 0) by (nonlinear_arith)
                requires
                    d > 0,
                    exp2(e as nat) > 0,
            ;
        }
    }
    assert((b * c) * x <= a * c && a * c < (b * c) * (2 * x)) by (nonlinear_arith)
        requires
            b * x <= a < b * (2 * x),
            c > 0,
    ;
    assert(is_exponent(m, f, p, g));
    let e1 = choose|e1: int| is_exponent(n, d, p, e1);
    lemma_exponent_unique(n, d, p, e, e1);
    let g1 = choose|g1: int| is_exponent(m, f, p, g1);
    lemma_exponent_unique(m, f, p, g, g1);
    lemma_half_even_common(a, b, c);
}

/// Rounding to a precision depends on the ratio only.
pub proof fn lemma_nearest_common(n: nat, d: nat, c: nat, p: Precision)
    requires
        n > 0,
        d > 0,
        c > 0,
    ensures
        nearest(n * c, d * c, p) == nearest(n, d, p),
{
    lemma_has_exponent(n, d, p);
    let e = choose|e: int| is_exponent(n, d, p, e);
    let t = exp2(
        if e >= 0 {
            e as nat
        } else {
            (-e) as nat
        },
    );
    assert((d * c) * t == (d * t) * c && (n * c) * t == (n * t) * c) by (nonlinear_arith);
    assert(n * c > 0 && d * c > 0) by (nonlinear_arith)
        requires
            n > 0,
            d > 0,
            c > 0,
    ;
    lemma_same_ratio(n, d, n * c, d * c, p, e, e, c);
}

/// A power of two moves the exponent and leaves the mantissa.
pub proof fn lemma_nearest_scaled(n: nat, d: nat, k: nat, p: Precision)
    requires
        n > 0,
        d > 0,
    ensures
        nearest(n * exp2(k), d, p) == shifted(nearest(n, d, p), k as int),
{
    lemma_has_exponent(n, d, p);
    let e = choose|e: int| is_exponent(n, d, p, e);
    let g = e + k;
    let m = n * exp2(k);
    lemma_exp2_pos(k);
    assert(m > 0) by (nonlinear_arith)
        requires
            n > 0,
            m == n * exp2(k),
            exp2(k) > 0,
    ;
    let (a, b) = at_scale(n, d, e);
    if e >= 0 {
        lemma_exp2_add(e as nat, k);
        assert(d * (exp2(e as nat) * exp2(k)) == (d * exp2(e as nat)) * exp2(k))
            by (nonlinear_arith);
        lemma_same_ratio(n, d, m, d, p, e, g, exp2(k));
    } else if g <= 0 {
        let h = exp2((-g) as nat);
        lemma_exp2_add(k, (-g) as nat);
        assert((n * exp2(k)) * h == n * (exp2(k) * h)) by (nonlinear_arith);
        assert(a * 1 == a && b * 1 == b);
        assert(g == 0 ==> h == 1);
        assert(g == 0 ==> m * h == m && d * h == d) by (nonlinear_arith)
            requires
                g == 0 ==> h == 1,
        ;
        lemma_same_ratio(n, d, m, d, p, e, g, 1);
    } else {
        let h = exp2(g as nat);
        lemma_exp2_pos(g as nat);
        lemma_exp2_add((-e) as nat, g as nat);
        assert(n * (exp2((-e) as nat) * h) == (n * exp2((-e) as nat)) * h) by (nonlinear_arith);
        lemma_same_ratio(n, d, m, d, p, e, g, h);
    }
}

/// Rounding a ratio that is at most an integer gives at most that integer.
proof fn lemma_round_at_most(a: nat, b: nat, k: nat)
    requires
        b > 0,
        a <= k * b,
    ensures
        half_even(a, b) <= k,
{
    let q = a / b;
    let r = a % b;
    assert(q <= k && (q == k ==> r == 0)) by (nonlinear_arith)
        requires
            b > 0,
            a <= k * b,
            q == a / b,
            r == a % b,
    ;
}

/// Rounding to a precision does not lift a number above an integer of the precision.
pub proof fn lemma_rounding_keeps_bound(f: Dyadic, c: nat, p: Precision)
    requires
        !exceeds(f, c),
        c < 2 * p.least(),
    ensures
        !exceeds(multiple(f, 1, p), c),
{
    let m = f.m;
    let e = f.e;
    let x = p.least();
    lemma_exp2_pos((p.bits() - 1) as nat);
    assert(m * 1 == m);
    if m == 0 {
        lemma_zero_exceeds_nothing(multiple(f, 1, p).e, c);
    } else {
        lemma_has_exponent(m, 1, p);
        let g = choose|g: int| is_exponent(m, 1, p, g);
        let (a, b) = at_scale(m, 1, g);
        lemma_scale_denominator(g);
        // The result has the exponent g + e, which is not positive.
        assert(g + e <= 0) by {
            if g + e > 0 {
                lemma_value_below(m, e, g, c, x);
            }
        }
        let t = exp2((-(g + e)) as nat);
        lemma_bound_at_scale(m, e, g, c);
        lemma_round_at_most(a, b, c * t);
        lemma_rounded_bits(a, b, x);
        let q = half_even(a, b);
        let r = multiple(f, 1, p);
        if q == 2 * x {
            // Carried: half the mantissa, one more exponent.
            assert(r == Dyadic { m: x, e: g + e + 1 });
            if g + e == 0 {
                assert(exp2(0) == 1);
                assert(c * t == c) by (nonlinear_arith)
                    requires
                        t == 1,
                ;
                assert(false);
            } else {
                let h = exp2((-(g + e + 1)) as nat);
                assert(t == 2 * h);
                assert(x <= c * h) by (nonlinear_arith)
                    requires
                        2 * x <= c * t,
                        t == 2 * h,
                ;
                lemma_within(x, g + e + 1, c);
            }
        } else {
            assert(r == Dyadic { m: q, e: g + e });
            lemma_within(q, g + e, c);
        }
    }
}

/// A number with an exponent that is not positive exceeds `c` only where its mantissa does.
proof fn lemma_within(m: nat, e: int, c: nat)
    requires
        e <= 0,
        m <= c * exp2((-e) as nat),
    ensures
        !exceeds(Dyadic { m, e }, c),
{
    assert(at_scale(m, 1, -e) == (m, exp2((-e) as nat)));
}

proof fn lemma_zero_exceeds_nothing(e: int, c: nat)
    ensures
        !exceeds(Dyadic { m: 0, e }, c),
{
    if e > 0 {
        lemma_zero(e);
    }
    let (a, b) = at_scale(0, 1, -e);
    assert(a == 0);
    assert(c * b >= 0) by (nonlinear_arith);
}

proof fn lemma_scale_denominator(g: int)
    ensures
        at_scale(1, 1, g).1 == if g >= 0 {
            exp2(g as nat)
        } else {
            1
        },
        at_scale(1, 1, g).1 > 0,
{
    if g >= 0 {
        lemma_exp2_pos(g as nat);
    }
}

/// A number with a positive exponent is at least 2 to the power of its bits.
proof fn lemma_value_below(m: nat, e: int, g: int, c: nat, x: nat)
    requires
        g + e > 0,
        x > 0,
        ({
            let (a, b) = at_scale(m, 1, g);
            b * x <= a
        }),
        !exceeds(Dyadic { m, e }, c),
    ensures
        c >= 2 * x,
{
    let (a, b) = at_scale(m, 1, g);
    let s = exp2((g + e) as nat);
    assert(s >= 2) by {
        lemma_exp2_mono(1, (g + e) as nat);
        assert(exp2(1) == 2 * exp2(0));
    }
    if e <= 0 {
        // g > 0: m >= x * 2^g, and m <= c * 2^-e.
        let u = exp2((-e) as nat);
        lemma_exp2_pos((-e) as nat);
        lemma_exp2_add((-e) as nat, (g + e) as nat);
        assert(exp2(g as nat) == u * s);
        assert(m <= c * u);
        assert(c >= 2 * x) by (nonlinear_arith)
            requires
                (u * s) * x <= m,
                m <= c * u,
                s >= 2,
                u > 0,
                x > 0,
        ;
    } else {
        let u = exp2(e as nat);
        lemma_exp2_pos(e as nat);
        assert(at_scale(m, 1, -e) == (m * u, 1nat));
        lemma_ratio_whole(c, (m * u, 1));
        assert(m * u <= c);
        if g >= 0 {
            // m >= x * 2^g.
            let v = exp2(g as nat);
            lemma_exp2_pos(g as nat);
            lemma_exp2_add(g as nat, e as nat);
            assert(s == v * u);
            assert(c >= 2 * x) by (nonlinear_arith)
                requires
                    v * x <= m,
                    m * u <= c,
                    v * u >= 2,
                    u > 0,
                    v > 0,
                    x > 0,
            ;
        } else {
            // m * 2^-g >= x, and 2^e = 2^(g + e) * 2^-g.
            let v = exp2((-g) as nat);
            lemma_exp2_pos((-g) as nat);
            lemma_exp2_add((g + e) as nat, (-g) as nat);
            assert(u == s * v);
            assert(a == m * v);
            assert(1 * x == x);
            assert(c >= 2 * x) by (nonlinear_arith)
                requires
                    m * v >= x,
                    m * (s * v) <= c,
                    s >= 2,
                    x > 0,
            ;
        }
    }
}

/// A bound on a number, at the scale of its exponent.
proof fn lemma_bound_at_scale(m: nat, e: int, g: int, c: nat)
    requires
        g + e <= 0,
        !exceeds(Dyadic { m, e }, c),
    ensures
        ({
            let (a, b) = at_scale(m, 1, g);
            a <= (c * exp2((-(g + e)) as nat)) * b
        }),
{
    let t = exp2((-(g + e)) as nat);
    let (a, b) = at_scale(m, 1, g);
    if g >= 0 {
        let v = exp2(g as nat);
        lemma_exp2_add((-(g + e)) as nat, g as nat);
        assert(exp2((-e) as nat) == t * v);
        assert(m <= c * exp2((-e) as nat));
        assert((c * t) * v == c * (t * v)) by (nonlinear_arith);
        assert(b == 1 * v);
    } else {
        let v = exp2((-g) as nat);
        assert(a == m * v && b == 1);
        assert((c * t) * 1 == c * t);
        if e <= 0 {
            let u = exp2((-e) as nat);
            lemma_exp2_add((-g) as nat, (-e) as nat);
            assert(t == v * u);
            assert(m <= c * u);
            assert(m * v <= c * (v * u)) by (nonlinear_arith)
                requires
                    m <= c * u,
                    v >= 0,
            ;
        } else {
            let u = exp2(e as nat);
            lemma_exp2_add((-(g + e)) as nat, e as nat);
            assert(v == t * u);
            assert(at_scale(m, 1, -e) == (m * u, 1nat));
            lemma_ratio_whole(c, (m * u, 1));
            assert(m * (t * u) <= c * t) by (nonlinear_arith)
                requires
                    m * u <= c,
                    t >= 0,
            ;
        }
    }
}

// ---------------------------------------------------------------------------
// Order

/// The number `f` in units of 2 to the power of `s`, which is not above its exponent.
pub open spec fn units_of(f: Dyadic, s: int) -> nat {
    f.m * exp2((f.e - s) as nat)
}

/// A larger numerator is not rounded to a smaller integer.
proof fn lemma_half_even_order(a1: nat, a2: nat, b: nat)
    requires
        b > 0,
        a1 <= a2,
    ensures
        half_even(a1, b) <= half_even(a2, b),
{
    let (q1, r1) = (a1 / b, a1 % b);
    let (q2, r2) = (a2 / b, a2 % b);
    assert(q1 < q2 || (q1 == q2 && r1 <= r2)) by (nonlinear_arith)
        requires
            b > 0,
            a1 <= a2,
            q1 == a1 / b,
            r1 == a1 % b,
            q2 == a2 / b,
            r2 == a2 % b,
    ;
}

/// At one scale a larger numerator stays larger, over the same denominator.
proof fn lemma_scale_order(n1: nat, n2: nat, d: nat, e: int)
    requires
        n1 <= n2,
    ensures
        at_scale(n1, d, e).0 <= at_scale(n2, d, e).0,
        at_scale(n1, d, e).1 == at_scale(n2, d, e).1,
{
    if e < 0 {
        let t = exp2((-e) as nat);
        assert(n1 * t <= n2 * t) by (nonlinear_arith)
            requires
                n1 <= n2,
        ;
    }
}

/// The value of a rounded number, whether its mantissa was carried over or not.
proof fn lemma_nearest_units(n: nat, d: nat, p: Precision, e: int, s: int)
    requires
        n > 0,
        d > 0,
        is_exponent(n, d, p, e),
        s <= e,
    ensures
        ({
            let (a, b) = at_scale(n, d, e);
            let q = half_even(a, b);
            &&& b > 0
            &&& p.least() <= q <= 2 * p.least()
            &&& units_of(nearest(n, d, p), s) == q * exp2((e - s) as nat)
            &&& e <= nearest(n, d, p).e <= e + 1
        }),
{
    let (a, b) = at_scale(n, d, e);
    let x = p.least();
    lemma_exp2_pos((p.bits() - 1) as nat);
    assert(b > 0) by {
        if e >= 0 {
            let t = exp2(e as nat);
            lemma_exp2_pos(e as nat);
            assert(d * t > 0) by (nonlinear_arith)
                requires
                    d > 0,
                    t > 0,
            ;
        }
    }
    lemma_rounded_bits(a, b, x);
    let e1 = choose|e1: int| is_exponent(n, d, p, e1);
    lemma_exponent_unique(n, d, p, e, e1);
    let t = exp2((e - s) as nat);
    assert(exp2((e + 1 - s) as nat) == 2 * t);
    assert(x * (2 * t) == (2 * x) * t) by (nonlinear_arith);
}

/// Over the same denominator, a larger numerator is not rounded to a smaller number.
pub proof fn lemma_nearest_order(n1: nat, n2: nat, d: nat, p: Precision, s: int)
    requires
        0 < n1 <= n2,
        d > 0,
        s < nearest(n1, d, p).e,
        s < nearest(n2, d, p).e,
    ensures
        units_of(nearest(n1, d, p), s) <= units_of(nearest(n2, d, p), s),
{
    lemma_has_exponent(n1, d, p);
    lemma_has_exponent(n2, d, p);
    let e1 = choose|e: int| is_exponent(n1, d, p, e);
    let e2 = choose|e: int| is_exponent(n2, d, p, e);
    lemma_nearest_units(n1, d, p, e1, e1);
    lemma_nearest_units(n2, d, p, e2, e2);
    lemma_nearest_units(n1, d, p, e1, s);
    lemma_nearest_units(n2, d, p, e2, s);
    let x = p.least();
    let q1 = half_even(at_scale(n1, d, e1).0, at_scale(n1, d, e1).1);
    let q2 = half_even(at_scale(n2, d, e2).0, at_scale(n2, d, e2).1);
    let t1 = exp2((e1 - s) as nat);
    let t2 = exp2((e2 - s) as nat);
    if e1 == e2 {
        lemma_scale_order(n1, n2, d, e1);
        lemma_half_even_order(at_scale(n1, d, e1).0, at_scale(n2, d, e1).0, at_scale(n1, d, e1).1);
        assert(q1 * t1 <= q2 * t2) by (nonlinear_arith)
            requires
                q1 <= q2,
                t1 == t2,
        ;
    } else if e1 < e2 {
        lemma_exp2_mono((e1 + 1 - s) as nat, (e2 - s) as nat);
        assert(exp2((e1 + 1 - s) as nat) == 2 * t1);
        assert(q1 * t1 <= q2 * t2) by (nonlinear_arith)
            requires
                q1 <= 2 * x,
                x <= q2,
                2 * t1 <= t2,
        ;
    } else {
        // A larger exponent would make the smaller numerator the larger one.
        lemma_scale_steps(n1, d, e2, e1, x);
        lemma_scale_order(n1, n2, d, e2);
    }
}

/// The part before the binary point, computed in smaller units.
proof fn lemma_floor_units(f: Dyadic, s: int)
    requires
        s <= f.e,
        s <= 0,
    ensures
        floor(f) == units_of(f, s) / exp2((-s) as nat),
{
    let (a, b) = at_scale(f.m, 1, -f.e);
    let t = exp2((f.e - s) as nat);
    let u = exp2((-s) as nat);
    lemma_exp2_pos((f.e - s) as nat);
    lemma_exp2_pos((-s) as nat);
    if f.e <= 0 {
        let v = exp2((-f.e) as nat);
        lemma_exp2_pos((-f.e) as nat);
        lemma_exp2_add((-f.e) as nat, (f.e - s) as nat);
        assert(u == v * t);
        assert(b == v);
        lemma_quotient_common(f.m, v, t);
    } else {
        let v = exp2(f.e as nat);
        lemma_exp2_add(f.e as nat, (-s) as nat);
        assert(t == v * u);
        assert(f.m * (v * u) == (f.m * v) * u) by (nonlinear_arith);
        lemma_quotient_common(f.m * v, 1, u);
        assert(1 * u == u);
    }
}

proof fn lemma_quotient_common(a: nat, b: nat, c: nat)
    requires
        b > 0,
        c > 0,
    ensures
        (a * c) / (b * c) == a / b,
{
    let q = a / b;
    let r = a % b;
    vstd::arithmetic::div_mod::lemma_fundamental_div_mod(a as int, b as int);
    assert(a * c == q * (b * c) + r * c && 0 <= r * c < b * c) by (nonlinear_arith)
        requires
            a == b * q + r,
            0 <= r < b,
            c > 0,
    ;
    vstd::arithmetic::div_mod::lemma_fundamental_div_mod_converse(
        (a * c) as int,
        (b * c) as int,
        q as int,
        (r * c) as int,
    );
}

/// A larger number does not have a smaller part before the binary point.
proof fn lemma_floor_order(f: Dyadic, g: Dyadic, s: int)
    requires
        s <= f.e,
        s <= g.e,
        s <= 0,
        units_of(f, s) <= units_of(g, s),
    ensures
        floor(f) <= floor(g),
{
    lemma_floor_units(f, s);
    lemma_floor_units(g, s);
    let u = exp2((-s) as nat);
    lemma_exp2_pos((-s) as nat);
    let (a, b) = (units_of(f, s), units_of(g, s));
    assert(a / u <= b / u) by (nonlinear_arith)
        requires
            a <= b,
            u > 0,
    ;
}

/// A larger integer, divided by the same number, does not give a smaller part before the binary
/// point.
pub proof fn lemma_quotient_order(n1: nat, n2: nat, t: Dyadic, p: Precision)
    requires
        0 < n1 <= n2,
        t.m > 0,
    ensures
        floor(quotient(nearest(n1, 1, p), t, p)) <= floor(quotient(nearest(n2, 1, p), t, p)),
{
    let f1 = nearest(n1, 1, p);
    let f2 = nearest(n2, 1, p);
    // Both as integers, in units small enough.
    let s = if f1.e <= f2.e {
        f1.e - 1
    } else {
        f2.e - 1
    };
    lemma_nearest_order(n1, n2, 1, p, s);
    lemma_nearest_positive(n1, 1, p);
    lemma_nearest_positive(n2, 1, p);
    let m1 = units_of(f1, s);
    let m2 = units_of(f2, s);
    lemma_nearest_scaled(f1.m, t.m, (f1.e - s) as nat, p);
    lemma_nearest_scaled(f2.m, t.m, (f2.e - s) as nat, p);
    lemma_exp2_pos((f1.e - s) as nat);
    assert(m1 > 0) by (nonlinear_arith)
        requires
            m1 == f1.m * exp2((f1.e - s) as nat),
            f1.m > 0,
            exp2((f1.e - s) as nat) > 0,
    ;
    let g1 = nearest(m1, t.m, p);
    let g2 = nearest(m2, t.m, p);
    let k = s - t.e;
    let h1 = quotient(f1, t, p);
    let h2 = quotient(f2, t, p);
    assert(h1 == shifted(g1, k));
    assert(h2 == shifted(g2, k));
    let low = if g1.e <= g2.e {
        g1.e - 1
    } else {
        g2.e - 1
    };
    let r = if low <= -k {
        low
    } else {
        -k
    };
    lemma_nearest_order(m1, m2, t.m, p, r);
    lemma_floor_order(h1, h2, r + k);
}

/// A positive number is not rounded to zero.
pub proof fn lemma_nearest_positive(n: nat, d: nat, p: Precision)
    requires
        n > 0,
        d > 0,
    ensures
        nearest(n, d, p).m > 0,
{
    lemma_has_exponent(n, d, p);
    let e = choose|e: int| is_exponent(n, d, p, e);
    lemma_nearest_units(n, d, p, e, e);
    lemma_exp2_pos((p.bits() - 1) as nat);
}

// ---------------------------------------------------------------------------
// Accuracy

/// Whether `x` differs from `y` by at most the part `1 / k` of `y`.
pub open spec fn is_near(x: nat, y: nat, k: nat) -> bool {
    (k - 1) * y <= k * x <= (k + 1) * y
}

pub proof fn lemma_near_scale(x: nat, y: nat, k: nat, c: nat)
    requires
        is_near(x, y, k),
    ensures
        is_near(x * c, y * c, k),
{
    assert((k - 1) * (y * c) <= k * (x * c)) by (nonlinear_arith)
        requires
            (k - 1) * y <= k * x,
            c >= 0,
    ;
    assert(k * (x * c) <= (k + 1) * (y * c)) by (nonlinear_arith)
        requires
            k * x <= (k + 1) * y,
            c >= 0,
    ;
}

pub proof fn lemma_near_cancel(x: nat, y: nat, k: nat, c: nat)
    requires
        is_near(x * c, y * c, k),
        c > 0,
    ensures
        is_near(x, y, k),
{
    assert((k - 1) * y <= k * x) by (nonlinear_arith)
        requires
            (k - 1) * (y * c) <= k * (x * c),
            c > 0,
    ;
    assert(k * x <= (k + 1) * y) by (nonlinear_arith)
        requires
            k * (x * c) <= (k + 1) * (y * c),
            c > 0,
    ;
}

/// Two small differences one after the other make a small difference.
pub proof fn lemma_near_chain(x: nat, y: nat, z: nat, k1: nat, k2: nat, k: nat)
    requires
        is_near(x, y, k1),
        is_near(y, z, k2),
        k1 > 0 && k2 > 0,
        k * (k1 + k2 + 1) <= k1 * k2,
    ensures
        is_near(x, z, k),
{
    let w = k1 * k2;
    assert(w > 0) by (nonlinear_arith)
        requires
            w == k1 * k2,
            k1 > 0,
            k2 > 0,
    ;
    // From above.
    assert(w * x <= (w + k1 + k2 + 1) * z) by (nonlinear_arith)
        requires
            w == k1 * k2,
            k1 * x <= (k1 + 1) * y,
            k2 * y <= (k2 + 1) * z,
            k1 > 0,
            k2 > 0,
    ;
    assert(w * (k * x) <= w * ((k + 1) * z)) by (nonlinear_arith)
        requires
            w * x <= (w + k1 + k2 + 1) * z,
            k * (k1 + k2 + 1) <= w,
            k >= 0,
            z >= 0,
    ;
    assert(k * x <= (k + 1) * z) by (nonlinear_arith)
        requires
            w * (k * x) <= w * ((k + 1) * z),
            w > 0,
    ;
    // From below.
    assert((w - k1 - k2 + 1) * z <= w * x) by (nonlinear_arith)
        requires
            w == k1 * k2,
            (k1 - 1) * y <= k1 * x,
            (k2 - 1) * z <= k2 * y,
            k1 > 0,
            k2 > 0,
    ;
    assert(w * ((k - 1) * z) <= w * (k * x)) by (nonlinear_arith)
        requires
            (w - k1 - k2 + 1) * z <= w * x,
            k * (k1 + k2 + 1) <= w,
            k >= 0,
            z >= 0,
    ;
    assert((k - 1) * z <= k * x) by (nonlinear_arith)
        requires
            w * ((k - 1) * z) <= w * (k * x),
            w > 0,
    ;
}

/// A small difference is small the other way round.
pub proof fn lemma_near_back(x: nat, y: nat, k: nat)
    requires
        is_near(x, y, k),
        k > 2,
    ensures
        is_near(y, x, (k - 1) as nat),
{
    assert((k - 2) * x <= (k - 1) * y) by (nonlinear_arith)
        requires
            k * x <= (k + 1) * y,
            k > 2,
            x >= 0,
            y >= 0,
    ;
    assert((k - 1) * y <= k * x);
}

/// What is near by more is near by less.
pub proof fn lemma_near_weaken(x: nat, y: nat, k1: nat, k: nat)
    requires
        is_near(x, y, k1),
        0 < k <= k1,
    ensures
        is_near(x, y, k),
{
    assert(k * x <= (k + 1) * y) by (nonlinear_arith)
        requires
            k1 * x <= (k1 + 1) * y,
            0 < k <= k1,
            x >= 0,
            y >= 0,
    ;
    assert((k - 1) * y <= k * x) by (nonlinear_arith)
        requires
            (k1 - 1) * y <= k1 * x,
            0 < k <= k1,
            x >= 0,
            y >= 0,
    ;
}

/// Rounding to an integer changes a number by a half at most.
pub proof fn lemma_half_even_near(a: nat, b: nat)
    requires
        b > 0,
    ensures
        2 * (half_even(a, b) * b) <= 2 * a + b,
        2 * a <= 2 * (half_even(a, b) * b) + b,
{
    let q = a / b;
    let r = a % b;
    vstd::arithmetic::div_mod::lemma_fundamental_div_mod(a as int, b as int);
    assert(q * b == b * q && (q + 1) * b == b * q + b) by (nonlinear_arith);
}

/// A rounded ratio differs from the ratio by at most half a unit in its last place.
pub proof fn lemma_nearest_near(n: nat, d: nat, p: Precision, s: int)
    requires
        n > 0,
        d > 0,
        s <= 0,
        s < nearest(n, d, p).e,
    ensures
        is_near(units_of(nearest(n, d, p), s) * d, n * exp2((-s) as nat), 2 * p.least()),
{
    lemma_has_exponent(n, d, p);
    let e = choose|e: int| is_exponent(n, d, p, e);
    lemma_nearest_units(n, d, p, e, e);
    lemma_nearest_units(n, d, p, e, s);
    let (a, b) = at_scale(n, d, e);
    let q = half_even(a, b);
    let x = p.least();
    let k = 2 * x;
    lemma_half_even_near(a, b);
    let qb = q * b;
    assert(x * (2 * qb) <= x * (2 * a + b) && x * (2 * a) <= x * (2 * qb + b)) by (nonlinear_arith)
        requires
            2 * qb <= 2 * a + b,
            2 * a <= 2 * qb + b,
            x >= 0,
    ;
    assert(x * (2 * qb) == k * qb && x * (2 * a + b) == k * a + b * x && x * (2 * a) == k * a && x * (2
        * qb + b) == k * qb + b * x) by (nonlinear_arith)
        requires
            k == 2 * x,
    ;
    assert((k - 1) * a == k * a - a && (k + 1) * a == k * a + a) by (nonlinear_arith);
    assert(is_near(qb, a, k));
    let t = exp2((e - s) as nat);
    let z = exp2((-s) as nat);
    let u = units_of(nearest(n, d, p), s);
    assert(u == q * t);
    if e >= 0 {
        let v = exp2(e as nat);
        lemma_exp2_add(e as nat, (-s) as nat);
        assert(t == v * z);
        lemma_near_scale(qb, a, k, z);
        assert((q * (v * z)) * d == (q * (d * v)) * z) by (nonlinear_arith);
    } else {
        let v = exp2((-e) as nat);
        lemma_exp2_add((-e) as nat, (e - s) as nat);
        assert(z == v * t);
        lemma_near_scale(qb, a, k, t);
        assert((q * t) * d == (q * d) * t) by (nonlinear_arith);
        assert(n * (v * t) == (n * v) * t) by (nonlinear_arith);
    }
}

/// A rounded quotient, times the divisor, is near the dividend.
pub proof fn lemma_quotient_near(a: Dyadic, b: Dyadic, p: Precision, s: int)
    requires
        a.m > 0,
        b.m > 0,
        s <= 0,
        s <= a.e,
        s <= b.e,
        s < quotient(a, b, p).e,
    ensures
        is_near(
            units_of(quotient(a, b, p), s) * units_of(b, s),
            units_of(a, s) * exp2((-s) as nat),
            2 * p.least(),
        ),
{
    let f = nearest(a.m, b.m, p);
    let q = quotient(a, b, p);
    let k = 2 * p.least();
    let r = if f.e - 1 < 0 {
        f.e - 1
    } else {
        0
    };
    lemma_nearest_near(a.m, b.m, p, r);
    let c = exp2((a.e - 2 * s + r) as nat);
    let (u, v) = (exp2((f.e - r) as nat), exp2((-r) as nat));
    lemma_near_scale((f.m * u) * b.m, a.m * v, k, c);
    let (g, h) = (exp2((q.e - s) as nat), exp2((b.e - s) as nat));
    let (i, z) = (exp2((a.e - s) as nat), exp2((-s) as nat));
    lemma_exp2_add((f.e - r) as nat, (a.e - 2 * s + r) as nat);
    lemma_exp2_add((q.e - s) as nat, (b.e - s) as nat);
    assert(u * c == g * h);
    lemma_exp2_add((-r) as nat, (a.e - 2 * s + r) as nat);
    lemma_exp2_add((a.e - s) as nat, (-s) as nat);
    assert(v * c == i * z);
    assert(((f.m * u) * b.m) * c == (f.m * g) * (b.m * h)) by (nonlinear_arith)
        requires
            u * c == g * h,
    ;
    assert((a.m * v) * c == (a.m * i) * z) by (nonlinear_arith)
        requires
            v * c == i * z,
    ;
}

/// A rounded multiple is near the multiple.
pub proof fn lemma_multiple_near(a: Dyadic, n: nat, p: Precision, s: int)
    requires
        a.m > 0,
        n > 0,
        s <= a.e,
        s < multiple(a, n, p).e,
    ensures
        is_near(units_of(multiple(a, n, p), s), units_of(a, s) * n, 2 * p.least()),
{
    let an = a.m * n;
    assert(an > 0) by (nonlinear_arith)
        requires
            an == a.m * n,
            a.m > 0,
            n > 0,
    ;
    let f = nearest(an, 1, p);
    let q = multiple(a, n, p);
    let k = 2 * p.least();
    let r = if f.e - 1 < 0 {
        f.e - 1
    } else {
        0
    };
    lemma_nearest_near(an, 1, p, r);
    let c = exp2((a.e - s + r) as nat);
    let (u, v) = (exp2((f.e - r) as nat), exp2((-r) as nat));
    assert((f.m * u) * 1 == f.m * u);
    lemma_near_scale(f.m * u, an * v, k, c);
    let g = exp2((q.e - s) as nat);
    let i = exp2((a.e - s) as nat);
    lemma_exp2_add((f.e - r) as nat, (a.e - s + r) as nat);
    assert(u * c == g);
    lemma_exp2_add((-r) as nat, (a.e - s + r) as nat);
    assert(v * c == i);
    assert((f.m * u) * c == f.m * g) by (nonlinear_arith)
        requires
            u * c == g,
    ;
    assert((an * v) * c == (a.m * i) * n) by (nonlinear_arith)
        requires
            v * c == i,
            an == a.m * n,
    ;
}

/// The part before the binary point is the greatest integer that is not above the number.
pub proof fn lemma_floor_bounds(f: Dyadic, s: int)
    requires
        s <= f.e,
        s <= 0,
    ensures
        floor(f) * exp2((-s) as nat) <= units_of(f, s) < (floor(f) + 1) * exp2((-s) as nat),
{
    lemma_floor_units(f, s);
    let (u, z) = (units_of(f, s), exp2((-s) as nat));
    lemma_exp2_pos((-s) as nat);
    vstd::arithmetic::div_mod::lemma_fundamental_div_mod(u as int, z as int);
    let q = u / z;
    assert(q * z <= u < (q + 1) * z) by (nonlinear_arith)
        requires
            u == z * q + u % z,
            0 <= u % z < z,
    ;
}

/// A number as a ratio and in small units is the same.
pub proof fn lemma_ratio_in_units(f: Dyadic, s: int)
    requires
        s <= f.e,
        s <= 0,
    ensures
        at_scale(f.m, 1, -f.e).0 * exp2((-s) as nat) == units_of(f, s) * at_scale(f.m, 1, -f.e).1,
        at_scale(f.m, 1, -f.e).1 > 0,
{
    let (a, b) = at_scale(f.m, 1, -f.e);
    let t = exp2((f.e - s) as nat);
    let z = exp2((-s) as nat);
    if f.e <= 0 {
        let v = exp2((-f.e) as nat);
        lemma_exp2_pos((-f.e) as nat);
        lemma_exp2_add((-f.e) as nat, (f.e - s) as nat);
        assert(z == v * t && b == v && a == f.m);
        assert(f.m * (v * t) == (f.m * t) * v) by (nonlinear_arith);
    } else {
        let v = exp2(f.e as nat);
        lemma_exp2_add(f.e as nat, (-s) as nat);
        assert(t == v * z && b == 1 && a == f.m * v);
        assert((f.m * v) * z == (f.m * (v * z)) * 1) by (nonlinear_arith);
    }
}

/// A ratio below one has an exponent below zero.
pub proof fn lemma_fraction_exponent(n: nat, d: nat)
    requires
        0 < n < d,
        d <= exp2(30),
    ensures
        nearest(n, d, Precision::Double).e < 0,
{
    lemma_has_exponent(n, d, Precision::Double);
    let e = choose|e: int| is_exponent(n, d, Precision::Double, e);
    lemma_nearest_units(n, d, Precision::Double, e, e);
    lemma_exponent_bounds(n, d, Precision::Double, e, 30, 30);
}

/// Comparing a number with an integer, in small units.
pub proof fn lemma_compare_in_units(f: Dyadic, c: nat, s: int)
    requires
        s <= f.e,
        s <= 0,
    ensures
        exceeds(f, c) <==> c * exp2((-s) as nat) < units_of(f, s),
        at_least(f, c) <==> c * exp2((-s) as nat) <= units_of(f, s),
{
    lemma_ratio_in_units(f, s);
    lemma_exp2_pos((-s) as nat);
    let (a, b) = at_scale(f.m, 1, -f.e);
    let (u, z) = (units_of(f, s), exp2((-s) as nat));
    assert((c * b < a <==> c * z < u) && (c * b <= a <==> c * z <= u)) by (nonlinear_arith)
        requires
            a * z == u * b,
            b > 0,
            z > 0,
    ;
}

/// What is near in small units is near as a ratio.
pub proof fn lemma_near_as_ratio(f: Dyadic, s: int, c: nat, y: nat, k: nat)
    requires
        s <= f.e,
        s <= 0,
        is_near(units_of(f, s) * c, y * exp2((-s) as nat), k),
    ensures
        is_near(at_scale(f.m, 1, -f.e).0 * c, y * at_scale(f.m, 1, -f.e).1, k),
{
    lemma_ratio_in_units(f, s);
    lemma_exp2_pos((-s) as nat);
    let (a, b) = at_scale(f.m, 1, -f.e);
    let (u, z) = (units_of(f, s), exp2((-s) as nat));
    lemma_near_scale(u * c, y * z, k, b);
    assert((u * c) * b == (a * c) * z) by (nonlinear_arith)
        requires
            a * z == u * b,
    ;
    assert((y * z) * b == (y * b) * z) by (nonlinear_arith);
    lemma_near_cancel(a * c, y * b, k, z);
}

/// The rounded quotient of two rounded integers, times the divisor, is near the dividend.
pub proof fn lemma_integer_quotient_near(n: nat, d: nat, p: Precision, s: int)
    requires
        n > 0,
        d > 0,
        s <= 0,
        s < nearest(n, 1, p).e,
        s < nearest(d, 1, p).e,
        s < quotient(nearest(n, 1, p), nearest(d, 1, p), p).e,
    ensures
        quotient(nearest(n, 1, p), nearest(d, 1, p), p).m > 0,
        is_near(
            units_of(quotient(nearest(n, 1, p), nearest(d, 1, p), p), s) * d,
            n * exp2((-s) as nat),
            p.least() / 4,
        ),
{
    let (a, b) = (nearest(n, 1, p), nearest(d, 1, p));
    let q = quotient(a, b, p);
    let (au, bu, qu) = (units_of(a, s), units_of(b, s), units_of(q, s));
    let z = exp2((-s) as nat);
    let k = 2 * p.least();
    lemma_exp2_values();
    lemma_exp2_pos((-s) as nat);
    assert(k == 0x100_0000 || k == 0x20_0000_0000_0000) by {
        assert(exp2(24) == 2 * exp2(23));
        assert(exp2(53) == 2 * exp2(52));
    }
    lemma_nearest_positive(n, 1, p);
    lemma_nearest_positive(d, 1, p);
    lemma_nearest_positive(a.m, b.m, p);
    lemma_nearest_near(n, 1, p, s);
    lemma_nearest_near(d, 1, p, s);
    lemma_quotient_near(a, b, p, s);
    assert(au * 1 == au && bu * 1 == bu);
    let k1 = (k - 1) as nat;
    lemma_near_back(bu, d * z, k);
    lemma_near_scale(d * z, bu, k1, qu);
    lemma_near_scale(au, n * z, k, z);
    assert((d * z) * qu == (qu * d) * z && bu * qu == qu * bu) by (nonlinear_arith);
    let c1 = k / 4;
    let c2 = k / 8;
    assert(c1 * (k1 + k + 1) <= k1 * k && c2 * (c1 + k + 1) <= c1 * k) by (nonlinear_arith)
        requires
            k == 0x100_0000 || k == 0x20_0000_0000_0000,
            k1 == k - 1,
            c1 == k / 4,
            c2 == k / 8,
    ;
    lemma_near_chain((qu * d) * z, qu * bu, au * z, k1, k, c1);
    lemma_near_chain((qu * d) * z, au * z, (n * z) * z, c1, k, c2);
    lemma_near_cancel(qu * d, n * z, c2, z);
    assert(c2 == p.least() / 4);
}

// ---------------------------------------------------------------------------
// Laws

/// The powers of two start with 1, and each is twice the one before.
pub proof fn law_powers_of_two(n: nat)
    ensures
        exp2(0) == 1,
        exp2(n + 1) == 2 * exp2(n),
{
}

/// A number is its mantissa times two to the power of its exponent, as a ratio of integers.
pub proof fn law_number_as_a_ratio(m: nat, e: nat)
    ensures
        at_scale(m, 1, -e) == (m * exp2(e), 1nat),
        at_scale(m, 1, e as int) == (m, exp2(e)),
{
    assert(m * exp2(0) == m) by (nonlinear_arith)
        requires
            exp2(0) == 1,
    ;
    assert(1 * exp2(e) == exp2(e));
}

/// Rounding gives the nearest integer, and the even one of two that are equally near.
pub proof fn law_rounding_gives_the_nearest_integer(a: nat, b: nat)
    requires
        b > 0,
    ensures
        ({
            let q = half_even(a, b);
            &&& 2 * (q * b) <= 2 * a + b
            &&& 2 * a <= 2 * (q * b) + b
            &&& 2 * (q * b) == 2 * a + b || 2 * a == 2 * (q * b) + b ==> q % 2 == 0
        }),
{
    lemma_half_even_near(a, b);
    let q = a / b;
    let r = a % b;
    vstd::arithmetic::div_mod::lemma_fundamental_div_mod(a as int, b as int);
    assert(q * b == b * q && (q + 1) * b == b * q + b) by (nonlinear_arith);
}

/// A number of a precision has as many bits as the precision, and differs from the ratio that it
/// stands for by half a unit in the last of them at most.
pub proof fn law_nearest_keeps_the_precision(n: nat, d: nat, p: Precision, s: int)
    requires
        n > 0,
        d > 0,
        s <= 0,
        s < nearest(n, d, p).e,
    ensures
        p.least() <= nearest(n, d, p).m < 2 * p.least(),
        p == Precision::Single ==> p.least() == 0x80_0000,
        p == Precision::Double ==> p.least() == 0x10_0000_0000_0000,
        is_near(units_of(nearest(n, d, p), s) * d, n * exp2((-s) as nat), 2 * p.least()),
{
    lemma_exp2_values();
    lemma_exp2_pos((p.bits() - 1) as nat);
    lemma_has_exponent(n, d, p);
    let e = choose|e: int| is_exponent(n, d, p, e);
    lemma_nearest_units(n, d, p, e, e);
    lemma_nearest_near(n, d, p, s);
}

} // verus!
