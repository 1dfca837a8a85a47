//! Throughput and shares, computed from counters in floating point.

use vstd::prelude::*;
use crate::counters;
use crate::double::F64;
use crate::float;
use crate::float::{Float, Precision};

verus! {

// ---------------------------------------------------------------------------
// Time

/// A time in nanoseconds as a number of seconds in double precision: the whole seconds and the
/// fraction of a second, each rounded, and their rounded sum.
pub open spec fn in_seconds(ns: nat) -> float::Dyadic {
    let secs = ns / 1_000_000_000;
    let nanos = ns % 1_000_000_000;
    if nanos == 0 {
        float::nearest(secs, 1, Precision::Double)
    } else {
        let frac = float::nearest(nanos, 1_000_000_000, Precision::Double);
        float::shifted(
            float::nearest(secs * float::exp2((-frac.e) as nat) + frac.m, 1, Precision::Double),
            frac.e,
        )
    }
}

/// A time in nanoseconds as a number of seconds.
pub fn seconds(ns: u64) -> (r: F64)
    ensures
        r.is_finite() && !r.negative(),
        ns > 0 ==> r.magnitude() == in_seconds(ns as nat),
        ns > 0 ==> r.magnitude().m > 0,
        ns == 0 ==> r.magnitude().m == 0,
{
    if ns == 0 {
        return F64 { bits: 0 };
    }
    proof {
        float::lemma_exp2_values();
    }
    let secs: u64 = ns / 1_000_000_000;
    let nanos: u64 = ns % 1_000_000_000;
    if nanos == 0 {
        return F64::from_float(Float::from_int(secs, Precision::Double));
    }
    let frac = float::round_ratio(nanos as u128, 1_000_000_000, Precision::Double);
    proof {
        float::lemma_exp2_values();
        // Fewer than 30 bits before and after: the exponent lies between -83 and -21.
        assert(nanos < float::exp2(30));
        assert(1_000_000_000 <= float::exp2(30));
        assert(float::exponent_within(Precision::Double, frac.e as int, 30, 30));
        float::lemma_exp2_mono((-frac.e) as nat, 83);
        float::lemma_exp2_add(64, 19);
        float::lemma_exp2_mono(19, 20);
    }
    let unit = float::power((-frac.e) as u32);
    proof {
        assert(secs * unit <= 0x5_0000_0000 * (0x1_0000_0000_0000_0000 * 0x10_0000))
            by (nonlinear_arith)
            requires
                secs <= 0x5_0000_0000,
                unit <= 0x1_0000_0000_0000_0000 * 0x10_0000,
        ;
    }
    let sum = float::round_ratio(secs as u128 * unit + frac.m as u128, 1, Precision::Double);
    proof {
        float::lemma_exp2_pos(52);
    }
    F64::from_float(Float { m: sum.m, e: sum.e + frac.e })
}

/// The nanoseconds from `then` to `now`, but at least a millisecond, also where the clock has not
/// moved on.
pub open spec fn elapsed_ns(now: u64, then: u64) -> nat {
    if now >= then && now - then >= 1_000_000 {
        (now - then) as nat
    } else {
        1_000_000
    }
}

/// The time in seconds from `then` to `now`, both in nanoseconds, but at least one millisecond.
pub fn elapsed(now: u64, then: u64) -> (r: F64)
    ensures
        r.is_finite() && !r.negative(),
        r.magnitude() == in_seconds(elapsed_ns(now, then)),
        r.magnitude().m > 0,
{
    if now >= then && now - then >= 1_000_000 {
        seconds(now - then)
    } else {
        seconds(1_000_000)
    }
}

// ---------------------------------------------------------------------------
// Throughput

/// The growth of a counter per second, without the part after the binary point. A counter that has
/// gone back gives 0. Growth in no time at all gives the greatest rate.
pub open spec fn rate(cur: u64, prev: u64, dt_secs: float::Dyadic) -> u64 {
    if cur <= prev {
        0
    } else if dt_secs.m == 0 {
        u64::MAX
    } else {
        let delta = float::nearest((cur - prev) as nat, 1, Precision::Double);
        counters::capped(float::floor(float::quotient(delta, dt_secs, Precision::Double)))
    }
}

/// The growth of a counter per second, over any number of seconds. An infinite or negative time, and
/// one that is not a number, gives 0.
pub open spec fn rate_over(cur: u64, prev: u64, dt_secs: F64) -> u64 {
    if dt_secs.is_finite() && !dt_secs.negative() {
        rate(cur, prev, dt_secs.magnitude())
    } else {
        0
    }
}

/// The growth of a counter per second. A counter that has gone back (the process id is used again,
/// or the counter was reset) gives 0.
pub fn per_second(cur: u64, prev: u64, dt_secs: F64) -> (r: u64)
    ensures
        r == rate_over(cur, prev, dt_secs),
{
    if cur <= prev {
        return 0;
    }
    match dt_secs.to_float() {
        Some(dt) => {
            if dt.m == 0 {
                return u64::MAX;
            }
            let delta = Float::from_int(cur - prev, Precision::Double);
            delta.divided_by(dt, Precision::Double).to_u64()
        },
        None => 0,
    }
}

// ---------------------------------------------------------------------------
// Shares

/// The share of each second that a thread has waited, in percent and in single precision, where it
/// has waited `wait_ns` nanoseconds per second. It is at most 100.
pub open spec fn wait_share(wait_ns: u64) -> float::Dyadic {
    let secs = float::quotient(
        float::nearest(wait_ns as nat, 1, Precision::Double),
        float::Dyadic { m: 1_000_000_000, e: 0 },
        Precision::Double,
    );
    let pct = float::at_most(float::multiple(secs, 100, Precision::Double), 100);
    float::multiple(pct, 1, Precision::Single)
}

/// The share of each second that a thread has waited, in percent.
pub fn wait_percent(wait_ns: u64) -> (r: Float)
    ensures
        r@ == wait_share(wait_ns),
        r.tame(),
{
    let secs = Float::from_int(wait_ns, Precision::Double).divided_by(
        Float { m: 1_000_000_000, e: 0 },
        Precision::Double,
    );
    let pct = secs.times(100, Precision::Double).capped_at(100);
    proof {
        assert(pct@.e == 0 || pct@ == float::multiple(secs@, 100, Precision::Double));
    }
    pct.times(1, Precision::Single)
}

/// `part` of `total` in percent: computed in double precision, then rounded to single precision.
pub open spec fn share(part: u64, total: u64) -> float::Dyadic {
    let q = float::quotient(
        float::nearest(part as nat, 1, Precision::Double),
        float::nearest(total as nat, 1, Precision::Double),
        Precision::Double,
    );
    float::multiple(float::multiple(q, 100, Precision::Double), 1, Precision::Single)
}

/// `part` of `total` in percent.
pub fn percent(part: u64, total: u64) -> (r: Float)
    requires
        total > 0,
    ensures
        r@ == share(part, total),
        r.tame(),
{
    let q = Float::from_int(part, Precision::Double).divided_by(
        Float::from_int(total, Precision::Double),
        Precision::Double,
    );
    q.times(100, Precision::Double).times(1, Precision::Single)
}

/// The used part of the host's memory in percent, computed in single precision throughout. A host
/// without memory has used none of it.
pub open spec fn used_share(used: u64, total: u64) -> float::Dyadic {
    if total == 0 {
        float::Dyadic { m: 0, e: 0 }
    } else {
        let q = float::quotient(
            float::nearest(used as nat, 1, Precision::Single),
            float::nearest(total as nat, 1, Precision::Single),
            Precision::Single,
        );
        float::multiple(q, 100, Precision::Single)
    }
}

/// The used part of the host's memory in percent.
pub fn used_percent(used: u64, total: u64) -> (r: Float)
    ensures
        r@ == used_share(used, total),
        r.tame(),
{
    if total == 0 {
        return Float { m: 0, e: 0 };
    }
    let q = Float::from_int(used, Precision::Single).divided_by(
        Float::from_int(total, Precision::Single),
        Precision::Single,
    );
    q.times(100, Precision::Single)
}

// ---------------------------------------------------------------------------
// Laws

/// A counter that has gone back, or not grown, gives a rate of 0, whatever the time: be it zero,
/// negative, infinite or not a number.
pub proof fn law_no_growth_no_rate(cur: u64, prev: u64, dt_secs: F64)
    requires
        cur <= prev,
    ensures
        rate_over(cur, prev, dt_secs) == 0,
{
}

/// A larger counter never gives a smaller rate over the same time.
pub proof fn law_larger_counter_no_smaller_rate(c1: u64, c2: u64, prev: u64, dt_secs: F64)
    requires
        c1 <= c2,
    ensures
        rate_over(c1, prev, dt_secs) <= rate_over(c2, prev, dt_secs),
        forall|dt: float::Dyadic| #[trigger] rate(c1, prev, dt) <= rate(c2, prev, dt),
{
    assert forall|dt: float::Dyadic| #[trigger] rate(c1, prev, dt) <= rate(c2, prev, dt) by {
        if prev < c1 && dt.m > 0 {
            float::lemma_quotient_order(
                (c1 - prev) as nat,
                (c2 - prev) as nat,
                dt,
                Precision::Double,
            );
        }
    }
}

/// Over one second the rate is the growth itself, as long as double precision holds it exactly.
pub proof fn law_one_second_gives_the_growth(cur: u64, prev: u64)
    requires
        prev <= cur,
        cur - prev < 0x20_0000_0000_0000,
    ensures
        rate(cur, prev, in_seconds(1_000_000_000)) == cur - prev,
{
    if prev < cur {
        let n = (cur - prev) as nat;
        float::lemma_exp2_values();
        assert(float::exp2(53) == 2 * float::exp2(52));
        float::lemma_int_is_exact(n, Precision::Double);
        float::lemma_int_is_exact(1, Precision::Double);
        let f = float::nearest(n, 1, Precision::Double);
        float::lemma_divide_by_one(f);
        let t = float::exp2((-f.e) as nat);
        float::lemma_exp2_pos((-f.e) as nat);
        assert(float::at_scale(f.m, 1, -f.e) == (f.m, t));
        assert(f.m / t == n) by (nonlinear_arith)
            requires
                f.m == n * t,
                t > 0,
        ;
    }
}

/// A thread never waits more than all of the time.
pub proof fn law_wait_is_at_most_all(wait_ns: u64)
    ensures
        !float::exceeds(wait_share(wait_ns), 100),
{
    let secs = float::quotient(
        float::nearest(wait_ns as nat, 1, Precision::Double),
        float::Dyadic { m: 1_000_000_000, e: 0 },
        Precision::Double,
    );
    let pct = float::at_most(float::multiple(secs, 100, Precision::Double), 100);
    float::lemma_exp2_values();
    assert(!float::exceeds(pct, 100)) by {
        if pct == (float::Dyadic { m: 100, e: 0 }) {
            assert(float::exp2(0) == 1);
            assert(float::at_scale(100, 1, 0) == (100nat, 1nat));
        }
    }
    float::lemma_rounding_keeps_bound(pct, 100, Precision::Single);
}

/// A thread that has not waited has waited for no share of the time.
pub proof fn law_no_wait_no_share()
    ensures
        wait_share(0).m == 0,
{
    let secs = float::quotient(
        float::nearest(0, 1, Precision::Double),
        float::Dyadic { m: 1_000_000_000, e: 0 },
        Precision::Double,
    );
    assert(secs == (float::Dyadic { m: 0, e: 0 }));
    assert(float::exp2(0) == 1);
    assert(float::at_scale(0, 1, 0) == (0nat, 1nat));
}

// ---------------------------------------------------------------------------
// Laws on accuracy

/// The least of some exponents, and one less.
spec fn below(a: int, b: int) -> int {
    if a < b {
        a - 1
    } else {
        b - 1
    }
}

/// A time in seconds is near the time in nanoseconds divided by a thousand million.
proof fn lemma_seconds_near(ns: nat, s: int)
    requires
        ns > 0,
        s <= 0,
        s < in_seconds(ns).e,
        s < float::nearest(ns % 1_000_000_000, 1_000_000_000, Precision::Double).e,
    ensures
        in_seconds(ns).m > 0,
        float::is_near(
            float::units_of(in_seconds(ns), s) * 1_000_000_000,
            ns * float::exp2((-s) as nat),
            0x8_0000_0000_0000,
        ),
{
    let p = Precision::Double;
    let g: nat = 1_000_000_000;
    let k: nat = 0x20_0000_0000_0000;
    float::lemma_exp2_values();
    assert(2 * p.least() == k) by {
        assert(float::exp2(53) == 2 * float::exp2(52));
    }
    let secs = ns / g;
    let nanos = ns % g;
    assert(ns == secs * g + nanos);
    let t = in_seconds(ns);
    let tu = float::units_of(t, s);
    let z = float::exp2((-s) as nat);
    if nanos == 0 {
        float::lemma_nearest_positive(secs, 1, p);
        float::lemma_nearest_near(secs, 1, p, s);
        assert(tu * 1 == tu);
        float::lemma_near_scale(tu, secs * z, k, g);
        assert((secs * z) * g == ns * z) by (nonlinear_arith)
            requires
                ns == secs * g,
        ;
        float::lemma_near_weaken(tu * g, ns * z, k, 0x8_0000_0000_0000);
    } else {
        let frac = float::nearest(nanos, g, p);
        float::lemma_fraction_exponent(nanos, g);
        float::lemma_nearest_positive(nanos, g, p);
        let v = float::exp2((-frac.e) as nat);
        let m = secs * v + frac.m;
        let whole = float::Dyadic { m, e: frac.e };
        assert(m >= frac.m) by (nonlinear_arith)
            requires
                m == secs * v + frac.m,
                secs >= 0,
                v >= 0,
        ;
        assert(m * 1 == m);
        assert(t == float::multiple(whole, 1, p));
        float::lemma_nearest_positive(m, 1, p);
        float::lemma_multiple_near(whole, 1, p, s);
        float::lemma_nearest_near(nanos, g, p, s);
        let w = float::exp2((frac.e - s) as nat);
        let fu = float::units_of(frac, s);
        let wu = float::units_of(whole, s);
        float::lemma_exp2_add((-frac.e) as nat, (frac.e - s) as nat);
        assert(v * w == z);
        assert(wu == secs * z + fu) by (nonlinear_arith)
            requires
                wu == (secs * v + frac.m) * w,
                fu == frac.m * w,
                v * w == z,
        ;
        // The exact seconds, added on both sides.
        assert(wu * g == (secs * z) * g + fu * g) by (nonlinear_arith)
            requires
                wu == secs * z + fu,
        ;
        assert(ns * z == (secs * z) * g + nanos * z) by (nonlinear_arith)
            requires
                ns == secs * g + nanos,
        ;
        lemma_near_plus((secs * z) * g, fu * g, nanos * z, k);
        assert(float::is_near(wu * g, ns * z, k));
        assert(wu * 1 == wu);
        float::lemma_near_scale(tu, wu, k, g);
        float::lemma_near_chain(tu * g, wu * g, ns * z, k, k, 0x8_0000_0000_0000);
    }
}

proof fn lemma_near_plus(c: nat, x: nat, y: nat, k: nat)
    requires
        float::is_near(x, y, k),
    ensures
        float::is_near(c + x, c + y, k),
{
    assert((k - 1) * (c + y) <= k * (c + x)) by (nonlinear_arith)
        requires
            (k - 1) * y <= k * x,
            c >= 0,
    ;
    assert(k * (c + x) <= (k + 1) * (c + y)) by (nonlinear_arith)
        requires
            k * x <= (k + 1) * y,
            c >= 0,
    ;
}

proof fn lemma_rate_from_above(k: nat, r: nat, z: nat, t: nat, q: nat, d: nat, n: nat, ns: nat, g: nat)
    requires
        r * z <= q,
        k * (q * t) <= (k + 1) * (d * z),
        k * d <= (k + 1) * (n * z),
        (k - 1) * (ns * z) <= k * (t * g),
        z > 0,
        k > 0,
    ensures
        (r * ns) * ((k - 1) * k) <= (g * n) * ((k + 1) * (k + 1)),
{
    assert((r * z) * t <= q * t) by (nonlinear_arith)
        requires
            r * z <= q,
            t >= 0,
    ;
    assert(z * (k * (r * t)) <= z * ((k + 1) * d)) by (nonlinear_arith)
        requires
            (r * z) * t <= q * t,
            k * (q * t) <= (k + 1) * (d * z),
            k > 0,
    ;
    assert(k * (r * t) <= (k + 1) * d) by (nonlinear_arith)
        requires
            z * (k * (r * t)) <= z * ((k + 1) * d),
            z > 0,
    ;
    assert(k * (k * (r * t)) <= (k + 1) * ((k + 1) * (n * z))) by (nonlinear_arith)
        requires
            k * (r * t) <= (k + 1) * d,
            k * d <= (k + 1) * (n * z),
            k > 0,
    ;
    assert(((k - 1) * (ns * z)) * (k * r) <= (k * (t * g)) * (k * r)) by (nonlinear_arith)
        requires
            (k - 1) * (ns * z) <= k * (t * g),
            k >= 0,
            r >= 0,
    ;
    assert((k * (t * g)) * (k * r) == g * (k * (k * (r * t)))) by (nonlinear_arith);
    assert(g * (k * (k * (r * t))) <= g * ((k + 1) * ((k + 1) * (n * z)))) by (nonlinear_arith)
        requires
            k * (k * (r * t)) <= (k + 1) * ((k + 1) * (n * z)),
            g >= 0,
    ;
    assert(((k - 1) * (ns * z)) * (k * r) == z * ((r * ns) * ((k - 1) * k))) by (nonlinear_arith);
    assert(g * ((k + 1) * ((k + 1) * (n * z))) == z * ((g * n) * ((k + 1) * (k + 1))))
        by (nonlinear_arith);
    let (x, y) = ((r * ns) * ((k - 1) * k), (g * n) * ((k + 1) * (k + 1)));
    assert(x <= y) by (nonlinear_arith)
        requires
            z * x <= z * y,
            z > 0,
    ;
}

proof fn lemma_rate_from_below(k: nat, r: nat, z: nat, t: nat, q: nat, d: nat, n: nat, ns: nat, g: nat)
    requires
        q < (r + 1) * z,
        (k - 1) * (d * z) <= k * (q * t),
        (k - 1) * (n * z) <= k * d,
        k * (t * g) <= (k + 1) * (ns * z),
        z > 0,
        t > 0,
        g > 0,
        k > 1,
    ensures
        (g * n) * ((k - 1) * (k - 1)) < ((r + 1) * ns) * ((k + 1) * k),
{
    let u = r + 1;
    assert(q * t < (u * z) * t) by (nonlinear_arith)
        requires
            q < u * z,
            t > 0,
    ;
    assert(z * ((k - 1) * d) < z * (k * (u * t))) by (nonlinear_arith)
        requires
            q * t < (u * z) * t,
            (k - 1) * (d * z) <= k * (q * t),
            k > 1,
    ;
    assert((k - 1) * d < k * (u * t)) by (nonlinear_arith)
        requires
            z * ((k - 1) * d) < z * (k * (u * t)),
            z > 0,
    ;
    assert((k - 1) * ((k - 1) * (n * z)) <= k * ((k - 1) * d)) by (nonlinear_arith)
        requires
            (k - 1) * (n * z) <= k * d,
            k > 1,
    ;
    assert(k * ((k - 1) * d) < k * (k * (u * t))) by (nonlinear_arith)
        requires
            (k - 1) * d < k * (u * t),
            k > 1,
    ;
    let a = (k - 1) * ((k - 1) * (n * z));
    let b = k * (k * (u * t));
    assert(g * a < g * b) by (nonlinear_arith)
        requires
            a < b,
            g > 0,
    ;
    assert(g * b == (k * (t * g)) * (k * u)) by (nonlinear_arith)
        requires
            b == k * (k * (u * t)),
    ;
    assert((k * (t * g)) * (k * u) <= ((k + 1) * (ns * z)) * (k * u)) by (nonlinear_arith)
        requires
            k * (t * g) <= (k + 1) * (ns * z),
            k >= 0,
            u >= 0,
    ;
    assert(((k + 1) * (ns * z)) * (k * u) == z * ((u * ns) * ((k + 1) * k))) by (nonlinear_arith);
    assert(g * a == z * ((g * n) * ((k - 1) * (k - 1)))) by (nonlinear_arith)
        requires
            a == (k - 1) * ((k - 1) * (n * z)),
    ;
    let (x, y) = ((g * n) * ((k - 1) * (k - 1)), (u * ns) * ((k + 1) * k));
    assert(x < y) by (nonlinear_arith)
        requires
            z * x < z * y,
            z > 0,
    ;
}

/// The throughput is the growth divided by the time, rounded down: it differs by less than one byte
/// per second, and by what double precision loses, which is less than one part in 2 to the power of
/// 48. The time is in nanoseconds. Only a rate that is too large is cut off.
pub proof fn law_rate_is_growth_over_time(cur: u64, prev: u64, ns: nat)
    requires
        prev <= cur,
        ns > 0,
    ensures
        ({
            let r = rate(cur, prev, in_seconds(ns));
            let k: int = 0x1_0000_0000_0000;
            &&& r * ns * k <= (cur - prev) * 1_000_000_000 * (k + 1)
            &&& r < u64::MAX ==> (cur - prev) * 1_000_000_000 * k < (r + 1) * ns * (k + 1)
        }),
{
    let r = rate(cur, prev, in_seconds(ns));
    let big: nat = 0x1_0000_0000_0000;
    let n = (cur - prev) as nat;
    let g: nat = 1_000_000_000;
    if n == 0 {
        assert(0 * ns * big == 0) by (nonlinear_arith);
        assert((0 + 1) * ns * (big + 1) > 0) by (nonlinear_arith)
            requires
                ns > 0,
        ;
    } else {
        let p = Precision::Double;
        let k: nat = 0x8_0000_0000_0000;
        let k53: nat = 0x20_0000_0000_0000;
        float::lemma_exp2_values();
        assert(2 * p.least() == k53) by {
            assert(float::exp2(53) == 2 * float::exp2(52));
        }
        let delta = float::nearest(n, 1, p);
        let dt = in_seconds(ns);
        let frac = float::nearest(ns % g, g, p);
        let q = float::quotient(delta, dt, p);
        let s = below(below(below(below(delta.e, dt.e), frac.e), q.e), 0);
        lemma_seconds_near(ns, s);
        float::lemma_nearest_positive(n, 1, p);
        float::lemma_nearest_near(n, 1, p, s);
        float::lemma_quotient_near(delta, dt, p, s);
        float::lemma_floor_bounds(q, s);
        float::lemma_exp2_pos((-s) as nat);
        float::lemma_exp2_pos((dt.e - s) as nat);
        let z = float::exp2((-s) as nat);
        let (qu, tu, du) = (
            float::units_of(q, s),
            float::units_of(dt, s),
            float::units_of(delta, s),
        );
        assert(du * 1 == du);
        float::lemma_near_weaken(du, n * z, k53, k);
        float::lemma_near_weaken(qu * tu, du * z, k53, k);
        assert(tu > 0) by (nonlinear_arith)
            requires
                tu == dt.m * float::exp2((dt.e - s) as nat),
                dt.m > 0,
                float::exp2((dt.e - s) as nat) > 0,
        ;
        let whole = float::floor(q);
        lemma_rate_from_above(k, whole, z, tu, qu, du, n, ns, g);
        lemma_rate_from_below(k, whole, z, tu, qu, du, n, ns, g);
        assert(g * n == n * g) by (nonlinear_arith);
        let y = n * g;
        let x = whole * ns;
        assert(x * big <= y * (big + 1)) by (nonlinear_arith)
            requires
                x * ((k - 1) * k) <= y * ((k + 1) * (k + 1)),
                k == 0x8_0000_0000_0000,
                big == 0x1_0000_0000_0000,
                x >= 0,
                y >= 0,
        ;
        assert(r <= whole);
        assert(r * ns <= x) by (nonlinear_arith)
            requires
                r <= whole,
                x == whole * ns,
                ns >= 0,
        ;
        if r < u64::MAX {
            let x1 = (whole + 1) * ns;
            assert(y * big < x1 * (big + 1)) by (nonlinear_arith)
                requires
                    y * ((k - 1) * (k - 1)) < x1 * ((k + 1) * k),
                    k == 0x8_0000_0000_0000,
                    big == 0x1_0000_0000_0000,
                    x1 >= 0,
                    y >= 0,
            ;
        }
    }
}

/// The time since a reading is that between the two clock readings, but at least a millisecond, also
/// where the clock stands still or goes back.
pub proof fn law_time_since_a_reading(now: u64, then: u64)
    ensures
        then + 1_000_000 <= now ==> elapsed_ns(now, then) == now - then,
        now < then + 1_000_000 ==> elapsed_ns(now, then) == 1_000_000,
{
}

/// The share of the time that a thread waits is the waiting time of a second divided by the second,
/// in percent, and 100 percent at most: it differs by what single precision loses, which is less than
/// one part in 2 to the power of 22.
pub proof fn law_wait_share_is_the_waiting_time(wait_ns: u64)
    ensures
        ({
            let share = wait_share(wait_ns);
            let (a, b) = float::at_scale(share.m, 1, -share.e);
            let waited: nat = if wait_ns < 1_000_000_000 {
                wait_ns as nat
            } else {
                1_000_000_000
            };
            float::is_near(a * 10_000_000, waited * b, 0x40_0000)
        }),
{
    let p = Precision::Double;
    let g: nat = 1_000_000_000;
    let c: nat = 10_000_000;
    let w = wait_ns as nat;
    let m = if w < g {
        w
    } else {
        g
    };
    let x = wait_share(wait_ns);
    if w == 0 {
        law_no_wait_no_share();
        let (a, b) = float::at_scale(0, 1, -x.e);
        assert(a == 0) by {
            if -x.e < 0 {
                let t = float::exp2(x.e as nat);
                assert(0 * t == 0) by (nonlinear_arith);
            }
        }
        assert(0 * c == 0 && 0 * b == 0) by (nonlinear_arith);
    } else {
        float::lemma_exp2_values();
        assert(float::exp2(53) == 2 * float::exp2(52) && float::exp2(24) == 2 * float::exp2(23));
        let k53: nat = 0x20_0000_0000_0000;
        let k24: nat = 0x100_0000;
        let k: nat = 0x40_0000;
        let w1 = float::nearest(w, 1, p);
        let one = float::Dyadic { m: g, e: 0 };
        let secs = float::quotient(w1, one, p);
        let pct0 = float::multiple(secs, 100, p);
        let pct = float::at_most(pct0, 100);
        let s = below(below(below(below(below(w1.e, secs.e), pct0.e), pct.e), x.e), 0);
        let z = float::exp2((-s) as nat);
        float::lemma_exp2_pos((-s) as nat);
        let (wu, su, p0, pu, xu) = (
            float::units_of(w1, s),
            float::units_of(secs, s),
            float::units_of(pct0, s),
            float::units_of(pct, s),
            float::units_of(x, s),
        );
        float::lemma_nearest_positive(w, 1, p);
        float::lemma_nearest_positive(w1.m, g, p);
        let sm = secs.m * 100;
        float::lemma_nearest_positive(sm, 1, p);
        float::lemma_nearest_near(w, 1, p, s);
        assert(wu * 1 == wu);
        float::lemma_quotient_near(w1, one, p, s);
        assert(float::units_of(one, s) == g * z);
        assert(su * (g * z) == (su * g) * z) by (nonlinear_arith);
        float::lemma_near_cancel(su * g, wu, k53, z);
        float::lemma_multiple_near(secs, 100, p, s);
        float::lemma_near_scale(p0, su * 100, k53, c);
        assert((su * 100) * c == su * g) by (nonlinear_arith)
            requires
                c == 10_000_000,
                g == 1_000_000_000,
        ;
        let k51: nat = 0x8_0000_0000_0000;
        let k50: nat = 0x4_0000_0000_0000;
        float::lemma_near_chain(p0 * c, su * g, wu, k53, k53, k51);
        float::lemma_near_chain(p0 * c, wu, w * z, k51, k53, k50);
        float::lemma_compare_in_units(pct0, 100, s);
        law_wait_is_at_most_all(wait_ns);
        float::lemma_compare_in_units(x, 100, s);
        assert(xu * c <= g * z) by (nonlinear_arith)
            requires
                xu <= 100 * z,
                c == 10_000_000,
                g == 1_000_000_000,
        ;
        assert(m * z <= w * z && m * z <= g * z) by (nonlinear_arith)
            requires
                m <= w,
                m <= g,
        ;
        assert(pct.m > 0);
        float::lemma_multiple_near(pct, 1, Precision::Single, s);
        assert(pu * 1 == pu);
        float::lemma_near_scale(xu, pu, k24, c);
        if !float::exceeds(pct0, 100) {
            float::lemma_near_chain(xu * c, p0 * c, w * z, k24, k50, 0x80_0000);
            float::lemma_near_weaken(xu * c, w * z, 0x80_0000, k);
            if w >= g {
                lemma_cut_at_all(xu * c, w * z, g * z, k);
            }
        } else {
            assert(pu == 100 * z);
            assert((100 * z) * c == g * z) by (nonlinear_arith)
                requires
                    c == 10_000_000,
                    g == 1_000_000_000,
            ;
            float::lemma_near_weaken(xu * c, g * z, k24, k);
            assert(g * z <= p0 * c) by (nonlinear_arith)
                requires
                    100 * z < p0,
                    c == 10_000_000,
                    g == 1_000_000_000,
            ;
            if w < g {
                lemma_cut_near_all(xu * c, p0 * c, w * z, g * z);
            }
        }
        assert(float::is_near(xu * c, m * z, k));
        float::lemma_near_as_ratio(x, s, c, m, k);
    }
}

proof fn lemma_cut_at_all(x: nat, y: nat, all: nat, k: nat)
    requires
        float::is_near(x, y, k),
        x <= all <= y,
        k > 0,
    ensures
        float::is_near(x, all, k),
{
    assert((k - 1) * all <= k * x && k * x <= (k + 1) * all) by (nonlinear_arith)
        requires
            (k - 1) * y <= k * x,
            x <= all <= y,
            k > 0,
    ;
}

proof fn lemma_cut_near_all(x: nat, p: nat, y: nat, all: nat)
    requires
        float::is_near(x, all, 0x40_0000),
        float::is_near(p, y, 0x4_0000_0000_0000),
        x <= all <= p,
        y <= all,
    ensures
        float::is_near(x, y, 0x40_0000),
{
    let k: int = 0x40_0000;
    let c: int = 0x4_0000_0000_0000;
    assert((k - 1) * y <= k * x && k * x <= (k + 1) * y) by (nonlinear_arith)
        requires
            k == 0x40_0000,
            c == 0x4_0000_0000_0000,
            (k - 1) * all <= k * x,
            c * p <= (c + 1) * y,
            x <= all <= p,
            0 <= y <= all,
    ;
}

/// The share of a node is its part of all pages in percent: it differs by what single precision loses,
/// which is less than one part in 2 to the power of 22.
pub proof fn law_share_is_the_part_of_the_total(part: u64, total: u64)
    requires
        total > 0,
    ensures
        ({
            let share = share(part, total);
            let (a, b) = float::at_scale(share.m, 1, -share.e);
            float::is_near(a * total as nat, (100 * part as nat) * b, 0x40_0000)
        }),
{
    let p = Precision::Double;
    let x = share(part, total);
    let (n, d) = (part as nat, total as nat);
    if n == 0 {
        lemma_zero_share(x, n, d, 0x40_0000);
    } else {
        float::lemma_exp2_values();
        assert(float::exp2(53) == 2 * float::exp2(52) && float::exp2(24) == 2 * float::exp2(23));
        let (f, h) = (float::nearest(n, 1, p), float::nearest(d, 1, p));
        let q = float::quotient(f, h, p);
        let m = float::multiple(q, 100, p);
        let s = below(below(below(below(below(f.e, h.e), q.e), m.e), x.e), 0);
        let z = float::exp2((-s) as nat);
        let (qu, mu, xu) = (float::units_of(q, s), float::units_of(m, s), float::units_of(x, s));
        float::lemma_integer_quotient_near(n, d, p, s);
        float::lemma_multiple_near(q, 100, p, s);
        let qm = q.m * 100;
        float::lemma_nearest_positive(qm, 1, p);
        float::lemma_multiple_near(m, 1, Precision::Single, s);
        assert(mu * 1 == mu);
        let k53: nat = 0x20_0000_0000_0000;
        let k50: nat = 0x4_0000_0000_0000;
        let k49: nat = 0x2_0000_0000_0000;
        float::lemma_near_scale(qu * d, n * z, k50, 100);
        float::lemma_near_scale(mu, qu * 100, k53, d);
        float::lemma_near_scale(xu, mu, 0x100_0000, d);
        assert((qu * 100) * d == (qu * d) * 100) by (nonlinear_arith);
        assert((n * z) * 100 == (100 * n) * z) by (nonlinear_arith);
        float::lemma_near_chain(mu * d, (qu * d) * 100, (100 * n) * z, k53, k50, k49);
        float::lemma_near_chain(xu * d, mu * d, (100 * n) * z, 0x100_0000, k49, 0x80_0000);
        float::lemma_near_weaken(xu * d, (100 * n) * z, 0x80_0000, 0x40_0000);
        float::lemma_near_as_ratio(x, s, d, 100 * n, 0x40_0000);
    }
}

proof fn lemma_zero_share(x: float::Dyadic, n: nat, d: nat, k: nat)
    requires
        x.m == 0,
        n == 0,
    ensures
        ({
            let (a, b) = float::at_scale(x.m, 1, -x.e);
            float::is_near(a * d, (100 * n) * b, k)
        }),
{
    let (a, b) = float::at_scale(x.m, 1, -x.e);
    assert(a == 0) by {
        if -x.e < 0 {
            let t = float::exp2(x.e as nat);
            assert(0 * t == 0) by (nonlinear_arith);
        }
    }
    assert(a * d == 0 && (100 * n) * b == 0) by (nonlinear_arith)
        requires
            a == 0,
            n == 0,
    ;
}

/// The used part of the host's memory in percent differs from the ratio by what single precision
/// loses, which is less than one part in 2 to the power of 20.
pub proof fn law_used_share_is_the_part_of_the_total(used: u64, total: u64)
    requires
        total > 0,
    ensures
        ({
            let share = used_share(used, total);
            let (a, b) = float::at_scale(share.m, 1, -share.e);
            float::is_near(a * total as nat, (100 * used as nat) * b, 0x10_0000)
        }),
        used_share(used, 0).m == 0,
{
    let p = Precision::Single;
    let x = used_share(used, total);
    let (n, d) = (used as nat, total as nat);
    if n == 0 {
        lemma_zero_share(x, n, d, 0x10_0000);
    } else {
        float::lemma_exp2_values();
        assert(float::exp2(24) == 2 * float::exp2(23));
        let (f, h) = (float::nearest(n, 1, p), float::nearest(d, 1, p));
        let q = float::quotient(f, h, p);
        let s = below(below(below(below(f.e, h.e), q.e), x.e), 0);
        let z = float::exp2((-s) as nat);
        let (qu, xu) = (float::units_of(q, s), float::units_of(x, s));
        float::lemma_integer_quotient_near(n, d, p, s);
        float::lemma_multiple_near(q, 100, p, s);
        float::lemma_near_scale(qu * d, n * z, 0x20_0000, 100);
        float::lemma_near_scale(xu, qu * 100, 0x100_0000, d);
        assert((qu * 100) * d == (qu * d) * 100) by (nonlinear_arith);
        assert((n * z) * 100 == (100 * n) * z) by (nonlinear_arith);
        float::lemma_near_chain(
            xu * d,
            (qu * d) * 100,
            (100 * n) * z,
            0x100_0000,
            0x20_0000,
            0x10_0000,
        );
        float::lemma_near_as_ratio(x, s, d, 100 * n, 0x10_0000);
    }
}

/// Growth in no time at all is the greatest rate. A time that is negative, infinite or not a number
/// gives no rate.
pub proof fn law_rate_over_odd_times(cur: u64, prev: u64, dt_secs: F64)
    requires
        prev < cur,
    ensures
        dt_secs.bits == 0 ==> rate_over(cur, prev, dt_secs) == u64::MAX,
        dt_secs.bits >= 0x8000_0000_0000_0000 ==> rate_over(cur, prev, dt_secs) == 0,
        dt_secs.bits >= 0x7ff0_0000_0000_0000 ==> rate_over(cur, prev, dt_secs) == 0,
{
}

} // verus!
