//! The `f64` approximation of JSON numbers, as integers that order like the
//! approximations: what the sort comparison reads from a number.

use vstd::prelude::*;
use vstd::arithmetic::power2::{
    pow2, lemma_pow2_adds, lemma_pow2_pos, lemma_pow2_unfold, lemma2_to64, lemma2_to64_rest,
};
use crate::json::{JsonNumber, NumberData, number_view};

verus! {

/// The number of binary digits of `n` (0 for 0).
pub open spec fn bit_length(n: nat) -> nat
    decreases n,
{
    if n == 0 {
        0
    } else {
        1 + bit_length(n / 2)
    }
}

/// The bit pattern of the `f64` nearest to `n` (ties to even), read as an
/// unsigned integer: biased exponent times 2^52 plus the 52-bit fraction.
/// A carry out of the rounded fraction moves into the exponent.
pub open spec fn f64_pattern(n: nat) -> nat {
    if n == 0 {
        0
    } else {
        let p = (bit_length(n) - 1) as nat;
        if p <= 52 {
            ((p + 1023) * pow2(52) + n * pow2((52 - p) as nat) - pow2(52)) as nat
        } else {
            let s = (p - 52) as nat;
            let q = n / pow2(s);
            let r = n % pow2(s);
            let half = pow2((s - 1) as nat);
            let q2 = if r > half || (r == half && q % 2 == 1) {
                q + 1
            } else {
                q
            };
            ((p + 1023) * pow2(52) + q2 - pow2(52)) as nat
        }
    }
}

/// An integer that orders `f64` bit patterns as their (non-NaN) values:
/// the magnitude bits, negated when the sign bit is set, so that both zeros
/// meet at 0.
pub open spec fn float_key(b: u64) -> int {
    if b >= 0x8000_0000_0000_0000 {
        -(b - 0x8000_0000_0000_0000)
    } else {
        b as int
    }
}

impl NumberData {
    /// The order key of the number's `f64` approximation (`Number::as_f64`).
    /// A JSON float is finite, and on finite patterns the keys order as the
    /// `f64` values do.
    pub open spec fn order_key(self) -> int {
        match self {
            NumberData::PosInt(u) => f64_pattern(u as nat) as int,
            NumberData::NegInt(i) => if i < 0 {
                -f64_pattern((-i) as nat)
            } else {
                f64_pattern(i as nat) as int
            },
            NumberData::Float(bits, _) => float_key(bits),
        }
    }
}

proof fn lemma_bit_length(n: nat, p: nat)
    requires
        pow2(p) <= n < pow2(p + 1),
    ensures
        bit_length(n) == p + 1,
    decreases p,
{
    lemma_pow2_unfold(p + 1);
    lemma_pow2_pos(p);
    if p == 0 {
        lemma2_to64();
        assert(n == 1);
        assert(bit_length(0) == 0);
    } else {
        lemma_pow2_unfold(p);
        lemma_bit_length(n / 2, (p - 1) as nat);
    }
}

proof fn lemma_bit_length_bounds(n: nat)
    requires
        n > 0,
    ensures
        bit_length(n) >= 1,
        pow2((bit_length(n) - 1) as nat) <= n < pow2(bit_length(n)),
    decreases n,
{
    if n == 1 {
        assert(bit_length(0) == 0);
        assert(bit_length(1) == 1);
        lemma2_to64();
    } else {
        let h = n / 2;
        lemma_bit_length_bounds(h);
        let b = bit_length(h);
        assert(bit_length(n) == 1 + b);
        lemma_pow2_unfold(b);
        lemma_pow2_unfold(b + 1);
        assert(pow2(b) <= n);
        assert(n < pow2(b + 1));
    }
}

/// The pattern of an integer `n` in `2^p..2^(p+1)`: the biased exponent `p +
/// 1023` times 2^52, plus the rounded 53-bit significand less 2^52.
proof fn lemma_pattern_of(n: nat, p: nat)
    requires
        pow2(p) <= n < pow2(p + 1),
    ensures
        p <= 52 ==> f64_pattern(n) == (p + 1023) * pow2(52) + n * pow2((52 - p) as nat) - pow2(52),
        p > 52 ==> ({
            let sh = (p - 52) as nat;
            let q = n / pow2(sh);
            let r = n % pow2(sh);
            let half = pow2((sh - 1) as nat);
            let q2 = if r > half || (r == half && q % 2 == 1) {
                q + 1
            } else {
                q
            };
            f64_pattern(n) == (p + 1023) * pow2(52) + q2 - pow2(52)
        }),
{
    lemma_bit_length(n, p);
    lemma_pow2_pos(p);
    lemma_pow2_pos(52);
    assert(n != 0);
    assert((bit_length(n) - 1) as nat == p);
    assert((p + 1023) * pow2(52) >= pow2(52)) by (nonlinear_arith)
        requires pow2(52) > 0;
    if p <= 52 {
        lemma_pow2_pos((52 - p) as nat);
        assert(n * pow2((52 - p) as nat) >= 1) by (nonlinear_arith)
            requires n >= 1, pow2((52 - p) as nat) >= 1;
    } else {
        let sh = (p - 52) as nat;
        lemma_pow2_pos(sh);
        lemma_pow2_adds(52, sh);
        assert(n / pow2(sh) >= pow2(52)) by (nonlinear_arith)
            requires pow2(52) * pow2(sh) == pow2(p), pow2(p) <= n, pow2(sh) > 0;
    }
}

/// Where the pattern of an integer in `2^p..2^(p+1)` lies: between the
/// first patterns of the exponents `p` and `p + 1`, both included.
proof fn lemma_pattern_bounds(n: nat, p: nat)
    requires
        pow2(p) <= n < pow2(p + 1),
    ensures
        (p + 1023) * pow2(52) <= f64_pattern(n) <= (p + 1024) * pow2(52),
{
    lemma_pattern_of(n, p);
    lemma_pow2_pos(p);
    lemma_pow2_unfold(p + 1);
    let two52 = pow2(52);
    lemma_pow2_pos(52);
    assert((p + 1024) * two52 == (p + 1023) * two52 + two52) by (nonlinear_arith);
    if p <= 52 {
        let k = pow2((52 - p) as nat);
        lemma_pow2_pos((52 - p) as nat);
        lemma_pow2_adds(p, (52 - p) as nat);
        assert(pow2(p) * k == two52);
        assert(two52 <= n * k < 2 * two52) by (nonlinear_arith)
            requires pow2(p) * k == two52, pow2(p) <= n, n < 2 * pow2(p), k > 0;
    } else {
        let sh = (p - 52) as nat;
        let d = pow2(sh);
        lemma_pow2_adds(52, sh);
        lemma_pow2_pos(sh);
        assert(two52 * d == pow2(p));
        let q = n / d;
        assert(two52 <= q < 2 * two52) by (nonlinear_arith)
            requires two52 * d == pow2(p), pow2(p) <= n, n < 2 * pow2(p), d > 0, q == n / d;
    }
}

/// The pattern of the `f64` nearest to an integer grows with the integer.
proof fn lemma_pattern_monotone(n: nat, m: nat)
    requires
        n <= m,
    ensures
        f64_pattern(n) <= f64_pattern(m),
{
    if n == 0 {
        return;
    }
    lemma_bit_length_bounds(n);
    lemma_bit_length_bounds(m);
    let pn = (bit_length(n) - 1) as nat;
    let pm = (bit_length(m) - 1) as nat;
    assert(pn + 1 == bit_length(n));
    assert(pm + 1 == bit_length(m));
    if pn > pm {
        if pn > pm + 1 {
            vstd::arithmetic::power2::lemma_pow2_strictly_increases(pm + 1, pn);
        }
        assert(false);
    }
    lemma_pattern_bounds(n, pn);
    lemma_pattern_bounds(m, pm);
    let two52 = pow2(52);
    if pn < pm {
        assert((pn + 1024) * two52 <= (pm + 1023) * two52) by (nonlinear_arith)
            requires pn + 1024 <= pm + 1023;
        return;
    }
    let p = pn;
    lemma_pattern_of(n, p);
    lemma_pattern_of(m, p);
    if p <= 52 {
        let k = pow2((52 - p) as nat);
        assert(n * k <= m * k) by (nonlinear_arith)
            requires n <= m;
    } else {
        let sh = (p - 52) as nat;
        let d = pow2(sh);
        lemma_pow2_pos(sh);
        let qn = n / d;
        let qm = m / d;
        vstd::arithmetic::div_mod::lemma_div_is_ordered(n as int, m as int, d as int);
        if qn == qm {
            vstd::arithmetic::div_mod::lemma_fundamental_div_mod(n as int, d as int);
            vstd::arithmetic::div_mod::lemma_fundamental_div_mod(m as int, d as int);
            assert(n % d <= m % d);
        }
    }
}

/// The value of a non-negative `f64` whose bit pattern is `mag` (below 2^63),
/// in units of 2^-1074, the least positive `f64`: a subnormal's fraction as it
/// is, else the significand with its hidden bit, times 2 to the biased
/// exponent less one.
pub open spec fn magnitude_units(mag: nat) -> nat {
    let e = mag / pow2(52);
    let m = mag % pow2(52);
    if e == 0 {
        m
    } else {
        (pow2(52) + m) * pow2((e - 1) as nat)
    }
}

/// The value of a finite `f64` with bit pattern `b`, in units of 2^-1074.
pub open spec fn float_units(b: u64) -> int {
    if b >= 0x8000_0000_0000_0000 {
        -magnitude_units((b - 0x8000_0000_0000_0000) as nat)
    } else {
        magnitude_units(b as nat) as int
    }
}

/// A larger pattern of a non-negative `f64` stands for a larger value.
proof fn lemma_units_strictly_increase(x: nat, y: nat)
    requires
        x < y,
    ensures
        magnitude_units(x) < magnitude_units(y),
{
    let big = pow2(52);
    lemma_pow2_pos(52);
    let ex = x / big;
    let ey = y / big;
    let mx = x % big;
    let my = y % big;
    vstd::arithmetic::div_mod::lemma_fundamental_div_mod(x as int, big as int);
    vstd::arithmetic::div_mod::lemma_fundamental_div_mod(y as int, big as int);
    vstd::arithmetic::div_mod::lemma_div_is_ordered(x as int, y as int, big as int);
    if ex == ey {
        assert(mx < my) by (nonlinear_arith)
            requires x == big * ex + mx, y == big * ey + my, ex == ey, x < y;
        if ex > 0 {
            let s = pow2((ex - 1) as nat);
            lemma_pow2_pos((ex - 1) as nat);
            assert((big + mx) * s < (big + my) * s) by (nonlinear_arith)
                requires mx < my, s > 0;
        }
    } else {
        let t = pow2((ey - 1) as nat);
        lemma_pow2_pos((ey - 1) as nat);
        assert(magnitude_units(y) >= big * t) by (nonlinear_arith)
            requires magnitude_units(y) == (big + my) * t, t > 0;
        if ex == 0 {
            assert(big <= big * t) by (nonlinear_arith)
                requires t >= 1, big > 0;
        } else {
            let s = pow2((ex - 1) as nat);
            lemma_pow2_pos((ex - 1) as nat);
            lemma_pow2_unfold(ex);
            if ex < ey - 1 {
                vstd::arithmetic::power2::lemma_pow2_strictly_increases(ex, (ey - 1) as nat);
            }
            assert(pow2(ex) <= t);
            assert((big + mx) * s < big * (2 * s)) by (nonlinear_arith)
                requires mx < big, s > 0;
            assert(big * pow2(ex) <= big * t) by (nonlinear_arith)
                requires pow2(ex) <= t, big > 0;
        }
    }
}

/// Order keys of `f64` patterns follow the values they stand for: a pattern
/// with a larger key stands for a larger value.
pub(crate) proof fn lemma_float_keys_follow_units(a: u64, b: u64)
    ensures
        float_key(a) > float_key(b) ==> float_units(a) > float_units(b),
        float_key(a) == float_key(b) ==> float_units(a) == float_units(b),
{
    let sign: int = 0x8000_0000_0000_0000;
    let ma: nat = if a >= sign { (a - sign) as nat } else { a as nat };
    let mb: nat = if b >= sign { (b - sign) as nat } else { b as nat };
    if ma > 0 {
        lemma_units_strictly_increase(0, ma);
    }
    if mb > 0 {
        lemma_units_strictly_increase(0, mb);
    }
    if ma < mb {
        lemma_units_strictly_increase(ma, mb);
    }
    if mb < ma {
        lemma_units_strictly_increase(mb, ma);
    }
    assert(magnitude_units(0) == 0) by {
        lemma_pow2_pos(52);
        vstd::arithmetic::div_mod::lemma_small_mod(0, pow2(52));
        vstd::arithmetic::div_mod::lemma_basic_div(0, pow2(52) as int);
    }
}

/// The value of the pattern with biased exponent `e` (at least 1) and
/// fraction `m`, where a fraction of 2^52 carries into the exponent.
proof fn lemma_units_of(e: nat, m: nat)
    requires
        e >= 1,
        m <= pow2(52),
    ensures
        magnitude_units(e * pow2(52) + m) == (pow2(52) + m) * pow2((e - 1) as nat),
{
    let big = pow2(52);
    lemma_pow2_pos(52);
    if m < big {
        vstd::arithmetic::div_mod::lemma_fundamental_div_mod_converse(
            (e * big + m) as int,
            big as int,
            e as int,
            m as int,
        );
    } else {
        assert(e * big + m == (e + 1) * big) by (nonlinear_arith)
            requires m == big;
        vstd::arithmetic::div_mod::lemma_fundamental_div_mod_converse(
            ((e + 1) * big) as int,
            big as int,
            (e + 1) as int,
            0,
        );
        lemma_pow2_unfold(e);
        assert(big * pow2(e) == (big + m) * pow2((e - 1) as nat)) by (nonlinear_arith)
            requires m == big, pow2(e) == 2 * pow2((e - 1) as nat);
    }
}

/// The `f64` nearest to a positive integer `n` lies closer to `n` than its
/// neighbours do: the patterns just below and just above it stand for values
/// below and above `n`.
proof fn lemma_pattern_brackets(n: nat)
    requires
        n > 0,
    ensures
        f64_pattern(n) >= 1,
        magnitude_units((f64_pattern(n) - 1) as nat) < n * pow2(1074) < magnitude_units(f64_pattern(n) + 1),
{
    lemma_bit_length_bounds(n);
    let p = (bit_length(n) - 1) as nat;
    lemma_pattern_of(n, p);
    lemma_pattern_bounds(n, p);
    let big = pow2(52);
    lemma_pow2_pos(52);
    lemma_pow2_pos(1074);
    assert((p + 1023) * big >= big) by (nonlinear_arith)
        requires big > 0;
    let pat = f64_pattern(n);
    let unit = n * pow2(1074);
    if p <= 52 {
        let k = pow2((52 - p) as nat);
        lemma_pow2_pos(p);
        lemma_pow2_unfold(p + 1);
        lemma_pow2_pos((52 - p) as nat);
        lemma_pow2_adds(p, (52 - p) as nat);
        assert(big <= n * k < 2 * big) by (nonlinear_arith)
            requires pow2(p) * k == big, pow2(p) <= n, n < 2 * pow2(p), k > 0;
        lemma_units_of(p + 1023, (n * k - big) as nat);
        lemma_pow2_adds((52 - p) as nat, p + 1022);
        assert(magnitude_units(pat) == unit) by (nonlinear_arith)
            requires
                magnitude_units(pat) == (big + (n * k - big)) * pow2(p + 1022),
                pow2(1074) == k * pow2(p + 1022),
                unit == n * pow2(1074);
        lemma_units_strictly_increase((pat - 1) as nat, pat);
        lemma_units_strictly_increase(pat, pat + 1);
    } else {
        let sh = (p - 52) as nat;
        let d = pow2(sh);
        let q = n / d;
        let r = n % d;
        let half = pow2((sh - 1) as nat);
        lemma_pow2_pos(sh);
        lemma_pow2_pos((sh - 1) as nat);
        lemma_pow2_pos(p);
        lemma_pow2_unfold(p + 1);
        lemma_pow2_adds(52, sh);
        assert(big <= q < 2 * big) by (nonlinear_arith)
            requires big * d == pow2(p), pow2(p) <= n, n < 2 * pow2(p), d > 0, q == n / d;
        let q2 = if r > half || (r == half && q % 2 == 1) {
            q + 1
        } else {
            q
        };
        assert(pat == (p + 1023) * big + (q2 - big));
        lemma_pow2_adds(sh, 1074);
        let ulp = pow2(p + 1022);
        assert(ulp == d * pow2(1074));
        vstd::arithmetic::div_mod::lemma_fundamental_div_mod(n as int, d as int);
        assert(unit == q * ulp + r * pow2(1074)) by (nonlinear_arith)
            requires unit == n * pow2(1074), n == d * q + r, ulp == d * pow2(1074);
        assert(r * pow2(1074) < ulp) by (nonlinear_arith)
            requires r < d, ulp == d * pow2(1074), pow2(1074) > 0;
        lemma_units_of(p + 1023, (q2 - big) as nat);
        assert(magnitude_units(pat) == q2 * ulp);
        if q2 == q + 1 {
            assert(r >= 1);
            lemma_units_of(p + 1023, (q - big) as nat);
            assert(magnitude_units((pat - 1) as nat) == q * ulp);
            assert(r * pow2(1074) > 0) by (nonlinear_arith)
                requires r >= 1, pow2(1074) > 0;
            lemma_units_strictly_increase(pat, pat + 1);
            assert(q2 * ulp == q * ulp + ulp) by (nonlinear_arith)
                requires q2 == q + 1;
        } else {
            assert(q * ulp <= unit);
            lemma_units_strictly_increase((pat - 1) as nat, pat);
            lemma_units_of(p + 1023, (q + 1 - big) as nat);
            assert(pat + 1 == (p + 1023) * big + (q + 1 - big));
            assert(magnitude_units(pat + 1) == (q + 1) * ulp);
            assert((q + 1) * ulp == q * ulp + ulp) by (nonlinear_arith);
        }
    }
}

/// The `f64` nearest to `n` lies on the side of a non-negative `f64` that
/// `n` lies on: at or below the pattern `mag` when `n` is at or below its
/// value, at or above it when `n` is at or above it.
proof fn lemma_pattern_against_float(n: nat, mag: nat)
    ensures
        n * pow2(1074) <= magnitude_units(mag) ==> f64_pattern(n) <= mag,
        n * pow2(1074) >= magnitude_units(mag) ==> f64_pattern(n) >= mag,
{
    if n == 0 {
        assert(f64_pattern(0) == 0);
        if mag > 0 {
            lemma_units_strictly_increase(0, mag);
        }
        assert(magnitude_units(0) == 0) by {
            lemma_pow2_pos(52);
            vstd::arithmetic::div_mod::lemma_small_mod(0, pow2(52));
            vstd::arithmetic::div_mod::lemma_basic_div(0, pow2(52) as int);
        }
    } else {
        lemma_pattern_brackets(n);
        let pat = f64_pattern(n);
        if pat > mag {
            if mag < pat - 1 {
                lemma_units_strictly_increase(mag, (pat - 1) as nat);
            }
        }
        if pat < mag {
            if pat + 1 < mag {
                lemma_units_strictly_increase(pat + 1, mag);
            }
        }
    }
}

/// The integer a JSON integer stands for.
pub open spec fn integer_of(n: NumberData) -> int {
    match n {
        NumberData::PosInt(u) => u as int,
        NumberData::NegInt(i) => i as int,
        NumberData::Float(_, _) => 0,
    }
}

/// The value of a JSON number in units of 2^-1074: an integer scaled up, a
/// float as its `f64` value.
pub open spec fn number_units(n: NumberData) -> int {
    match n {
        NumberData::Float(bits, _) => float_units(bits),
        _ => integer_of(n) * pow2(1074),
    }
}

/// An integer's key lies on the side of a float's key that its value lies on.
proof fn lemma_integer_against_float(a: NumberData, b: u64)
    requires
        !(a is Float),
    ensures
        integer_of(a) * pow2(1074) <= float_units(b) ==> a.order_key() <= float_key(b),
        integer_of(a) * pow2(1074) >= float_units(b) ==> a.order_key() >= float_key(b),
{
    let x = integer_of(a);
    let sign: int = 0x8000_0000_0000_0000;
    let mag: nat = if b >= sign { (b - sign) as nat } else { b as nat };
    let ax: nat = if x < 0 { (-x) as nat } else { x as nat };
    lemma_pow2_pos(1074);
    lemma_pattern_against_float(ax, mag);
    assert(magnitude_units(0) == 0) by {
        lemma_pow2_pos(52);
        vstd::arithmetic::div_mod::lemma_small_mod(0, pow2(52));
        vstd::arithmetic::div_mod::lemma_basic_div(0, pow2(52) as int);
    }
    if mag > 0 {
        lemma_units_strictly_increase(0, mag);
    }
    if x < 0 {
        assert(x * pow2(1074) < 0) by (nonlinear_arith)
            requires x < 0, pow2(1074) > 0;
        assert(x * pow2(1074) == -(ax * pow2(1074))) by (nonlinear_arith)
            requires ax == -x;
    } else {
        assert(x * pow2(1074) >= 0) by (nonlinear_arith)
            requires x >= 0, pow2(1074) > 0;
        if x > 0 {
            assert(x * pow2(1074) > 0) by (nonlinear_arith)
                requires x > 0, pow2(1074) > 0;
        }
        assert(f64_pattern(0) == 0);
    }
}

/// Numbers are keyed in the order of their values, integers and floats alike.
pub(crate) proof fn lemma_number_keys_follow_value(a: NumberData, b: NumberData)
    requires
        number_units(a) <= number_units(b),
    ensures
        a.order_key() <= b.order_key(),
{
    lemma_pow2_pos(1074);
    match (a, b) {
        (NumberData::Float(x, _), NumberData::Float(y, _)) => {
            lemma_float_keys_follow_units(x, y);
        },
        (NumberData::Float(x, _), _) => {
            lemma_integer_against_float(b, x);
        },
        (_, NumberData::Float(y, _)) => {
            lemma_integer_against_float(a, y);
        },
        _ => {
            assert(integer_of(a) <= integer_of(b)) by (nonlinear_arith)
                requires
                    integer_of(a) * pow2(1074) <= integer_of(b) * pow2(1074),
                    pow2(1074) > 0;
            lemma_integer_keys_ordered(a, b);
        },
    }
}

/// The order keys of integers grow with the integers.
pub(crate) proof fn lemma_integer_keys_ordered(a: NumberData, b: NumberData)
    requires
        !(a is Float),
        !(b is Float),
        integer_of(a) <= integer_of(b),
    ensures
        a.order_key() <= b.order_key(),
{
    let x = integer_of(a);
    let y = integer_of(b);
    if 0 <= x {
        lemma_pattern_monotone(x as nat, y as nat);
    } else if y < 0 {
        lemma_pattern_monotone((-y) as nat, (-x) as nat);
    }
}

/// The bit pattern of the `f64` nearest to `n` (`n as f64`).
pub fn f64_pattern_of(n: u64) -> (r: u64)
    ensures
        r == f64_pattern(n as nat),
{
    if n == 0 {
        return 0;
    }
    proof {
        lemma2_to64();
        lemma2_to64_rest();
    }
    let mut pw: u64 = 1;
    let mut p: u64 = 0;
    while pw <= n / 2
        invariant
            pw == pow2(p as nat),
            1 <= pw <= n,
            p < 64,
        decreases n - pw,
    {
        proof {
            lemma_pow2_unfold((p + 1) as nat);
            lemma2_to64();
        }
        pw = pw * 2;
        p += 1;
    }
    proof {
        lemma_pow2_unfold((p + 1) as nat);
        lemma_bit_length(n as nat, p as nat);
    }
    let two52: u64 = 4503599627370496;
    assert(two52 == pow2(52));
    if p <= 52 {
        let m = two52 / pw;
        proof {
            vstd::arithmetic::power2::lemma_pow2_subtracts(p as nat, 52);
            lemma_pow2_adds(p as nat, (52 - p) as nat);
            assert(pw * m == two52);
            assert(n * m < 2 * two52 && n * m >= two52) by (nonlinear_arith)
                requires pw * m == two52, pw <= n, n < 2 * pw, m > 0;
        }
        (p + 1023) * two52 + (n * m - two52)
    } else {
        let d = pw / two52;
        proof {
            vstd::arithmetic::power2::lemma_pow2_subtracts(52, p as nat);
            lemma_pow2_adds(52, (p - 52) as nat);
            assert(two52 * d == pw);
            lemma_pow2_unfold((p - 52) as nat);
        }
        let q = n / d;
        let r = n % d;
        let half = d / 2;
        proof {
            assert(q >= two52 && q < 2 * two52) by (nonlinear_arith)
                requires two52 * d == pw, pw <= n, n < 2 * pw, d > 0, q == n / d;
        }
        let q2 = if r > half || (r == half && q % 2 == 1) {
            q + 1
        } else {
            q
        };
        (p + 1023) * two52 + (q2 - two52)
    }
}

/// The order key of a number's `f64` approximation.
pub fn number_order_key(n: &JsonNumber) -> (r: i128)
    ensures
        r as int == number_view(*n).order_key(),
{
    match n {
        JsonNumber::PosInt(u) => f64_pattern_of(*u) as i128,
        JsonNumber::NegInt(i) => {
            if *i < 0 {
                let mag: u64 = (0i128 - (*i as i128)) as u64;
                0i128 - (f64_pattern_of(mag) as i128)
            } else {
                f64_pattern_of(*i as u64) as i128
            }
        },
        JsonNumber::Float { bits, text } => {
            let b = bits.to_bits();
            if b >= 0x8000_0000_0000_0000 {
                0i128 - ((b - 0x8000_0000_0000_0000) as i128)
            } else {
                b as i128
            }
        },
    }
}

} // verus!
