//! Numbers of the language: ratios of two 64-bit integers, with infinities
//! and not-a-number. Results that are exact and fit stay exact; others are
//! rounded to a decimal (see [`approx`]).
use vstd::prelude::*;

verus! {

/// A number: the ratio `num / den` when `den != 0`; when `den == 0`, positive
/// infinity (`num > 0`), negative infinity (`num < 0`) or not-a-number (`num == 0`).
#[derive(Debug, Clone, Copy, PartialEq, Eq, Structural)]
pub struct Number {
    pub num: i64,
    pub den: i64,
}

/// The largest denominator that a result keeps.
pub const MAX_DEN: i64 = 1_000_000_000_000_000_000;

/// The most digits after the point that a rounded result keeps.
pub const MAX_PLACES: u64 = 18;

pub open spec fn pow10(k: nat) -> int
    decreases k,
{
    if k == 0 {
        1
    } else {
        10 * pow10((k - 1) as nat)
    }
}

pub proof fn lemma_pow10_mono(a: nat, b: nat)
    requires
        a <= b,
    ensures
        1 <= pow10(a) <= pow10(b),
    decreases b,
{
    if b > a {
        lemma_pow10_mono(a, (b - 1) as nat);
    } else if a > 0 {
        lemma_pow10_mono((a - 1) as nat, (a - 1) as nat);
    }
}

pub proof fn lemma_pow10_places(k: nat)
    requires
        k <= MAX_PLACES,
    ensures
        1 <= pow10(k) <= MAX_DEN,
{
    lemma_pow10_mono(k, MAX_PLACES as nat);
    reveal_with_fuel(pow10, 19);
    assert(pow10(18) == 1_000_000_000_000_000_000);
}

/// The sign of an integer: -1, 0 or 1.
pub open spec fn sgn(x: int) -> int {
    if x > 0 {
        1
    } else if x < 0 {
        -1
    } else {
        0
    }
}

/// The product of `x` and the sign `y` (-1, 0 or 1).
pub open spec fn signed(x: int, y: int) -> int {
    if y < 0 {
        -x
    } else if y == 0 {
        0
    } else {
        x
    }
}

pub open spec fn abs(x: int) -> nat {
    if x < 0 {
        (-x) as nat
    } else {
        x as nat
    }
}

pub open spec fn nan() -> Number {
    Number { num: 0, den: 0 }
}

pub open spec fn zero() -> Number {
    Number { num: 0, den: 1 }
}

/// The infinity with the sign of `s` (positive where `s >= 0`).
pub open spec fn infinity(s: int) -> Number {
    Number { num: if s < 0 { -1i64 } else { 1i64 }, den: 0i64 }
}

impl Number {
    pub open spec fn is_nan(self) -> bool {
        self.den == 0 && self.num == 0
    }

    pub open spec fn is_finite(self) -> bool {
        self.den != 0
    }

    /// The sign of the number: -1, 0 or 1 (0 for not-a-number).
    pub open spec fn sign(self) -> int {
        signed(sgn(self.num as int), if self.den == 0 { 1 } else { sgn(self.den as int) })
    }

    /// The number `num / den` (an infinity or not-a-number where `den == 0`).
    pub fn ratio(num: i64, den: i64) -> (r: Number)
        ensures
            r.num == num,
            r.den == den,
    {
        Number { num, den }
    }
}

/// A number in the form that results take: an infinity or not-a-number
/// with `num` in -1..=1, or a ratio with `|num| <= i64::MAX` and
/// `1 <= den <= MAX_DEN`.
pub open spec fn tidy(x: Number) -> bool {
    if x.den == 0 {
        -1 <= x.num <= 1
    } else {
        x.num > i64::MIN && 1 <= x.den <= MAX_DEN
    }
}

/// `n * 10^k / d`, rounded to the nearest integer, halves up.
pub open spec fn scaled(n: nat, d: nat, k: nat) -> int {
    (n * pow10(k)) / (d as int) + if 2 * ((n * pow10(k)) % (d as int)) >= d { 1int } else { 0int }
}

/// How many digits after the point a rounded `n / d` keeps: digits are taken
/// one by one, up to `MAX_PLACES`, while the rounded value still fits in an `i64`.
pub open spec fn places(n: nat, d: nat, k: nat) -> nat
    decreases MAX_PLACES - k,
{
    if k < MAX_PLACES && scaled(n, d, k + 1) <= i64::MAX {
        places(n, d, k + 1)
    } else {
        k
    }
}

/// The greatest common divisor of `a` and `b`, by Euclid's algorithm.
pub open spec fn gcd(a: nat, b: nat) -> nat
    decreases b,
{
    if b == 0 {
        a
    } else {
        gcd(b, a % b)
    }
}

pub proof fn lemma_gcd_bounds(a: nat, b: nat)
    requires
        b > 0,
    ensures
        1 <= gcd(a, b) <= b,
    decreases b,
{
    assert(a % b < b);
    assert(gcd(a, b) == gcd(b, a % b));
    if a % b != 0 {
        lemma_gcd_bounds(b, a % b);
    } else {
        assert(gcd(b, 0) == b);
    }
}

pub open spec fn with_sign(negative: bool, m: int) -> int {
    if negative {
        -m
    } else {
        m
    }
}

/// The number `±n / d` (negative where `negative`), for `d >= 1`: exact where
/// `n` fits in an `i64` and `d <= MAX_DEN`, or where they do once divided by
/// their greatest common divisor; else rounded to the decimal with the most
/// digits after the point (see [`places`]) whose digits fit in an `i64`;
/// else, past the largest such decimal, an infinity.
pub open spec fn approx(negative: bool, n: nat, d: nat) -> Number {
    let g = gcd(n, d);
    if n <= i64::MAX && 1 <= d <= MAX_DEN {
        Number { num: with_sign(negative, n as int) as i64, den: d as i64 }
    } else if n / g <= i64::MAX && 1 <= d / g <= MAX_DEN {
        Number { num: with_sign(negative, (n / g) as int) as i64, den: (d / g) as i64 }
    } else if scaled(n, d, 0) > i64::MAX {
        infinity(if negative { -1 } else { 1 })
    } else {
        let k = places(n, d, 0);
        Number { num: with_sign(negative, scaled(n, d, k)) as i64, den: pow10(k) as i64 }
    }
}

/// A number in tidy form with the same meaning: signs moved to the
/// numerator, parts brought into range by [`approx`].
pub open spec fn clean(x: Number) -> Number {
    if x.den == 0 {
        if x.num > 0 {
            infinity(1)
        } else if x.num < 0 {
            infinity(-1)
        } else {
            nan()
        }
    } else {
        approx((x.num < 0) != (x.den < 0), abs(x.num as int), abs(x.den as int))
    }
}

/// A ratio with a nonnegative numerator and a denominator in range is
/// already tidy: cleaning leaves it as it is.
pub proof fn lemma_clean_ratio(x: Number)
    requires
        x.num >= 0,
        1 <= x.den <= MAX_DEN,
    ensures
        clean(x) == x,
{
}

/// The sum `a + b`.
pub open spec fn sum(a: Number, b: Number) -> Number {
    let (a, b) = (clean(a), clean(b));
    if a.is_nan() || b.is_nan() {
        nan()
    } else if !a.is_finite() && !b.is_finite() {
        if a.sign() == b.sign() { infinity(a.sign()) } else { nan() }
    } else if !a.is_finite() {
        infinity(a.sign())
    } else if !b.is_finite() {
        infinity(b.sign())
    } else {
        let n = a.num * b.den + b.num * a.den;
        approx(n < 0, abs(n), (a.den * b.den) as nat)
    }
}

/// The difference `a - b`.
pub open spec fn difference(a: Number, b: Number) -> Number {
    let (a, b) = (clean(a), clean(b));
    if a.is_nan() || b.is_nan() {
        nan()
    } else if !a.is_finite() && !b.is_finite() {
        if a.sign() != b.sign() { infinity(a.sign()) } else { nan() }
    } else if !a.is_finite() {
        infinity(a.sign())
    } else if !b.is_finite() {
        infinity(-b.sign())
    } else {
        let n = a.num * b.den - b.num * a.den;
        approx(n < 0, abs(n), (a.den * b.den) as nat)
    }
}

/// The product `a * b`.
pub open spec fn product(a: Number, b: Number) -> Number {
    let (a, b) = (clean(a), clean(b));
    if a.is_nan() || b.is_nan() {
        nan()
    } else if !a.is_finite() || !b.is_finite() {
        if signed(a.sign(), b.sign()) == 0 {
            nan()
        } else {
            infinity(signed(a.sign(), b.sign()))
        }
    } else {
        let n = a.num * b.num;
        approx(n < 0, abs(n), (a.den * b.den) as nat)
    }
}

/// The quotient `a / b`. Division by zero gives an infinity, or
/// not-a-number for `0 / 0`.
pub open spec fn quotient(a: Number, b: Number) -> Number {
    let (a, b) = (clean(a), clean(b));
    if a.is_nan() || b.is_nan() {
        nan()
    } else if !a.is_finite() && !b.is_finite() {
        nan()
    } else if !a.is_finite() {
        infinity(if b.sign() == 0 { a.sign() } else { signed(a.sign(), b.sign()) })
    } else if !b.is_finite() {
        zero()
    } else if b.num == 0 {
        if a.num == 0 { nan() } else { infinity(a.sign()) }
    } else {
        let n = a.num * b.den;
        let d = a.den * b.num;
        approx((n < 0) != (d < 0), abs(n), abs(d))
    }
}

/// The negation `-a`.
pub open spec fn negation(a: Number) -> Number {
    let a = clean(a);
    if a.is_nan() {
        nan()
    } else if !a.is_finite() {
        infinity(-a.sign())
    } else {
        Number { num: (-a.num) as i64, den: a.den }
    }
}

/// The sign of `a - b` for tidy numbers that are not not-a-number.
pub open spec fn order_tidy(a: Number, b: Number) -> int {
    if !a.is_finite() && !b.is_finite() {
        sgn(a.sign() - b.sign())
    } else if !a.is_finite() {
        a.sign()
    } else if !b.is_finite() {
        -b.sign()
    } else {
        sgn(a.num * b.den - b.num * a.den)
    }
}

/// The sign of `a - b` for numbers that are not not-a-number.
pub open spec fn order(a: Number, b: Number) -> int {
    order_tidy(clean(a), clean(b))
}

/// Whether `a < b`; false where either is not-a-number.
pub open spec fn less(a: Number, b: Number) -> bool {
    !a.is_nan() && !b.is_nan() && order(a, b) < 0
}

/// Whether `a <= b`; false where either is not-a-number.
pub open spec fn less_equal(a: Number, b: Number) -> bool {
    !a.is_nan() && !b.is_nan() && order(a, b) <= 0
}

/// Whether `a == b` as numbers; false where either is not-a-number.
pub open spec fn same(a: Number, b: Number) -> bool {
    !a.is_nan() && !b.is_nan() && order(a, b) == 0
}

proof fn lemma_mul_bound(x: int, y: int)
    requires
        -0x8000_0000_0000_0000 <= x <= 0x8000_0000_0000_0000,
        -0x8000_0000_0000_0000 <= y <= 0x8000_0000_0000_0000,
    ensures
        -0x4000_0000_0000_0000_0000_0000_0000_0000 <= x * y <= 0x4000_0000_0000_0000_0000_0000_0000_0000,
{
    assert(-0x4000_0000_0000_0000_0000_0000_0000_0000 <= x * y <= 0x4000_0000_0000_0000_0000_0000_0000_0000)
        by (nonlinear_arith)
        requires
            -0x8000_0000_0000_0000 <= x <= 0x8000_0000_0000_0000,
            -0x8000_0000_0000_0000 <= y <= 0x8000_0000_0000_0000,
    ;
}

/// Bounds a part of a tidy number times a denominator: below 2^123.
proof fn lemma_mul_den(x: int, y: int)
    requires
        -0x8000_0000_0000_0000 <= x <= 0x8000_0000_0000_0000,
        0 <= y <= MAX_DEN,
    ensures
        -0x0800_0000_0000_0000_0000_0000_0000_0000 < x * y < 0x0800_0000_0000_0000_0000_0000_0000_0000,
{
    assert(-0x0800_0000_0000_0000_0000_0000_0000_0000 < x * y < 0x0800_0000_0000_0000_0000_0000_0000_0000)
        by (nonlinear_arith)
        requires
            -0x8000_0000_0000_0000 <= x <= 0x8000_0000_0000_0000,
            0 <= y <= 1_000_000_000_000_000_000,
    ;
}

proof fn lemma_den_product(x: int, y: int)
    requires
        1 <= x <= MAX_DEN,
        -0x8000_0000_0000_0000 <= y <= 0x8000_0000_0000_0000,
        y != 0,
    ensures
        1 <= abs(x * y) < 0x0800_0000_0000_0000_0000_0000_0000_0000,
{
    lemma_mul_den(y, x);
    assert(abs(x * y) >= 1) by (nonlinear_arith)
        requires
            x >= 1,
            y != 0,
    ;
}

/// `x * y` computed exactly.
fn wide_mul(x: i64, y: i64) -> (r: i128)
    ensures
        r == x * y,
{
    proof {
        lemma_mul_bound(x as int, y as int);
    }
    (x as i128) * (y as i128)
}

fn magnitude(x: i128) -> (r: u128)
    requires
        x > i128::MIN,
    ensures
        r == abs(x as int),
{
    if x < 0 {
        (-x) as u128
    } else {
        x as u128
    }
}

fn sign_of(x: i128) -> (r: i64)
    ensures
        r == sgn(x as int),
{
    if x > 0 {
        1
    } else if x < 0 {
        -1
    } else {
        0
    }
}

fn sign_num(a: Number) -> (r: i64)
    ensures
        r == a.sign(),
        -1 <= r <= 1,
{
    let s = sign_of(a.num as i128);
    if a.den == 0 {
        s
    } else if a.den > 0 {
        s
    } else {
        -s
    }
}

fn make_nan() -> (r: Number)
    ensures
        r == nan(),
{
    Number { num: 0, den: 0 }
}

fn make_infinity(s: i64) -> (r: Number)
    ensures
        r == infinity(s as int),
{
    Number { num: if s < 0 { -1 } else { 1 }, den: 0 }
}

fn greatest_common_divisor(a: u128, b: u128) -> (r: u128)
    ensures
        r == gcd(a as nat, b as nat),
{
    let mut x = a;
    let mut y = b;
    while y != 0
        invariant
            gcd(x as nat, y as nat) == gcd(a as nat, b as nat),
        decreases y,
    {
        let t = x % y;
        x = y;
        y = t;
    }
    x
}

/// The number `±n / d` (see [`approx`]).
fn approximate(negative: bool, n: u128, d: u128) -> (r: Number)
    requires
        1 <= d < 0x1000_0000_0000_0000_0000_0000_0000_0000,
    ensures
        r == approx(negative, n as nat, d as nat),
        tidy(r),
{
    if n <= i64::MAX as u128 && d <= MAX_DEN as u128 {
        let m = n as i64;
        return Number { num: if negative { -m } else { m }, den: d as i64 };
    }
    let g = greatest_common_divisor(n, d);
    proof {
        lemma_gcd_bounds(n as nat, d as nat);
    }
    if n / g <= i64::MAX as u128 && d / g <= MAX_DEN as u128 && d / g >= 1 {
        let m = (n / g) as i64;
        return Number { num: if negative { -m } else { m }, den: (d / g) as i64 };
    }
    let mut q: u128 = n / d;
    let mut rem: u128 = n % d;
    proof {
        vstd::arithmetic::div_mod::lemma_fundamental_div_mod(n as int, d as int);
        assert(pow10(0) == 1);
        assert((n as int) * pow10(0) == n as int);
        assert(n as int == (q as int) * (d as int) + rem as int) by (nonlinear_arith)
            requires
                n as int == (d as int) * ((n as int) / (d as int)) + (n as int) % (d as int),
                q as int == (n as int) / (d as int),
                rem as int == (n as int) % (d as int),
        ;
    }
    if q > i64::MAX as u128 {
        return make_infinity(if negative { -1 } else { 1 });
    }
    let first = q + if 2 * rem >= d { 1 } else { 0 };
    if first > i64::MAX as u128 {
        return make_infinity(if negative { -1 } else { 1 });
    }
    let mut k: u64 = 0;
    let mut pw: i64 = 1;
    while k < MAX_PLACES
        invariant
            1 <= d < 0x1000_0000_0000_0000_0000_0000_0000_0000,
            !(n <= i64::MAX && d <= MAX_DEN),
            !((n as nat) / gcd(n as nat, d as nat) <= i64::MAX && 1 <= (d as nat) / gcd(n as nat, d as nat) <= MAX_DEN),
            k <= MAX_PLACES,
            pw == pow10(k as nat),
            n * pow10(k as nat) == q * d + rem,
            rem < d,
            q <= i64::MAX,
            scaled(n as nat, d as nat, k as nat) == q + if 2 * rem >= d { 1int } else { 0int },
            scaled(n as nat, d as nat, k as nat) <= i64::MAX,
            places(n as nat, d as nat, 0) == places(n as nat, d as nat, k as nat),
            scaled(n as nat, d as nat, 0) <= i64::MAX,
        ensures
            k <= MAX_PLACES,
            pw == pow10(k as nat),
            q <= i64::MAX,
            scaled(n as nat, d as nat, k as nat) == q + if 2 * rem >= d { 1int } else { 0int },
            scaled(n as nat, d as nat, k as nat) <= i64::MAX,
            places(n as nat, d as nat, 0) == k,
        decreases MAX_PLACES - k,
    {
        let t: u128 = 10 * rem;
        let q2: u128 = 10 * q + t / d;
        let rem2: u128 = t % d;
        proof {
            vstd::arithmetic::div_mod::lemma_fundamental_div_mod(t as int, d as int);
            assert(pow10((k + 1) as nat) == 10 * pow10(k as nat));
            assert(n * pow10((k + 1) as nat) == 10 * (n * pow10(k as nat))) by (nonlinear_arith)
                requires
                    pow10((k + 1) as nat) == 10 * pow10(k as nat),
            ;
            assert(n * pow10((k + 1) as nat) == q2 * d + rem2) by (nonlinear_arith)
                requires
                    n * pow10((k + 1) as nat) == 10 * (n * pow10(k as nat)),
                    n * pow10(k as nat) == q * d + rem,
                    t == 10 * rem,
                    t == (t / d) * d + rem2,
                    q2 == 10 * q + t / d,
            ;
            vstd::arithmetic::div_mod::lemma_fundamental_div_mod_converse(
                n * pow10((k + 1) as nat),
                d as int,
                q2 as int,
                rem2 as int,
            );
        }
        let next = q2 + if 2 * rem2 >= d { 1 } else { 0 };
        if next > i64::MAX as u128 {
            assert(scaled(n as nat, d as nat, (k + 1) as nat) > i64::MAX);
            break;
        }
        proof {
            lemma_pow10_places((k + 1) as nat);
        }
        q = q2;
        rem = rem2;
        k = k + 1;
        pw = pw * 10;
    }
    proof {
        lemma_pow10_places(k as nat);
    }
    let m = (q + if 2 * rem >= d { 1 } else { 0 }) as i64;
    Number { num: if negative { -m } else { m }, den: pw }
}

impl Number {
    /// Whether this is not-a-number.
    pub fn nan_check(&self) -> (r: bool)
        ensures
            r == self.is_nan(),
    {
        self.den == 0 && self.num == 0
    }

    /// The number in tidy form (see [`clean`]).
    pub fn tidied(&self) -> (r: Number)
        ensures
            r == clean(*self),
            tidy(r),
    {
        if self.den == 0 {
            if self.num > 0 {
                make_infinity(1)
            } else if self.num < 0 {
                make_infinity(-1)
            } else {
                make_nan()
            }
        } else {
            approximate(
                (self.num < 0) != (self.den < 0),
                magnitude(self.num as i128),
                magnitude(self.den as i128),
            )
        }
    }

    /// `self + other`.
    pub fn add(&self, other: &Number) -> (r: Number)
        ensures
            r == sum(*self, *other),
    {
        let (a, b) = (self.tidied(), other.tidied());
        if a.nan_check() || b.nan_check() {
            make_nan()
        } else if a.den == 0 && b.den == 0 {
            if sign_num(a) == sign_num(b) { make_infinity(sign_num(a)) } else { make_nan() }
        } else if a.den == 0 {
            make_infinity(sign_num(a))
        } else if b.den == 0 {
            make_infinity(sign_num(b))
        } else {
            proof {
                lemma_mul_den(a.num as int, b.den as int);
                lemma_mul_den(b.num as int, a.den as int);
                lemma_den_product(a.den as int, b.den as int);
            }
            let n = wide_mul(a.num, b.den) + wide_mul(b.num, a.den);
            let d = wide_mul(a.den, b.den);
            approximate(n < 0, magnitude(n), d as u128)
        }
    }

    /// `self - other`.
    pub fn sub(&self, other: &Number) -> (r: Number)
        ensures
            r == difference(*self, *other),
    {
        let (a, b) = (self.tidied(), other.tidied());
        if a.nan_check() || b.nan_check() {
            make_nan()
        } else if a.den == 0 && b.den == 0 {
            if sign_num(a) != sign_num(b) { make_infinity(sign_num(a)) } else { make_nan() }
        } else if a.den == 0 {
            make_infinity(sign_num(a))
        } else if b.den == 0 {
            make_infinity(-sign_num(b))
        } else {
            proof {
                lemma_mul_den(a.num as int, b.den as int);
                lemma_mul_den(b.num as int, a.den as int);
                lemma_den_product(a.den as int, b.den as int);
            }
            let n = wide_mul(a.num, b.den) - wide_mul(b.num, a.den);
            let d = wide_mul(a.den, b.den);
            approximate(n < 0, magnitude(n), d as u128)
        }
    }

    /// `self * other`.
    pub fn mul(&self, other: &Number) -> (r: Number)
        ensures
            r == product(*self, *other),
    {
        let (a, b) = (self.tidied(), other.tidied());
        if a.nan_check() || b.nan_check() {
            make_nan()
        } else if a.den == 0 || b.den == 0 {
            let sa = sign_num(a);
            let s = if sign_num(b) < 0 { -sa } else if sign_num(b) == 0 { 0 } else { sa };
            if s == 0 { make_nan() } else { make_infinity(s) }
        } else {
            proof {
                lemma_den_product(a.den as int, b.den as int);
                lemma_mul_bound(a.num as int, b.num as int);
            }
            let n = wide_mul(a.num, b.num);
            let d = wide_mul(a.den, b.den);
            approximate(n < 0, magnitude(n), d as u128)
        }
    }

    /// `self / other`.
    pub fn div(&self, other: &Number) -> (r: Number)
        ensures
            r == quotient(*self, *other),
    {
        let (a, b) = (self.tidied(), other.tidied());
        if a.nan_check() || b.nan_check() {
            make_nan()
        } else if a.den == 0 && b.den == 0 {
            make_nan()
        } else if a.den == 0 {
            let sb = sign_num(b);
            let sa = sign_num(a);
            make_infinity(if sb < 0 { -sa } else { sa })
        } else if b.den == 0 {
            Number { num: 0, den: 1 }
        } else if b.num == 0 {
            if a.num == 0 { make_nan() } else { make_infinity(sign_num(a)) }
        } else {
            proof {
                lemma_mul_den(a.num as int, b.den as int);
                lemma_den_product(a.den as int, b.num as int);
            }
            let n = wide_mul(a.num, b.den);
            let d = wide_mul(a.den, b.num);
            approximate((n < 0) != (d < 0), magnitude(n), magnitude(d))
        }
    }

    /// `-self`.
    pub fn neg(&self) -> (r: Number)
        ensures
            r == negation(*self),
    {
        let a = self.tidied();
        if a.nan_check() {
            make_nan()
        } else if a.den == 0 {
            make_infinity(-sign_num(a))
        } else {
            Number { num: -a.num, den: a.den }
        }
    }

    /// The sign of `self - other`, for numbers that are not not-a-number.
    pub fn compare(&self, other: &Number) -> (r: i64)
        requires
            !self.is_nan(),
            !other.is_nan(),
        ensures
            r == order(*self, *other),
    {
        let (a, b) = (self.tidied(), other.tidied());
        if a.den == 0 && b.den == 0 {
            sign_of((sign_num(a) - sign_num(b)) as i128)
        } else if a.den == 0 {
            sign_num(a)
        } else if b.den == 0 {
            -sign_num(b)
        } else {
            let p = wide_mul(a.num, b.den);
            let q = wide_mul(b.num, a.den);
            if p < q {
                -1
            } else if p > q {
                1
            } else {
                0
            }
        }
    }

    /// `self < other`.
    pub fn lt(&self, other: &Number) -> (r: bool)
        ensures
            r == less(*self, *other),
    {
        !self.nan_check() && !other.nan_check() && self.compare(other) < 0
    }

    /// `self <= other`.
    pub fn le(&self, other: &Number) -> (r: bool)
        ensures
            r == less_equal(*self, *other),
    {
        !self.nan_check() && !other.nan_check() && self.compare(other) <= 0
    }

    /// `self == other`, as numbers.
    pub fn same_as(&self, other: &Number) -> (r: bool)
        ensures
            r == same(*self, *other),
    {
        !self.nan_check() && !other.nan_check() && self.compare(other) == 0
    }
}

/// The decimal digit for `d < 10`.
pub open spec fn digit_of(d: int) -> char {
    if d == 0 {
        '0'
    } else if d == 1 {
        '1'
    } else if d == 2 {
        '2'
    } else if d == 3 {
        '3'
    } else if d == 4 {
        '4'
    } else if d == 5 {
        '5'
    } else if d == 6 {
        '6'
    } else if d == 7 {
        '7'
    } else if d == 8 {
        '8'
    } else {
        '9'
    }
}

/// The decimal digits of `n`, without leading zeros.
pub open spec fn decimal(n: nat) -> Seq<char>
    decreases n,
{
    if n < 10 {
        seq![digit_of(n as int)]
    } else {
        decimal(n / 10).push(digit_of((n % 10) as int))
    }
}

/// At most `k` digits of the fraction `r / d` (with `r < d`), stopping where
/// the rest is zero.
pub open spec fn fraction(r: nat, d: nat, k: nat) -> Seq<char>
    decreases k,
{
    if k == 0 || r == 0 || d == 0 {
        seq![]
    } else {
        seq![digit_of(((10 * r) / d) as int)] + fraction((10 * r) % d, d, (k - 1) as nat)
    }
}

/// How many digits after the point a number shows at most.
pub const FRACTION_DIGITS: u64 = 18;

/// The text of a number: `NaN`, `inf`, `-inf`, or its sign, the decimal
/// digits of its whole part and, where it has one, a point and up to
/// eighteen digits of its fraction.
pub open spec fn render(n: Number) -> Seq<char> {
    if n.is_nan() {
        seq!['N', 'a', 'N']
    } else if !n.is_finite() {
        if n.num > 0 { seq!['i', 'n', 'f'] } else { seq!['-', 'i', 'n', 'f'] }
    } else {
        let a = abs(n.num as int);
        let d = abs(n.den as int);
        let body = decimal(a / d) + if a % d == 0 {
            Seq::<char>::empty()
        } else {
            seq!['.'] + fraction(a % d, d, FRACTION_DIGITS as nat)
        };
        if n.sign() < 0 { seq!['-'] + body } else { body }
    }
}

fn digit_text(d: u128) -> (r: &'static str)
    requires
        d < 10,
    ensures
        r@ == seq![digit_of(d as int)],
{
    proof {
        reveal_strlit("0");
        reveal_strlit("1");
        reveal_strlit("2");
        reveal_strlit("3");
        reveal_strlit("4");
        reveal_strlit("5");
        reveal_strlit("6");
        reveal_strlit("7");
        reveal_strlit("8");
        reveal_strlit("9");
    }
    if d == 0 {
        "0"
    } else if d == 1 {
        "1"
    } else if d == 2 {
        "2"
    } else if d == 3 {
        "3"
    } else if d == 4 {
        "4"
    } else if d == 5 {
        "5"
    } else if d == 6 {
        "6"
    } else if d == 7 {
        "7"
    } else if d == 8 {
        "8"
    } else {
        "9"
    }
}

pub(crate) fn push_decimal(out: &mut String, n: u128)
    ensures
        final(out)@ == old(out)@ + decimal(n as nat),
    decreases n,
{
    if n < 10 {
        out.append(digit_text(n));
    } else {
        push_decimal(out, n / 10);
        out.append(digit_text(n % 10));
    }
}

fn push_fraction(out: &mut String, r: u128, d: u128)
    requires
        r < d <= 0x8000_0000_0000_0000,
    ensures
        final(out)@ == old(out)@ + fraction(r as nat, d as nat, FRACTION_DIGITS as nat),
{
    let ghost start = out@;
    let mut k: u64 = 0;
    let mut rem = r;
    while k < FRACTION_DIGITS && rem != 0
        invariant
            k <= FRACTION_DIGITS,
            rem < d <= 0x8000_0000_0000_0000,
            start + fraction(r as nat, d as nat, FRACTION_DIGITS as nat) == out@ + fraction(
                rem as nat,
                d as nat,
                (FRACTION_DIGITS - k) as nat,
            ),
        decreases FRACTION_DIGITS - k,
    {
        let ghost before = out@;
        let ghost rest = fraction((10 * rem as nat) % (d as nat), d as nat, (FRACTION_DIGITS - k - 1) as nat);
        assert((10 * rem as int) / (d as int) < 10) by (nonlinear_arith)
            requires
                rem < d,
                d > 0,
        ;
        out.append(digit_text((10 * rem) / d));
        assert(before + (seq![digit_of(((10 * rem as nat) / (d as nat)) as int)] + rest) == out@ + rest);
        rem = (10 * rem) % d;
        k = k + 1;
    }
    assert(fraction(rem as nat, d as nat, (FRACTION_DIGITS - k) as nat) == Seq::<char>::empty());
    assert(out@ + Seq::<char>::empty() == out@);
}

impl Number {
    /// The text of the number (see [`render`]).
    pub fn to_text(&self) -> (r: String)
        ensures
            r@ == render(*self),
    {
        let mut out = String::new();
        if self.nan_check() {
            out.append("NaN");
            proof {
                reveal_strlit("NaN");
            }
            return out;
        }
        if self.den == 0 {
            proof {
                reveal_strlit("inf");
                reveal_strlit("-inf");
            }
            if self.num > 0 {
                out.append("inf");
            } else {
                out.append("-inf");
            }
            return out;
        }
        let a: u128 = if self.num < 0 { (-(self.num as i128)) as u128 } else { self.num as u128 };
        let d: u128 = if self.den < 0 { (-(self.den as i128)) as u128 } else { self.den as u128 };
        let negative = (self.num < 0) != (self.den < 0) && self.num != 0;
        proof {
            reveal_strlit("-");
            reveal_strlit(".");
        }
        if negative {
            out.append("-");
        }
        let ghost sign_part = out@;
        push_decimal(&mut out, a / d);
        if a % d != 0 {
            let ghost whole = out@;
            out.append(".");
            push_fraction(&mut out, a % d, d);
            assert(out@ == sign_part + (decimal((a / d) as nat) + (seq!['.'] + fraction(
                (a % d) as nat,
                d as nat,
                FRACTION_DIGITS as nat,
            ))));
        } else {
            assert(out@ == sign_part + (decimal((a / d) as nat) + Seq::<char>::empty()));
        }
        out
    }
}

} // verus!
