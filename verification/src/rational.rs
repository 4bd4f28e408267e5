//! Signed fractions over `i32` with exact contracts.
//!
//! A fraction is a pair `(numerator, denominator)`; it denotes a number when
//! the denominator is not zero. Two fractions denote the same number when
//! their cross products agree, and every such number has one normal form:
//! positive denominator, numerator and denominator coprime.

use vstd::arithmetic::div_mod::*;
use vstd::arithmetic::mul::*;
use core::cmp::Ordering;
use vstd::prelude::*;
use vstd::std_specs::cmp::{PartialEqSpecImpl, PartialOrdSpecImpl};
use vstd::std_specs::convert::FromSpecImpl;
use vstd::std_specs::ops::{AddSpecImpl, DivSpecImpl, MulSpecImpl, NegSpecImpl, SubSpecImpl};

verus! {

/// A fraction `self.0 / self.1`.
#[derive(Debug, Clone, Copy)]
pub struct Rational32(pub i32, pub i32);

/// The absolute value of an integer.
pub open spec fn abs(x: int) -> nat {
    if x < 0 {
        (-x) as nat
    } else {
        x as nat
    }
}

/// The greatest common divisor, by Euclid's recursion; `gcd_nat(0, 0) == 0`.
pub open spec fn gcd_nat(a: nat, b: nat) -> nat
    decreases b,
{
    if b == 0 {
        a
    } else {
        gcd_nat(b, a % b)
    }
}

/// The least common multiple of two naturals; 0 when both are 0.
pub open spec fn lcm_nat(a: nat, b: nat) -> nat {
    if gcd_nat(a, b) == 0 {
        0
    } else {
        (a / gcd_nat(a, b)) * b
    }
}

/// `d` divides `x`.
pub open spec fn divides(d: nat, x: nat) -> bool {
    d > 0 && x % d == 0
}

pub proof fn lemma_gcd_positive(a: nat, b: nat)
    requires
        a > 0 || b > 0,
    ensures
        gcd_nat(a, b) > 0,
    decreases b,
{
    if b != 0 {
        lemma_gcd_positive(b, a % b);
    }
}

proof fn lemma_divides_linear(d: nat, q: nat, b: nat, r: nat)
    requires
        divides(d, b),
        divides(d, r),
    ensures
        divides(d, q * b + r),
{
    let kb = b / d;
    let kr = r / d;
    lemma_fundamental_div_mod(b as int, d as int);
    lemma_fundamental_div_mod(r as int, d as int);
    assert(q * b + r == (q * kb + kr) * d) by (nonlinear_arith)
        requires
            b == d * kb,
            r == d * kr,
    ;
    lemma_mod_multiples_basic((q * kb + kr) as int, d as int);
}

proof fn lemma_divides_remainder(d: nat, a: nat, b: nat)
    requires
        divides(d, a),
        divides(d, b),
        b > 0,
    ensures
        divides(d, a % b),
{
    let ka = (a / d) as int;
    let kb = (b / d) as int;
    let q = (a / b) as int;
    let r = (a % b) as int;
    let di = d as int;
    lemma_fundamental_div_mod(a as int, d as int);
    lemma_fundamental_div_mod(b as int, d as int);
    lemma_fundamental_div_mod(a as int, b as int);
    assert(r == (ka - q * kb) * di) by (nonlinear_arith)
        requires
            a == di * ka,
            b == di * kb,
            a == b * q + r,
    ;
    lemma_mod_multiples_basic(ka - q * kb, d as int);
}

/// The greatest common divisor divides both of its arguments.
pub proof fn lemma_gcd_divides(a: nat, b: nat)
    requires
        a > 0 || b > 0,
    ensures
        divides(gcd_nat(a, b), a),
        divides(gcd_nat(a, b), b),
    decreases b,
{
    lemma_gcd_positive(a, b);
    if b == 0 {
        lemma_mod_self_0(a as int);
        assert(0nat % a == 0) by {
            lemma_small_mod(0, a);
        }
    } else {
        let g = gcd_nat(b, a % b);
        lemma_gcd_divides(b, a % b);
        lemma_fundamental_div_mod(a as int, b as int);
        lemma_divides_linear(g, a / b, b, a % b);
        assert((a / b) * b + a % b == a) by (nonlinear_arith)
            requires
                a == b * (a / b) + a % b,
        ;
    }
}

/// Every common divisor of two numbers divides their greatest common divisor.
pub proof fn lemma_common_divisor_divides_gcd(d: nat, a: nat, b: nat)
    requires
        divides(d, a),
        divides(d, b),
    ensures
        divides(d, gcd_nat(a, b)),
    decreases b,
{
    if b != 0 {
        lemma_divides_remainder(d, a, b);
        lemma_common_divisor_divides_gcd(d, b, a % b);
    }
}

/// Dividing two numbers by their greatest common divisor leaves them coprime.
pub proof fn lemma_gcd_cancelled(a: nat, b: nat)
    requires
        a > 0 || b > 0,
    ensures
        gcd_nat(a / gcd_nat(a, b), b / gcd_nat(a, b)) == 1,
        a == gcd_nat(a, b) * (a / gcd_nat(a, b)),
        b == gcd_nat(a, b) * (b / gcd_nat(a, b)),
{
    let g = gcd_nat(a, b);
    lemma_gcd_divides(a, b);
    lemma_fundamental_div_mod(a as int, g as int);
    lemma_fundamental_div_mod(b as int, g as int);
    let x = a / g;
    let y = b / g;
    assert(x > 0 || y > 0) by (nonlinear_arith)
        requires
            a == g * x,
            b == g * y,
            a > 0 || b > 0,
    ;
    let h = gcd_nat(x, y);
    lemma_gcd_divides(x, y);
    lemma_fundamental_div_mod(x as int, h as int);
    lemma_fundamental_div_mod(y as int, h as int);
    let gh = g * h;
    assert(gh >= g && gh > 0 && (h > 1 ==> gh > g)) by (nonlinear_arith)
        requires
            gh == g * h,
            g > 0,
            h > 0,
    ;
    assert(a == (x / h) * gh) by (nonlinear_arith)
        requires
            a == g * x,
            x == h * (x / h),
            gh == g * h,
    ;
    assert(b == (y / h) * gh) by (nonlinear_arith)
        requires
            b == g * y,
            y == h * (y / h),
            gh == g * h,
    ;
    lemma_mod_multiples_basic((x / h) as int, gh as int);
    lemma_mod_multiples_basic((y / h) as int, gh as int);
    lemma_common_divisor_divides_gcd(gh, a, b);
    if h > 1 {
        lemma_small_mod(g, gh);
    }
}

/// A common factor can be taken out of a greatest common divisor.
pub proof fn lemma_gcd_scales(k: nat, a: nat, b: nat)
    requires
        k > 0,
    ensures
        gcd_nat(k * a, k * b) == k * gcd_nat(a, b),
    decreases b,
{
    if b == 0 {
        assert(k * b == 0) by (nonlinear_arith)
            requires
                b == 0,
        ;
    } else {
        assert(k * b > 0) by (nonlinear_arith)
            requires
                k > 0,
                b > 0,
        ;
        lemma_truncate_middle(a as int, k as int, b as int);
        lemma_gcd_scales(k, b, a % b);
    }
}

/// Euclid's lemma: a divisor of a product that is coprime to one factor
/// divides the other.
pub proof fn lemma_coprime_divides_product(d: nat, n: nat, m: nat)
    requires
        divides(d, n * m),
        gcd_nat(d, n) == 1,
    ensures
        divides(d, m),
{
    if m == 0 {
        lemma_small_mod(0, d);
    } else {
        lemma_gcd_scales(m, d, n);
        assert(m * d == d * m && m * n == n * m && m * 1 == m) by (nonlinear_arith);
        lemma_mod_multiples_basic(m as int, d as int);
        lemma_common_divisor_divides_gcd(d, d * m, n * m);
    }
}

pub proof fn lemma_gcd_symmetric(a: nat, b: nat)
    ensures
        gcd_nat(a, b) == gcd_nat(b, a),
{
    if a == 0 && b == 0 {
    } else {
        let g = gcd_nat(a, b);
        let h = gcd_nat(b, a);
        lemma_gcd_divides(a, b);
        lemma_gcd_divides(b, a);
        lemma_common_divisor_divides_gcd(g, b, a);
        lemma_common_divisor_divides_gcd(h, a, b);
        lemma_divides_each_other(g, h);
    }
}

proof fn lemma_divides_each_other(g: nat, h: nat)
    requires
        divides(g, h),
        divides(h, g),
    ensures
        g == h,
{
    if g < h {
        lemma_small_mod(g, h);
    } else if h < g {
        lemma_small_mod(h, g);
    }
}

/// The magnitude of an `i32`, which always fits a `u32`.
pub fn magnitude(x: i32) -> (m: u32)
    ensures
        m == abs(x as int),
{
    if x < 0 {
        (0 - x as i64) as u32
    } else {
        x as u32
    }
}

fn gcd_u32(a: u32, b: u32) -> (g: u32)
    ensures
        g == gcd_nat(a as nat, b as nat),
{
    let mut x = a;
    let mut y = b;
    while y != 0
        invariant
            gcd_nat(x as nat, y as nat) == gcd_nat(a as nat, b as nat),
        decreases y,
    {
        let t = x % y;
        x = y;
        y = t;
    }
    x
}

fn gcd_u64(a: u64, b: u64) -> (g: u64)
    ensures
        g == gcd_nat(a as nat, b as nat),
{
    let mut x = a;
    let mut y = b;
    while y != 0
        invariant
            gcd_nat(x as nat, y as nat) == gcd_nat(a as nat, b as nat),
        decreases y,
    {
        let t = x % y;
        x = y;
        y = t;
    }
    x
}

/// The numerator of the normal form of `n / d`.
pub open spec fn norm_num(n: int, d: int) -> int {
    let m = (abs(n) / gcd_nat(abs(n), abs(d))) as int;
    if (n < 0) != (d < 0) {
        -m
    } else {
        m
    }
}

/// The denominator of the normal form of `n / d`.
pub open spec fn norm_den(n: int, d: int) -> int {
    (abs(d) / gcd_nat(abs(n), abs(d))) as int
}

/// The normal form of `n / d` has a positive denominator, is in lowest
/// terms and denotes the same number.
pub proof fn lemma_norm(n: int, d: int)
    requires
        d != 0,
    ensures
        norm_den(n, d) > 0,
        norm_den(n, d) <= abs(d),
        abs(norm_num(n, d)) <= abs(n),
        gcd_nat(abs(norm_num(n, d)), abs(norm_den(n, d))) == 1,
        norm_num(n, d) * d == n * norm_den(n, d),
        (norm_num(n, d) == 0) == (n == 0),
{
    let a = abs(n);
    let b = abs(d);
    let g = gcd_nat(a, b);
    lemma_gcd_positive(a, b);
    lemma_gcd_cancelled(a, b);
    let x = a / g;
    let y = b / g;
    assert(y > 0 && y <= b && x <= a && ((x == 0) == (a == 0))) by (nonlinear_arith)
        requires
            b == g * y,
            a == g * x,
            b > 0,
            g > 0,
    ;
    assert(abs(norm_num(n, d)) == x);
    assert(abs(norm_den(n, d)) == y);
    let rn = norm_num(n, d);
    let rd = norm_den(n, d);
    let (gi, xi, yi) = (g as int, x as int, y as int);
    if n >= 0 && d > 0 {
        assert(rn * d == n * rd) by (nonlinear_arith)
            requires
                n == gi * xi,
                d == gi * yi,
                rd == yi,
                rn == xi,
        ;
    } else if n >= 0 && d < 0 {
        assert(rn * d == n * rd) by (nonlinear_arith)
            requires
                n == gi * xi,
                -d == gi * yi,
                rd == yi,
                rn == -xi,
        ;
    } else if n < 0 && d > 0 {
        assert(rn * d == n * rd) by (nonlinear_arith)
            requires
                -n == gi * xi,
                d == gi * yi,
                rd == yi,
                rn == -xi,
        ;
    } else {
        assert(rn * d == n * rd) by (nonlinear_arith)
            requires
                -n == gi * xi,
                -d == gi * yi,
                rd == yi,
                rn == xi,
        ;
    }
}

/// Two fractions in lowest terms with positive denominators that denote
/// the same number are the same pair.
pub proof fn lemma_lowest_terms_unique(p1: int, q1: int, p2: int, q2: int)
    requires
        q1 > 0,
        q2 > 0,
        gcd_nat(abs(p1), abs(q1)) == 1,
        gcd_nat(abs(p2), abs(q2)) == 1,
        p1 * q2 == p2 * q1,
    ensures
        p1 == p2,
        q1 == q2,
{
    let a1 = abs(p1);
    let a2 = abs(p2);
    let b1 = q1 as nat;
    let b2 = q2 as nat;
    assert(a1 * b2 == a2 * b1) by (nonlinear_arith)
        requires
            p1 * q2 == p2 * q1,
            q1 > 0,
            q2 > 0,
            b1 == q1,
            b2 == q2,
            a1 == p1 || a1 == -p1,
            a2 == p2 || a2 == -p2,
            a1 >= 0,
            a2 >= 0,
    ;
    lemma_gcd_symmetric(a1, b1);
    lemma_gcd_symmetric(a2, b2);
    assert(a2 * b1 == b1 * a2 && a1 * b2 == b2 * a1) by (nonlinear_arith);
    lemma_mod_multiples_basic(a2 as int, b1 as int);
    lemma_mod_multiples_basic(a1 as int, b2 as int);
    lemma_coprime_divides_product(b1, a1, b2);
    lemma_coprime_divides_product(b2, a2, b1);
    lemma_divides_each_other(b1, b2);
    assert(p1 == p2) by (nonlinear_arith)
        requires
            p1 * q2 == p2 * q1,
            q1 == q2,
            q1 > 0,
    ;
}

/// Fractions that denote the same number have the same normal form.
pub proof fn lemma_norm_unique(n1: int, d1: int, n2: int, d2: int)
    requires
        d1 != 0,
        d2 != 0,
        n1 * d2 == n2 * d1,
    ensures
        norm_num(n1, d1) == norm_num(n2, d2),
        norm_den(n1, d1) == norm_den(n2, d2),
{
    lemma_norm(n1, d1);
    lemma_norm(n2, d2);
    let p1 = norm_num(n1, d1);
    let q1 = norm_den(n1, d1);
    let p2 = norm_num(n2, d2);
    let q2 = norm_den(n2, d2);
    assert((p1 * q2 - p2 * q1) * (d1 * d2) == 0) by (nonlinear_arith)
        requires
            p1 * d1 == n1 * q1,
            p2 * d2 == n2 * q2,
            n1 * d2 == n2 * d1,
    ;
    assert(p1 * q2 == p2 * q1) by (nonlinear_arith)
        requires
            (p1 * q2 - p2 * q1) * (d1 * d2) == 0,
            d1 != 0,
            d2 != 0,
    ;
    lemma_lowest_terms_unique(p1, q1, p2, q2);
}

/// A fraction in lowest terms with a positive denominator is its own
/// normal form.
pub proof fn lemma_norm_of_normal(n: int, d: int)
    requires
        d > 0,
        gcd_nat(abs(n), abs(d)) == 1,
    ensures
        norm_num(n, d) == n,
        norm_den(n, d) == d,
{
    lemma_norm(n, d);
    lemma_lowest_terms_unique(norm_num(n, d), norm_den(n, d), n, d);
}

/// The greatest common divisor of the magnitudes of `a` and `b`.
pub fn gcd(a: i32, b: i32) -> (g: i32)
    requires
        gcd_nat(abs(a as int), abs(b as int)) <= i32::MAX,
    ensures
        g == gcd_nat(abs(a as int), abs(b as int)),
{
    gcd_u32(magnitude(a), magnitude(b)) as i32
}

/// The least common multiple of the magnitudes of `a` and `b`.
pub fn lcm(a: i32, b: i32) -> (l: i32)
    requires
        a != 0 || b != 0,
        lcm_nat(abs(a as int), abs(b as int)) <= i32::MAX,
    ensures
        l == lcm_nat(abs(a as int), abs(b as int)),
{
    let ma = magnitude(a);
    let mb = magnitude(b);
    let g = gcd_u32(ma, mb);
    proof {
        lemma_gcd_positive(ma as nat, mb as nat);
    }
    let q = (ma / g) as u64;
    let l = q * (mb as u64);
    l as i32
}

impl Rational32 {
    /// The fraction denotes a number.
    pub open spec fn wf(self) -> bool {
        self.1 != 0
    }

    /// Positive denominator, numerator and denominator coprime.
    pub open spec fn normal(self) -> bool {
        self.1 > 0 && gcd_nat(abs(self.0 as int), abs(self.1 as int)) == 1
    }

    /// Both fractions denote the same number.
    pub open spec fn same_value(self, other: Rational32) -> bool {
        self.0 * other.1 == other.0 * self.1
    }

    /// The fraction denotes a smaller number than `other`.
    pub open spec fn less_value(self, other: Rational32) -> bool {
        if (self.1 < 0) == (other.1 < 0) {
            self.0 * other.1 < other.0 * self.1
        } else {
            self.0 * other.1 > other.0 * self.1
        }
    }

    /// The numerator of the normal form.
    pub open spec fn reduced_num(self) -> int {
        norm_num(self.0 as int, self.1 as int)
    }

    /// The denominator of the normal form.
    pub open spec fn reduced_den(self) -> int {
        norm_den(self.0 as int, self.1 as int)
    }

    /// The normal form can be held in two `i32`.
    pub open spec fn reduce_fits(self) -> bool {
        &&& self.1 != 0
        &&& i32::MIN <= self.reduced_num() <= i32::MAX
        &&& self.reduced_den() <= i32::MAX
    }

    /// The normal form of the fraction.
    pub open spec fn reduced(self) -> Rational32 {
        Rational32(self.reduced_num() as i32, self.reduced_den() as i32)
    }

    /// The numerator of a sum: that of the normal form of the exact sum.
    pub open spec fn sum_num(self, rhs: Rational32) -> int {
        norm_num(self.0 * rhs.1 + rhs.0 * self.1, self.1 * rhs.1)
    }

    /// The denominator of a sum: that of the normal form of the exact sum.
    pub open spec fn sum_den(self, rhs: Rational32) -> int {
        norm_den(self.0 * rhs.1 + rhs.0 * self.1, self.1 * rhs.1)
    }

    /// The normal form of the exact sum can be held in two `i32`.
    pub open spec fn sum_fits(self, rhs: Rational32) -> bool {
        &&& self.1 != 0
        &&& rhs.1 != 0
        &&& i32::MIN <= self.sum_num(rhs) <= i32::MAX
        &&& self.sum_den(rhs) <= i32::MAX
    }

    /// The normal form of the exact sum.
    pub open spec fn sum(self, rhs: Rational32) -> Rational32 {
        Rational32(self.sum_num(rhs) as i32, self.sum_den(rhs) as i32)
    }

    pub open spec fn negated(self) -> Rational32 {
        Rational32((-self.0) as i32, self.1)
    }

    /// The numerator of a difference: that of the normal form of the exact
    /// difference.
    pub open spec fn difference_num(self, rhs: Rational32) -> int {
        norm_num(self.0 * rhs.1 - rhs.0 * self.1, self.1 * rhs.1)
    }

    /// The denominator of a difference: that of the normal form of the
    /// exact difference.
    pub open spec fn difference_den(self, rhs: Rational32) -> int {
        norm_den(self.0 * rhs.1 - rhs.0 * self.1, self.1 * rhs.1)
    }

    /// The normal form of the exact difference can be held in two `i32`.
    pub open spec fn difference_fits(self, rhs: Rational32) -> bool {
        &&& self.1 != 0
        &&& rhs.1 != 0
        &&& i32::MIN <= self.difference_num(rhs) <= i32::MAX
        &&& self.difference_den(rhs) <= i32::MAX
    }

    /// The normal form of the exact difference.
    pub open spec fn difference(self, rhs: Rational32) -> Rational32 {
        Rational32(self.difference_num(rhs) as i32, self.difference_den(rhs) as i32)
    }

    pub open spec fn product_fits(self, rhs: Rational32) -> bool {
        &&& self.1 != 0
        &&& rhs.1 != 0
        &&& i32::MIN <= norm_num(self.0 * rhs.0, self.1 * rhs.1) <= i32::MAX
        &&& norm_den(self.0 * rhs.0, self.1 * rhs.1) <= i32::MAX
    }

    /// The normal form of the exact product.
    pub open spec fn product(self, rhs: Rational32) -> Rational32 {
        Rational32(
            norm_num(self.0 * rhs.0, self.1 * rhs.1) as i32,
            norm_den(self.0 * rhs.0, self.1 * rhs.1) as i32,
        )
    }

    pub open spec fn quotient_fits(self, rhs: Rational32) -> bool {
        &&& self.1 != 0
        &&& rhs.1 != 0
        &&& rhs.0 != 0
        &&& i32::MIN <= norm_num(self.0 * rhs.1, self.1 * rhs.0) <= i32::MAX
        &&& norm_den(self.0 * rhs.1, self.1 * rhs.0) <= i32::MAX
    }

    /// The normal form of the exact quotient.
    pub open spec fn quotient(self, rhs: Rational32) -> Rational32 {
        Rational32(
            norm_num(self.0 * rhs.1, self.1 * rhs.0) as i32,
            norm_den(self.0 * rhs.1, self.1 * rhs.0) as i32,
        )
    }

    /// The denominator that `reduct_to` gives: the least common multiple of
    /// the normal form's denominator and the magnitude of `denom`.
    pub open spec fn scaled_den(self, denom: int) -> int {
        lcm_nat(self.reduced_den() as nat, abs(denom)) as int
    }

    pub open spec fn scaled_num(self, denom: int) -> int {
        self.reduced_num() * (self.scaled_den(denom) / self.reduced_den())
    }

    pub open spec fn scale_fits(self, denom: int) -> bool {
        &&& denom != 0
        &&& self.reduce_fits()
        &&& self.scaled_den(denom) <= i32::MAX
        &&& i32::MIN <= self.scaled_num(denom) <= i32::MAX
    }

    pub open spec fn scaled(self, denom: int) -> Rational32 {
        Rational32(self.scaled_num(denom) as i32, self.scaled_den(denom) as i32)
    }

    pub fn zero() -> (r: Self)
        ensures
            r == Rational32(0, 1),
    {
        Self(0, 1)
    }

    pub fn numer(&self) -> (n: &i32)
        ensures
            *n == self.0,
    {
        &self.0
    }

    pub fn denom(&self) -> (d: &i32)
        ensures
            *d == self.1,
    {
        &self.1
    }

    /// The fraction `num / denom` with the sign carried by the numerator.
    pub fn new(num: i32, denom: i32) -> (r: Self)
        requires
            denom != 0,
            denom < 0 ==> num != i32::MIN && denom != i32::MIN,
        ensures
            r.1 > 0,
            r == if denom < 0 {
                Rational32((-num) as i32, (-denom) as i32)
            } else {
                Rational32(num, denom)
            },
            r.same_value(Rational32(num, denom)),
    {
        if denom < 0 {
            assert((-num) * denom == num * (-denom)) by (nonlinear_arith);
            Self(-num, -denom)
        } else {
            Self(num, denom)
        }
    }

    pub fn from_int<T>(num: T) -> (r: Self) where T: Into<i32>
        ensures
            r.1 == 1,
            call_ensures(T::into, (num,), r.0),
    {
        Self(num.into(), 1)
    }

    pub fn from_integer(s: i32) -> (r: Self)
        ensures
            r == Rational32(s, 1),
    {
        Self(s, 1)
    }

    pub fn is_zero(&self) -> (z: bool)
        ensures
            z == (self.0 == 0),
    {
        self.0 == 0
    }

    /// The normal form of `n / d`, computed in 64 bits.
    fn normalized(n: i64, d: i64) -> (r: Self)
        requires
            d != 0,
            n != i64::MIN,
            d != i64::MIN,
            i32::MIN <= norm_num(n as int, d as int) <= i32::MAX,
            norm_den(n as int, d as int) <= i32::MAX,
        ensures
            r.0 == norm_num(n as int, d as int),
            r.1 == norm_den(n as int, d as int),
            r.normal(),
    {
        let mn: u64 = if n < 0 {
            (0 - n) as u64
        } else {
            n as u64
        };
        let md: u64 = if d < 0 {
            (0 - d) as u64
        } else {
            d as u64
        };
        let g = gcd_u64(mn, md);
        proof {
            lemma_gcd_positive(mn as nat, md as nat);
            lemma_norm(n as int, d as int);
        }
        let qn = (mn / g) as i64;
        let qd = (md / g) as i64;
        let num = if (n < 0) != (d < 0) {
            0 - qn
        } else {
            qn
        };
        Self(num as i32, qd as i32)
    }

    /// The normal form: both parts divided by their greatest common
    /// divisor, the denominator made positive.
    pub fn reduce(self) -> (r: Self)
        requires
            self.reduce_fits(),
        ensures
            r == self.reduced(),
            r.normal(),
            r.same_value(self),
    {
        proof {
            lemma_norm(self.0 as int, self.1 as int);
        }
        Self::normalized(self.0 as i64, self.1 as i64)
    }

    /// The fraction over the least common multiple of its normal form's
    /// denominator and `denom`, not reduced further.
    pub fn reduct_to(self, denom: i32) -> (r: Self)
        requires
            self.scale_fits(denom as int),
        ensures
            r == self.scaled(denom as int),
            r.1 > 0,
            r.1 as nat % abs(denom as int) == 0,
            r.same_value(self),
    {
        let reduced = self.reduce();
        let target = Self::common_denominator(reduced.1, magnitude(denom));
        let ghost y = target.1 as int;
        let factor = target.1 as i64;
        proof {
            self.lemma_scaled(denom as int);
            lemma_norm(self.0 as int, self.1 as int);
            assert(reduced.1 == self.reduced_den());
            assert(reduced.0 == self.reduced_num());
            assert(target.0 == self.scaled_den(denom as int));
            assert(y <= target.0) by (nonlinear_arith)
                requires
                    target.0 == y * reduced.1,
                    reduced.1 >= 1,
                    y >= 0,
            ;
            assert(-0x8000_0000 * 0x8000_0000 <= reduced.0 * y <= 0x8000_0000 * 0x8000_0000)
                by (nonlinear_arith)
                requires
                    -0x8000_0000 <= reduced.0 <= 0x8000_0000,
                    0 <= y <= 0x8000_0000,
            ;
        }
        let num = reduced.0 as i64 * factor;
        Self(num as i32, target.0 as i32)
    }

    /// The least common multiple of a positive `a` and `b`, with the factor
    /// `lcm / a`.
    fn common_denominator(a: i32, b: u32) -> (r: (u64, u32))
        requires
            a > 0,
            b > 0,
        ensures
            r.0 == lcm_nat(a as nat, b as nat),
            r.0 > 0,
            r.1 == r.0 as int / a as int,
            r.0 == r.1 * a,
            r.0 % b as u64 == 0,
    {
        let g = gcd_u32(a as u32, b);
        proof {
            lemma_lcm(a as nat, b as nat);
        }
        let x = (a as u32) / g;
        let y = b / g;
        assert(x * b <= 0x8000_0000 * 0xFFFF_FFFF) by (nonlinear_arith)
            requires
                0 <= x <= 0x8000_0000,
                0 <= b <= 0xFFFF_FFFF,
        ;
        let l = x as u64 * b as u64;
        (l, y)
    }

    /// What the scaled fraction is worth.
    pub proof fn lemma_scaled(self, denom: int)
        requires
            self.wf(),
            denom != 0,
        ensures
            self.scaled_den(denom) > 0,
            self.scaled_den(denom) % (abs(denom) as int) == 0,
            self.scaled_den(denom) % self.reduced_den() == 0,
            self.scaled_num(denom) * self.1 == self.0 * self.scaled_den(denom),
    {
        lemma_norm(self.0 as int, self.1 as int);
        let rd = self.reduced_den();
        let rn = self.reduced_num();
        lemma_lcm(rd as nat, abs(denom));
        let l = self.scaled_den(denom);
        let f = l / rd;
        let (n, d) = (self.0 as int, self.1 as int);
        assert((rn * f) * d == n * l) by (nonlinear_arith)
            requires
                rn * d == n * rd,
                l == f * rd,
        ;
    }
}

/// The least common multiple is a multiple of both arguments.
pub proof fn lemma_lcm(a: nat, b: nat)
    requires
        a > 0,
        b > 0,
    ensures
        lcm_nat(a, b) > 0,
        lcm_nat(a, b) == (a / gcd_nat(a, b)) * b,
        lcm_nat(a, b) == (b / gcd_nat(a, b)) * a,
        lcm_nat(a, b) as int / a as int == b / gcd_nat(a, b),
        lcm_nat(a, b) as int / b as int == a / gcd_nat(a, b),
        lcm_nat(a, b) % a == 0,
        lcm_nat(a, b) % b == 0,
        gcd_nat(a, b) > 0,
        a == gcd_nat(a, b) * (a / gcd_nat(a, b)),
        b == gcd_nat(a, b) * (b / gcd_nat(a, b)),
{
    let g = gcd_nat(a, b);
    lemma_gcd_positive(a, b);
    lemma_gcd_cancelled(a, b);
    let x = a / g;
    let y = b / g;
    let l = lcm_nat(a, b);
    assert(l == y * a && l == x * b && l > 0 && x > 0 && y > 0) by (nonlinear_arith)
        requires
            l == x * b,
            a == g * x,
            b == g * y,
            a > 0,
            b > 0,
            g > 0,
    ;
    lemma_div_by_multiple(y as int, a as int);
    lemma_div_by_multiple(x as int, b as int);
    lemma_mod_multiples_basic(y as int, a as int);
    lemma_mod_multiples_basic(x as int, b as int);
}

/// Whether `a` and `b` denote the same number.
fn same_number(a: Rational32, b: Rational32) -> (r: bool)
    ensures
        r == a.same_value(b),
{
    proof {
        lemma_i32_product_bounds(a.0 as int, b.1 as int);
        lemma_i32_product_bounds(b.0 as int, a.1 as int);
    }
    a.0 as i64 * b.1 as i64 == b.0 as i64 * a.1 as i64
}

/// Whether `a` denotes a smaller number than `b`.
fn smaller_number(a: Rational32, b: Rational32) -> (r: bool)
    ensures
        r == a.less_value(b),
{
    proof {
        lemma_i32_product_bounds(a.0 as int, b.1 as int);
        lemma_i32_product_bounds(b.0 as int, a.1 as int);
    }
    let l = a.0 as i64 * b.1 as i64;
    let r = b.0 as i64 * a.1 as i64;
    if (a.1 < 0) == (b.1 < 0) {
        l < r
    } else {
        l > r
    }
}

proof fn lemma_i32_product_bounds(x: int, y: int)
    requires
        i32::MIN <= x <= i32::MAX,
        i32::MIN <= y <= i32::MAX,
    ensures
        -0x4000_0000_0000_0000 <= x * y <= 0x4000_0000_0000_0000,
{
    assert(-0x4000_0000_0000_0000 <= x * y <= 0x4000_0000_0000_0000) by (nonlinear_arith)
        requires
            -0x8000_0000 <= x <= 0x8000_0000,
            -0x8000_0000 <= y <= 0x8000_0000,
    ;
}

/// How far the sum and the difference of two products of 32-bit numbers
/// can go, and when the sum goes as far as it can.
proof fn lemma_sum_edges(a: int, b: int, c: int, d: int)
    requires
        i32::MIN <= a <= i32::MAX,
        i32::MIN <= b <= i32::MAX,
        i32::MIN <= c <= i32::MAX,
        i32::MIN <= d <= i32::MAX,
        b != 0,
        d != 0,
    ensures
        -0x8000_0000_0000_0000 < a * d + c * b <= 0x8000_0000_0000_0000,
        -0x8000_0000_0000_0000 < a * d - c * b < 0x8000_0000_0000_0000,
        a * d + c * b == 0x8000_0000_0000_0000 ==> b * d == 0x4000_0000_0000_0000,
        b * d != 0,
        -0x4000_0000_0000_0000 <= b * d <= 0x4000_0000_0000_0000,
{
    assert(-0x4000_0000_0000_0000 + 0x8000_0000 <= a * d <= 0x4000_0000_0000_0000 && (a * d
        == 0x4000_0000_0000_0000 ==> a == -0x8000_0000 && d == -0x8000_0000)) by (nonlinear_arith)
        requires
            -0x8000_0000 <= a <= 0x7FFF_FFFF,
            -0x8000_0000 <= d <= 0x7FFF_FFFF,
    ;
    assert(-0x4000_0000_0000_0000 + 0x8000_0000 <= c * b <= 0x4000_0000_0000_0000 && (c * b
        == 0x4000_0000_0000_0000 ==> c == -0x8000_0000 && b == -0x8000_0000)) by (nonlinear_arith)
        requires
            -0x8000_0000 <= c <= 0x7FFF_FFFF,
            -0x8000_0000 <= b <= 0x7FFF_FFFF,
    ;
    assert(b * d != 0 && -0x4000_0000_0000_0000 <= b * d <= 0x4000_0000_0000_0000 && (b
        == -0x8000_0000 && d == -0x8000_0000 ==> b * d == 0x4000_0000_0000_0000))
        by (nonlinear_arith)
        requires
            -0x8000_0000 <= b <= 0x7FFF_FFFF,
            -0x8000_0000 <= d <= 0x7FFF_FFFF,
            b != 0,
            d != 0,
    ;
}

impl PartialEq for Rational32 {
    /// Equal when both denote the same number.
    fn eq(&self, other: &Rational32) -> (r: bool) {
        same_number(*self, *other)
    }
}

impl PartialEqSpecImpl for Rational32 {
    open spec fn obeys_eq_spec() -> bool {
        true
    }

    open spec fn eq_spec(&self, other: &Rational32) -> bool {
        self.same_value(*other)
    }
}

impl PartialOrd for Rational32 {
    /// Ordered as the numbers that the fractions denote.
    fn partial_cmp(&self, other: &Rational32) -> (r: Option<Ordering>) {
        if smaller_number(*self, *other) {
            Some(Ordering::Less)
        } else if smaller_number(*other, *self) {
            Some(Ordering::Greater)
        } else {
            Some(Ordering::Equal)
        }
    }
}

impl PartialOrdSpecImpl for Rational32 {
    open spec fn obeys_partial_cmp_spec() -> bool {
        true
    }

    open spec fn partial_cmp_spec(&self, other: &Rational32) -> Option<Ordering> {
        if self.less_value(*other) {
            Some(Ordering::Less)
        } else if other.less_value(*self) {
            Some(Ordering::Greater)
        } else {
            Some(Ordering::Equal)
        }
    }
}

impl Default for Rational32 {
    fn default() -> (r: Self)
        ensures
            r == Rational32(0, 1),
    {
        Rational32(0, 1)
    }
}

impl From<i32> for Rational32 {
    fn from(value: i32) -> (r: Self) {
        Rational32(value, 1)
    }
}

impl FromSpecImpl<i32> for Rational32 {
    open spec fn obeys_from_spec() -> bool {
        true
    }

    open spec fn from_spec(value: i32) -> Rational32 {
        Rational32(value, 1)
    }
}

impl From<Rational32> for (i32, i32) {
    fn from(value: Rational32) -> (r: Self) {
        (value.0, value.1)
    }
}

impl FromSpecImpl<Rational32> for (i32, i32) {
    open spec fn obeys_from_spec() -> bool {
        true
    }

    open spec fn from_spec(value: Rational32) -> (i32, i32) {
        (value.0, value.1)
    }
}

impl core::ops::Neg for Rational32 {
    type Output = Rational32;

    fn neg(self) -> (r: Rational32) {
        Rational32(-self.0, self.1)
    }
}

impl NegSpecImpl for Rational32 {
    open spec fn obeys_neg_spec() -> bool {
        true
    }

    open spec fn neg_req(self) -> bool {
        self.0 != i32::MIN
    }

    open spec fn neg_spec(self) -> Rational32 {
        self.negated()
    }
}

impl core::ops::Add<Rational32> for Rational32 {
    type Output = Rational32;

    /// The sum in normal form.
    fn add(self, rhs: Rational32) -> (r: Rational32) {
        self.checked_add(rhs).unwrap()
    }
}

impl AddSpecImpl<Rational32> for Rational32 {
    open spec fn obeys_add_spec() -> bool {
        true
    }

    open spec fn add_req(self, rhs: Rational32) -> bool {
        self.sum_fits(rhs)
    }

    open spec fn add_spec(self, rhs: Rational32) -> Rational32 {
        self.sum(rhs)
    }
}

impl core::ops::Sub<Rational32> for Rational32 {
    type Output = Rational32;

    /// The difference in normal form.
    fn sub(self, rhs: Rational32) -> (r: Rational32) {
        self.checked_sub(rhs).unwrap()
    }
}

impl SubSpecImpl<Rational32> for Rational32 {
    open spec fn obeys_sub_spec() -> bool {
        true
    }

    open spec fn sub_req(self, rhs: Rational32) -> bool {
        self.difference_fits(rhs)
    }

    open spec fn sub_spec(self, rhs: Rational32) -> Rational32 {
        self.difference(rhs)
    }
}

impl core::ops::Mul<Rational32> for Rational32 {
    type Output = Rational32;

    /// The product in normal form.
    fn mul(self, rhs: Rational32) -> (r: Rational32) {
        proof {
            lemma_i32_product_bounds(self.0 as int, rhs.0 as int);
            lemma_i32_product_bounds(self.1 as int, rhs.1 as int);
            assert(self.1 * rhs.1 != 0) by (nonlinear_arith)
                requires
                    self.1 != 0,
                    rhs.1 != 0,
            ;
        }
        let n = self.0 as i64 * rhs.0 as i64;
        let d = self.1 as i64 * rhs.1 as i64;
        Rational32::normalized(n, d)
    }
}

impl MulSpecImpl<Rational32> for Rational32 {
    open spec fn obeys_mul_spec() -> bool {
        true
    }

    open spec fn mul_req(self, rhs: Rational32) -> bool {
        self.product_fits(rhs)
    }

    open spec fn mul_spec(self, rhs: Rational32) -> Rational32 {
        self.product(rhs)
    }
}

impl core::ops::Mul<i32> for Rational32 {
    type Output = Rational32;

    /// The product with the whole number `rhs`, in normal form.
    fn mul(self, rhs: i32) -> (r: Rational32) {
        self.checked_mul(Rational32(rhs, 1)).unwrap()
    }
}

impl MulSpecImpl<i32> for Rational32 {
    open spec fn obeys_mul_spec() -> bool {
        true
    }

    open spec fn mul_req(self, rhs: i32) -> bool {
        self.product_fits(Rational32(rhs, 1))
    }

    open spec fn mul_spec(self, rhs: i32) -> Rational32 {
        self.product(Rational32(rhs, 1))
    }
}

impl core::ops::Div<Rational32> for Rational32 {
    type Output = Rational32;

    /// The quotient in normal form.
    fn div(self, rhs: Rational32) -> (r: Rational32) {
        proof {
            lemma_i32_product_bounds(self.0 as int, rhs.1 as int);
            lemma_i32_product_bounds(self.1 as int, rhs.0 as int);
            assert(self.1 * rhs.0 != 0) by (nonlinear_arith)
                requires
                    self.1 != 0,
                    rhs.0 != 0,
            ;
        }
        let n = self.0 as i64 * rhs.1 as i64;
        let d = self.1 as i64 * rhs.0 as i64;
        Rational32::normalized(n, d)
    }
}

impl DivSpecImpl<Rational32> for Rational32 {
    open spec fn obeys_div_spec() -> bool {
        true
    }

    open spec fn div_req(self, rhs: Rational32) -> bool {
        self.quotient_fits(rhs)
    }

    open spec fn div_spec(self, rhs: Rational32) -> Rational32 {
        self.quotient(rhs)
    }
}

impl core::ops::AddAssign<Rational32> for Rational32 {
    fn add_assign(&mut self, rhs: Rational32)
        requires
            old(self).sum_fits(rhs),
        ensures
            *final(self) == old(self).sum(rhs),
    {
        *self = *self + rhs;
    }
}

impl Rational32 {
    /// A sum is in normal form and denotes the exact sum of the two
    /// numbers: `1/6 + 1/3` is `1/2`.
    pub proof fn lemma_sum_exact(self, rhs: Rational32)
        requires
            self.wf(),
            rhs.wf(),
        ensures
            self.sum_den(rhs) > 0,
            gcd_nat(abs(self.sum_num(rhs)), abs(self.sum_den(rhs))) == 1,
            self.sum_fits(rhs) ==> self.sum(rhs).normal(),
            self.sum_num(rhs) * (self.1 * rhs.1) == (self.0 * rhs.1 + rhs.0 * self.1)
                * self.sum_den(rhs),
    {
        assert(self.1 * rhs.1 != 0) by (nonlinear_arith)
            requires
                self.1 != 0,
                rhs.1 != 0,
        ;
        lemma_norm(self.0 * rhs.1 + rhs.0 * self.1, self.1 * rhs.1);
    }

    /// A difference is in normal form and denotes the exact difference of
    /// the two numbers.
    pub proof fn lemma_difference_exact(self, rhs: Rational32)
        requires
            self.wf(),
            rhs.wf(),
        ensures
            self.difference_den(rhs) > 0,
            gcd_nat(abs(self.difference_num(rhs)), abs(self.difference_den(rhs))) == 1,
            self.difference_fits(rhs) ==> self.difference(rhs).normal(),
            self.difference_num(rhs) * (self.1 * rhs.1) == (self.0 * rhs.1 - rhs.0 * self.1)
                * self.difference_den(rhs),
    {
        assert(self.1 * rhs.1 != 0) by (nonlinear_arith)
            requires
                self.1 != 0,
                rhs.1 != 0,
        ;
        lemma_norm(self.0 * rhs.1 - rhs.0 * self.1, self.1 * rhs.1);
    }

    /// A product is in normal form and denotes the exact product.
    pub proof fn lemma_product_exact(self, rhs: Rational32)
        requires
            self.product_fits(rhs),
        ensures
            self.product(rhs).normal(),
            self.product(rhs).0 * (self.1 * rhs.1) == (self.0 * rhs.0) * self.product(rhs).1,
    {
        assert(self.1 * rhs.1 != 0) by (nonlinear_arith)
            requires
                self.1 != 0,
                rhs.1 != 0,
        ;
        lemma_norm(self.0 * rhs.0, self.1 * rhs.1);
    }

    /// A quotient is in normal form and denotes the exact quotient.
    pub proof fn lemma_quotient_exact(self, rhs: Rational32)
        requires
            self.quotient_fits(rhs),
        ensures
            self.quotient(rhs).normal(),
            self.quotient(rhs).0 * (self.1 * rhs.0) == (self.0 * rhs.1) * self.quotient(rhs).1,
    {
        assert(self.1 * rhs.0 != 0) by (nonlinear_arith)
            requires
                self.1 != 0,
                rhs.0 != 0,
        ;
        lemma_norm(self.0 * rhs.1, self.1 * rhs.0);
    }

    /// Reducing a product changes nothing, and it is the product of the
    /// reduced factors.
    pub proof fn lemma_product_of_reduced(self, rhs: Rational32)
        requires
            self.reduce_fits(),
            rhs.reduce_fits(),
            self.product_fits(rhs),
        ensures
            self.product(rhs).reduce_fits(),
            self.reduced().product_fits(rhs.reduced()),
            self.product(rhs).reduced() == self.product(rhs),
            self.product(rhs).reduced() == self.reduced().product(rhs.reduced()),
    {
        let (a, b, c, d) = (self.0 as int, self.1 as int, rhs.0 as int, rhs.1 as int);
        assert(b * d != 0) by (nonlinear_arith)
            requires
                b != 0,
                d != 0,
        ;
        lemma_norm(a * c, b * d);
        lemma_norm_of_normal(norm_num(a * c, b * d), norm_den(a * c, b * d));
        lemma_norm(a, b);
        lemma_norm(c, d);
        let (ln, ld) = (self.reduced_num(), self.reduced_den());
        let (rn, rd) = (rhs.reduced_num(), rhs.reduced_den());
        assert(ld * rd != 0) by (nonlinear_arith)
            requires
                ld > 0,
                rd > 0,
        ;
        assert((ln * rn) * (b * d) == (a * c) * (ld * rd)) by (nonlinear_arith)
            requires
                ln * b == a * ld,
                rn * d == c * rd,
        ;
        lemma_norm_unique(ln * rn, ld * rd, a * c, b * d);
    }

    /// Two fractions denote the same number exactly when their normal forms
    /// are the same pair.
    pub proof fn lemma_same_value_same_normal_form(self, other: Rational32)
        requires
            self.wf(),
            other.wf(),
        ensures
            self.same_value(other) <==> (self.reduced_num() == other.reduced_num()
                && self.reduced_den() == other.reduced_den()),
    {
        let (a, b, c, d) = (self.0 as int, self.1 as int, other.0 as int, other.1 as int);
        lemma_norm(a, b);
        lemma_norm(c, d);
        if self.same_value(other) {
            lemma_norm_unique(a, b, c, d);
        }
        if self.reduced_num() == other.reduced_num() && self.reduced_den() == other.reduced_den() {
            let p = self.reduced_num();
            let q = self.reduced_den();
            assert((a * d - c * b) * q == 0) by (nonlinear_arith)
                requires
                    p * b == a * q,
                    p * d == c * q,
            ;
            assert(a * d == c * b) by (nonlinear_arith)
                requires
                    (a * d - c * b) * q == 0,
                    q > 0,
            ;
        }
    }
}

impl Rational32 {
    /// The normal form of `n / d`, or `None` where it does not fit.
    fn try_normalized(n: i64, d: i64) -> (r: Option<Self>)
        requires
            d != 0,
            n != i64::MIN,
            d != i64::MIN,
        ensures
            r == if i32::MIN <= norm_num(n as int, d as int) <= i32::MAX && norm_den(
                n as int,
                d as int,
            ) <= i32::MAX {
                Some(
                    Rational32(norm_num(n as int, d as int) as i32, norm_den(n as int, d as int) as i32),
                )
            } else {
                None
            },
    {
        let mn: u64 = if n < 0 {
            (0 - n) as u64
        } else {
            n as u64
        };
        let md: u64 = if d < 0 {
            (0 - d) as u64
        } else {
            d as u64
        };
        let g = gcd_u64(mn, md);
        proof {
            lemma_gcd_positive(mn as nat, md as nat);
            lemma_norm(n as int, d as int);
        }
        let qn = (mn / g) as i64;
        let qd = (md / g) as i64;
        let num = if (n < 0) != (d < 0) {
            0 - qn
        } else {
            qn
        };
        if -0x8000_0000 <= num && num <= 0x7FFF_FFFF && qd <= 0x7FFF_FFFF {
            Some(Self(num as i32, qd as i32))
        } else {
            None
        }
    }

    /// The normal form, or `None` where the denominator is zero or the
    /// normal form does not fit.
    pub fn checked_reduce(self) -> (r: Option<Self>)
        ensures
            r == if self.reduce_fits() {
                Some(self.reduced())
            } else {
                None
            },
    {
        if self.1 == 0 {
            None
        } else {
            Self::try_normalized(self.0 as i64, self.1 as i64)
        }
    }

    /// The normal form of `n / d`, or `None` where it does not fit, for
    /// numbers as wide as a sum of two products of 32-bit numbers over such
    /// a product.
    fn try_normalized_wide(n: i128, d: i64) -> (r: Option<Self>)
        requires
            d != 0,
            d != i64::MIN,
            -0x8000_0000_0000_0000 < n <= 0x8000_0000_0000_0000,
            n == 0x8000_0000_0000_0000 ==> d == 0x4000_0000_0000_0000,
        ensures
            r == if i32::MIN <= norm_num(n as int, d as int) <= i32::MAX && norm_den(
                n as int,
                d as int,
            ) <= i32::MAX {
                Some(
                    Rational32(norm_num(n as int, d as int) as i32, norm_den(n as int, d as int) as i32),
                )
            } else {
                None
            },
    {
        if n == 0x8000_0000_0000_0000 {
            proof {
                reveal_with_fuel(gcd_nat, 3);
                assert(gcd_nat(2, 1) == 1);
                lemma_norm_unique(n as int, d as int, 2, 1);
                lemma_norm_of_normal(2, 1);
            }
            Some(Rational32(2, 1))
        } else {
            Self::try_normalized(n as i64, d)
        }
    }

    /// The sum in normal form, or `None` where a denominator is zero or
    /// the sum does not fit.
    pub fn checked_add(self, rhs: Rational32) -> (r: Option<Self>)
        ensures
            r == if self.sum_fits(rhs) {
                Some(self.sum(rhs))
            } else {
                None
            },
            r matches Some(sum) ==> sum.normal(),
    {
        if self.1 == 0 || rhs.1 == 0 {
            return None;
        }
        proof {
            lemma_i32_product_bounds(self.0 as int, rhs.1 as int);
            lemma_i32_product_bounds(rhs.0 as int, self.1 as int);
            lemma_i32_product_bounds(self.1 as int, rhs.1 as int);
            lemma_sum_edges(self.0 as int, self.1 as int, rhs.0 as int, rhs.1 as int);
            self.lemma_sum_exact(rhs);
        }
        let n = self.0 as i128 * rhs.1 as i128 + rhs.0 as i128 * self.1 as i128;
        let d = self.1 as i64 * rhs.1 as i64;
        Self::try_normalized_wide(n, d)
    }

    /// The negation, or `None` where the numerator has none.
    pub fn checked_neg(self) -> (r: Option<Self>)
        ensures
            r == if self.0 != i32::MIN {
                Some(self.negated())
            } else {
                None
            },
    {
        if self.0 == i32::MIN {
            None
        } else {
            Some(Rational32(-self.0, self.1))
        }
    }

    /// The difference in normal form, or `None` where a denominator is
    /// zero or the difference does not fit.
    pub fn checked_sub(self, rhs: Rational32) -> (r: Option<Self>)
        ensures
            r == if self.difference_fits(rhs) {
                Some(self.difference(rhs))
            } else {
                None
            },
            r matches Some(difference) ==> difference.normal(),
    {
        if self.1 == 0 || rhs.1 == 0 {
            return None;
        }
        proof {
            lemma_i32_product_bounds(self.0 as int, rhs.1 as int);
            lemma_i32_product_bounds(rhs.0 as int, self.1 as int);
            lemma_i32_product_bounds(self.1 as int, rhs.1 as int);
            lemma_sum_edges(self.0 as int, self.1 as int, rhs.0 as int, rhs.1 as int);
            self.lemma_difference_exact(rhs);
        }
        let n = self.0 as i128 * rhs.1 as i128 - rhs.0 as i128 * self.1 as i128;
        let d = self.1 as i64 * rhs.1 as i64;
        Self::try_normalized_wide(n, d)
    }

    /// The product in normal form, or `None` where a denominator is zero or
    /// the product does not fit.
    pub fn checked_mul(self, rhs: Rational32) -> (r: Option<Self>)
        ensures
            r == if self.product_fits(rhs) {
                Some(self.product(rhs))
            } else {
                None
            },
    {
        if self.1 == 0 || rhs.1 == 0 {
            return None;
        }
        proof {
            lemma_i32_product_bounds(self.0 as int, rhs.0 as int);
            lemma_i32_product_bounds(self.1 as int, rhs.1 as int);
            assert(self.1 * rhs.1 != 0) by (nonlinear_arith)
                requires
                    self.1 != 0,
                    rhs.1 != 0,
            ;
        }
        let n = self.0 as i64 * rhs.0 as i64;
        let d = self.1 as i64 * rhs.1 as i64;
        Rational32::try_normalized(n, d)
    }

    /// The quotient in normal form, or `None` where a denominator or the
    /// divisor is zero or the quotient does not fit.
    pub fn checked_div(self, rhs: Rational32) -> (r: Option<Self>)
        ensures
            r == if self.quotient_fits(rhs) {
                Some(self.quotient(rhs))
            } else {
                None
            },
    {
        if self.1 == 0 || rhs.1 == 0 || rhs.0 == 0 {
            return None;
        }
        proof {
            lemma_i32_product_bounds(self.0 as int, rhs.1 as int);
            lemma_i32_product_bounds(self.1 as int, rhs.0 as int);
            assert(self.1 * rhs.0 != 0) by (nonlinear_arith)
                requires
                    self.1 != 0,
                    rhs.0 != 0,
            ;
        }
        let n = self.0 as i64 * rhs.1 as i64;
        let d = self.1 as i64 * rhs.0 as i64;
        Rational32::try_normalized(n, d)
    }

    /// The fraction over the least common multiple of its normal form's
    /// denominator and `denom`, or `None` where a denominator is zero or
    /// the result does not fit.
    pub fn checked_reduct_to(self, denom: i32) -> (r: Option<Self>)
        ensures
            r == if self.scale_fits(denom as int) {
                Some(self.scaled(denom as int))
            } else {
                None
            },
    {
        if denom == 0 {
            return None;
        }
        let reduced = match self.checked_reduce() {
            Some(x) => x,
            None => {
                return None;
            },
        };
        proof {
            lemma_norm(self.0 as int, self.1 as int);
        }
        let target = Self::common_denominator(reduced.1, magnitude(denom));
        if target.0 > 0x7FFF_FFFF {
            return None;
        }
        let ghost y = target.1 as int;
        let factor = target.1 as i64;
        proof {
            assert(y <= target.0) by (nonlinear_arith)
                requires
                    target.0 == y * reduced.1,
                    reduced.1 >= 1,
                    y >= 0,
            ;
            assert(-0x8000_0000 * 0x8000_0000 <= reduced.0 * y <= 0x8000_0000 * 0x8000_0000)
                by (nonlinear_arith)
                requires
                    -0x8000_0000 <= reduced.0 <= 0x8000_0000,
                    0 <= y <= 0x8000_0000,
            ;
        }
        let num = reduced.0 as i64 * factor;
        if -0x8000_0000 <= num && num <= 0x7FFF_FFFF {
            Some(Self(num as i32, target.0 as i32))
        } else {
            None
        }
    }
}

} // verus!
