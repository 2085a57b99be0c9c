//! Exact fractions in lowest terms.
//!
//! A [`Fraction`] is a signed numerator over a positive denominator with no
//! common factor. Every value that exists at run time is in that form, so two
//! fractions are equal as values exactly when they stand for the same number.

use vstd::arithmetic::div_mod::*;
use vstd::arithmetic::mul::*;
use vstd::prelude::*;

verus! {

/// `d` is a positive divisor of `n`.
pub open spec fn divides(d: nat, n: nat) -> bool {
    d != 0 && n % d == 0
}

/// `d` divides both `x` and `y`.
pub open spec fn is_common_divisor(d: nat, x: nat, y: nat) -> bool {
    divides(d, x) && divides(d, y)
}

/// `g` is the greatest number that divides both `x` and `y`.
pub open spec fn is_gcd(g: nat, x: nat, y: nat) -> bool {
    &&& is_common_divisor(g, x, y)
    &&& forall|d: nat| #[trigger] is_common_divisor(d, x, y) ==> d <= g
}

/// The magnitude of `n`.
pub open spec fn magnitude(n: int) -> nat {
    if n < 0 {
        (-n) as nat
    } else {
        n as nat
    }
}

/// Subtracting the smaller of two numbers from the larger keeps their common
/// divisors.
proof fn lemma_common_divisor_sub(d: nat, a: nat, b: nat)
    requires
        a >= b,
    ensures
        is_common_divisor(d, a, b) <==> is_common_divisor(d, (a - b) as nat, b),
{
    if d != 0 && b % d == 0 {
        lemma_sub_mod_noop(a as int, b as int, d as int);
        lemma_add_mod_noop((a - b) as int, b as int, d as int);
        lemma_small_mod(0, d);
    }
}

/// A positive number is the greatest common divisor of itself and zero.
proof fn lemma_gcd_with_zero(y: nat)
    requires
        y != 0,
    ensures
        is_gcd(y, 0, y),
        is_gcd(y, y, 0),
{
    lemma_mod_self_0(y as int);
    lemma_small_mod(0, y);
    assert forall|d: nat| divides(d, y) implies d <= y by {
        if d > y {
            lemma_small_mod(y, d);
        }
    }
}

/// Taking the remainder of one number by another keeps their common
/// divisors.
proof fn lemma_common_divisor_mod(d: nat, a: nat, b: nat)
    requires
        b != 0,
    ensures
        is_common_divisor(d, a, b) <==> is_common_divisor(d, a % b, b),
{
    if d != 0 && b % d == 0 {
        let (ai, bi, di) = (a as int, b as int, d as int);
        let q = ai / bi;
        let r = ai % bi;
        lemma_fundamental_div_mod(ai, bi);
        lemma_mul_mod_noop_left(bi, q, di);
        lemma_small_mod(0, d);
        assert((bi % di) * q == 0) by (nonlinear_arith)
            requires
                bi % di == 0,
        ;
        assert((bi * q) % di == 0);
        lemma_add_mod_noop(bi * q, r, di);
        lemma_mod_twice(r, di);
        assert(ai % di == r % di);
    }
}

/// Greatest common divisor, by taking remainders in turn.
///
/// Returns zero only when both arguments are zero.
pub fn gcd(x: u64, y: u64) -> (g: u64)
    ensures
        x == 0 && y == 0 ==> g == 0,
        x != 0 || y != 0 ==> is_gcd(g as nat, x as nat, y as nat),
{
    let mut a: u64 = x;
    let mut b: u64 = y;
    while a != 0 && b != 0
        invariant
            forall|d: nat|
                is_common_divisor(d, a as nat, b as nat) <==> #[trigger] is_common_divisor(
                    d,
                    x as nat,
                    y as nat,
                ),
            (a == 0 && b == 0) <==> (x == 0 && y == 0),
        decreases a + b,
    {
        let ghost a0 = a;
        let ghost b0 = b;
        if a > b {
            a = a % b;
            proof {
                lemma_mod_bound(a0 as int, b0 as int);
                assert forall|d: nat|
                    is_common_divisor(d, a as nat, b as nat) <==> #[trigger] is_common_divisor(
                        d,
                        x as nat,
                        y as nat,
                    ) by {
                    lemma_common_divisor_mod(d, a0 as nat, b0 as nat);
                }
            }
        } else {
            b = b % a;
            proof {
                lemma_mod_bound(b0 as int, a0 as int);
                assert forall|d: nat|
                    is_common_divisor(d, a as nat, b as nat) <==> #[trigger] is_common_divisor(
                        d,
                        x as nat,
                        y as nat,
                    ) by {
                    lemma_common_divisor_mod(d, b0 as nat, a0 as nat);
                }
            }
        }
    }
    let g: u64 = if a == 0 {
        b
    } else {
        a
    };
    proof {
        if g != 0 {
            lemma_gcd_with_zero(g as nat);
            assert(is_common_divisor(g as nat, a as nat, b as nat));
            assert(is_common_divisor(g as nat, x as nat, y as nat));
            assert forall|d: nat| #[trigger]
                is_common_divisor(d, x as nat, y as nat) implies d <= g by {
                assert(is_common_divisor(d, a as nat, b as nat));
            }
        }
    }
    g
}

/// Dividing two numbers by their greatest common divisor leaves two numbers
/// whose only common divisor is one.
proof fn lemma_reduced_by_gcd(g: nat, x: nat, y: nat)
    requires
        is_gcd(g, x, y),
    ensures
        is_gcd(1, x / g, y / g),
{
    let xr = x / g;
    let yr = y / g;
    lemma_fundamental_div_mod(x as int, g as int);
    lemma_fundamental_div_mod(y as int, g as int);
    assert(x == g * xr);
    assert(y == g * yr);
    lemma_small_mod(0, 1);
    assert(xr % 1 == 0);
    assert(yr % 1 == 0);
    assert forall|k: nat| #[trigger] is_common_divisor(k, xr, yr) implies k <= 1 by {
        lemma_fundamental_div_mod(xr as int, k as int);
        lemma_fundamental_div_mod(yr as int, k as int);
        let qx = xr / k;
        let qy = yr / k;
        assert(xr == k * qx);
        assert(yr == k * qy);
        let gk = g * k;
        lemma_mul_strictly_positive(g as int, k as int);
        assert(x == gk * qx) by {
            lemma_mul_is_associative(g as int, k as int, qx as int);
        }
        assert(y == gk * qy) by {
            lemma_mul_is_associative(g as int, k as int, qy as int);
        }
        lemma_mod_multiples_basic(qx as int, gk as int);
        lemma_mod_multiples_basic(qy as int, gk as int);
        lemma_mul_is_commutative(gk as int, qx as int);
        lemma_mul_is_commutative(gk as int, qy as int);
        assert(is_common_divisor(gk, x, y));
        assert(gk <= g);
        if k > 1 {
            lemma_mul_strict_inequality(1, k as int, g as int);
            lemma_mul_is_commutative(g as int, k as int);
        }
    }
}

/// A rational number in lowest terms with a positive denominator.
#[derive(PartialEq, Eq, Debug, Copy, Clone, Hash, Structural)]
pub struct Fraction {
    numerator: i64,
    denominator: u64,
}

impl Fraction {
    /// The numerator as a mathematical integer.
    pub closed spec fn numer(self) -> int {
        self.numerator as int
    }

    /// The denominator as a mathematical integer.
    pub closed spec fn denom(self) -> int {
        self.denominator as int
    }

    /// The denominator is positive and shares no factor with the numerator.
    #[verifier::type_invariant]
    pub open spec fn wf(self) -> bool {
        &&& self.denom() > 0
        &&& is_gcd(1, magnitude(self.numer()), self.denom() as nat)
    }

    /// `self` stands for the number `n / d`.
    pub open spec fn equals_ratio(self, n: int, d: int) -> bool {
        self.numer() * d == n * self.denom()
    }

    /// The numerator is an `i64` and the denominator a `u64`.
    pub proof fn lemma_parts_in_range(self)
        ensures
            i64::MIN <= self.numer() <= i64::MAX,
            0 <= self.denom() <= u64::MAX,
    {
    }

    /// Builds the fraction `numerator / denominator` in lowest terms.
    ///
    /// There is no fraction with a zero denominator.
    pub fn new(numerator: i64, denominator: u64) -> (r: Option<Fraction>)
        ensures
            denominator == 0 <==> r is None,
            r matches Some(f) ==> f.wf() && f.equals_ratio(numerator as int, denominator as int),
    {
        if 0 == denominator {
            return None;
        }
        Some(Self::simplify(numerator, denominator))
    }

    /// Brings `numerator / denominator` to lowest terms.
    fn simplify(numerator: i64, denominator: u64) -> (f: Fraction)
        requires
            denominator != 0,
        ensures
            f.wf(),
            f.equals_ratio(numerator as int, denominator as int),
    {
        if numerator == 0 {
            proof {
                lemma_gcd_with_zero(1);
            }
            return Fraction { numerator: 0, denominator: 1 };
        }
        let size: u64 = if numerator < 0 {
            ((-(numerator as i128)) as u64)
        } else {
            numerator as u64
        };
        let g: u64 = gcd(size, denominator);
        proof {
            lemma_reduced_by_gcd(g as nat, size as nat, denominator as nat);
            lemma_fundamental_div_mod(size as int, g as int);
            lemma_fundamental_div_mod(denominator as int, g as int);
            assert(g <= size) by {
                assert(is_common_divisor(g as nat, size as nat, denominator as nat));
                if g > size {
                    lemma_small_mod(size as nat, g as nat);
                }
            }
            assert(g <= denominator) by {
                if g > denominator {
                    lemma_small_mod(denominator as nat, g as nat);
                }
            }
            lemma_div_is_ordered(g as int, size as int, g as int);
            lemma_div_by_self(g as int);
            lemma_div_is_ordered(g as int, denominator as int, g as int);
            lemma_div_nonincreasing(size as int, g as int);
        }
        let reduced_size: u64 = size / g;
        let reduced_denominator: u64 = denominator / g;
        let reduced_numerator: i64 = if numerator < 0 {
            (-(reduced_size as i128)) as i64
        } else {
            reduced_size as i64
        };
        proof {
            assert(magnitude(reduced_numerator as int) == reduced_size as nat);
            assert(size as int == g as int * reduced_size as int);
            assert(denominator as int == g as int * reduced_denominator as int);
            assert(reduced_numerator as int * denominator as int == numerator as int
                * reduced_denominator as int) by (nonlinear_arith)
                requires
                    size as int == g as int * reduced_size as int,
                    denominator as int == g as int * reduced_denominator as int,
                    numerator < 0 ==> numerator as int == -(size as int) && reduced_numerator as int
                        == -(reduced_size as int),
                    numerator >= 0 ==> numerator as int == size as int && reduced_numerator as int
                        == reduced_size as int,
            ;
        }
        Fraction { numerator: reduced_numerator, denominator: reduced_denominator }
    }

    /// The numerator and the denominator.
    pub fn contents(&self) -> (r: (i64, u64))
        ensures
            r.0 == self.numer(),
            r.1 == self.denom(),
            self.wf(),
    {
        proof {
            use_type_invariant(self);
        }
        (self.numerator, self.denominator)
    }

    /// The fraction multiplied by a whole number, in lowest terms.
    pub fn mul(self, rhs: i64) -> (r: Fraction)
        requires
            i64::MIN <= self.numer() * rhs <= i64::MAX,
        ensures
            r.wf(),
            r.equals_ratio(self.numer() * rhs, self.denom()),
    {
        let (numerator, denominator) = self.contents();
        Self::simplify(numerator * rhs, denominator)
    }

    /// Whether `self` is a smaller number than `other`.
    pub fn lt(&self, other: &Fraction) -> (r: bool)
        ensures
            r == (self.numer() * other.denom() < other.numer() * self.denom()),
    {
        let (n1, d1) = self.contents();
        let (n2, d2) = other.contents();
        proof {
            lemma_cross_product_fits(n1 as int, d2 as int);
            lemma_cross_product_fits(n2 as int, d1 as int);
        }
        (n1 as i128) * (d2 as i128) < (n2 as i128) * (d1 as i128)
    }

    /// Whether `self` is at most `other`.
    pub fn le(&self, other: &Fraction) -> (r: bool)
        ensures
            r == (self.numer() * other.denom() <= other.numer() * self.denom()),
    {
        let (n1, d1) = self.contents();
        let (n2, d2) = other.contents();
        proof {
            lemma_cross_product_fits(n1 as int, d2 as int);
            lemma_cross_product_fits(n2 as int, d1 as int);
        }
        (n1 as i128) * (d2 as i128) <= (n2 as i128) * (d1 as i128)
    }

    /// Whether `self` lies in the half-open interval from zero to one.
    pub fn is_proper(&self) -> (r: bool)
        ensures
            r == (0 <= self.numer() < self.denom()),
            self.wf(),
    {
        let (n, d) = self.contents();
        n >= 0 && (n as u64) < d
    }
}

/// The product of an `i64` and a `u64` fits in an `i128`.
pub proof fn lemma_cross_product_fits(n: int, d: int)
    requires
        i64::MIN <= n <= i64::MAX,
        0 <= d <= u64::MAX,
    ensures
        i128::MIN < n * d < i128::MAX,
{
    assert(-0x8000_0000_0000_0000 * 0xffff_ffff_ffff_ffff <= n * d <= 0x8000_0000_0000_0000
        * 0xffff_ffff_ffff_ffff) by (nonlinear_arith)
        requires
            -0x8000_0000_0000_0000 <= n <= 0x8000_0000_0000_0000,
            0 <= d <= 0xffff_ffff_ffff_ffff,
    ;
}

/// Two numbers that are not both zero have a common divisor that is a sum of
/// whole multiples of them.
proof fn lemma_bezout(x: nat, y: nat) -> (r: (int, int, nat))
    requires
        x != 0 || y != 0,
    ensures
        r.0 * x + r.1 * y == r.2,
        is_common_divisor(r.2, x, y),
    decreases x + y,
{
    if x == 0 {
        lemma_gcd_with_zero(y);
        (0, 1, y)
    } else if y == 0 {
        lemma_gcd_with_zero(x);
        (1, 0, x)
    } else if x >= y {
        let (u, v, g) = lemma_bezout((x - y) as nat, y);
        lemma_common_divisor_sub(g, x, y);
        assert(u * x + (v - u) * y == g) by (nonlinear_arith)
            requires
                u * (x - y) + v * y == g,
        ;
        (u, v - u, g)
    } else {
        let (u, v, g) = lemma_bezout(x, (y - x) as nat);
        lemma_common_divisor_sub(g, y, x);
        assert((u - v) * x + v * y == g) by (nonlinear_arith)
            requires
                u * x + v * (y - x) == g,
        ;
        (u - v, v, g)
    }
}

/// A number that divides a product and shares no factor with one of the
/// factors divides the other.
proof fn lemma_coprime_divides(p: nat, q: nat, r: nat)
    requires
        is_gcd(1, q, p),
        divides(p, q * r),
    ensures
        divides(p, r),
{
    let (u, v, g) = lemma_bezout(q, p);
    assert(g == 1);
    lemma_fundamental_div_mod((q * r) as int, p as int);
    let k = ((q * r) as int) / (p as int);
    assert(q * r == p * k);
    assert(r == (u * k + v * r) * p) by (nonlinear_arith)
        requires
            u * q + v * p == 1,
            q * r == p * k,
    ;
    lemma_mod_multiples_basic(u * k + v * r, p as int);
}

/// A divisor of a positive number is no greater than the number.
proof fn lemma_divisor_is_smaller(p: nat, r: nat)
    requires
        divides(p, r),
        r > 0,
    ensures
        p <= r,
{
    if p > r {
        lemma_small_mod(r, p);
    }
}

impl Fraction {
    /// **Every number has one fraction.** Two fractions in lowest terms that
    /// stand for the same number have the same numerator and the same
    /// denominator.
    pub proof fn lemma_lowest_terms_are_unique(self, other: Fraction)
        requires
            self.wf(),
            other.wf(),
            self.numer() * other.denom() == other.numer() * self.denom(),
        ensures
            self.numer() == other.numer(),
            self.denom() == other.denom(),
            self == other,
    {
        let (n1, d1, n2, d2) = (self.numer(), self.denom(), other.numer(), other.denom());
        let m1 = magnitude(n1);
        let m2 = magnitude(n2);
        assert(m1 * d2 == m2 * d1) by (nonlinear_arith)
            requires
                n1 * d2 == n2 * d1,
                d1 > 0,
                d2 > 0,
                m1 == n1 || m1 == -n1,
                m2 == n2 || m2 == -n2,
                m1 >= 0,
                m2 >= 0,
        ;
        // the first denominator divides the second
        assert(divides(d1 as nat, m1 * (d2 as nat))) by {
            lemma_mod_multiples_basic(m2 as int, d1);
        }
        lemma_coprime_divides(d1 as nat, m1, d2 as nat);
        lemma_divisor_is_smaller(d1 as nat, d2 as nat);
        // and the second the first
        assert(divides(d2 as nat, m2 * (d1 as nat))) by {
            lemma_mod_multiples_basic(m1 as int, d2);
            assert(m2 * d1 == m1 * d2);
        }
        lemma_coprime_divides(d2 as nat, m2, d1 as nat);
        lemma_divisor_is_smaller(d2 as nat, d1 as nat);
        assert(n1 == n2) by (nonlinear_arith)
            requires
                n1 * d2 == n2 * d1,
                d1 == d2,
                d1 > 0,
        ;
    }

    /// **Equal quotients give equal fractions.** The fractions in lowest
    /// terms of two quotients are the same exactly when the quotients are
    /// equal, that is, when their cross products are.
    pub proof fn lemma_equal_exactly_when_same_number(
        self,
        other: Fraction,
        n1: int,
        d1: int,
        n2: int,
        d2: int,
    )
        requires
            self.wf(),
            other.wf(),
            d1 > 0,
            d2 > 0,
            self.equals_ratio(n1, d1),
            other.equals_ratio(n2, d2),
        ensures
            self == other <==> n1 * d2 == n2 * d1,
    {
        let (a, b, c, d) = (self.numer(), self.denom(), other.numer(), other.denom());
        if n1 * d2 == n2 * d1 {
            assert((a * d - c * b) * (d1 * d2) == 0) by (nonlinear_arith)
                requires
                    a * d1 == n1 * b,
                    c * d2 == n2 * d,
                    n1 * d2 == n2 * d1,
            ;
            assert(a * d == c * b) by (nonlinear_arith)
                requires
                    (a * d - c * b) * (d1 * d2) == 0,
                    d1 > 0,
                    d2 > 0,
            ;
            self.lemma_lowest_terms_are_unique(other);
        }
        if self == other {
            assert((n1 * d2 - n2 * d1) * b == 0) by (nonlinear_arith)
                requires
                    a * d1 == n1 * b,
                    a * d2 == n2 * b,
            ;
            assert(n1 * d2 == n2 * d1) by (nonlinear_arith)
                requires
                    (n1 * d2 - n2 * d1) * b == 0,
                    b > 0,
            ;
        }
    }
}

} // verus!
