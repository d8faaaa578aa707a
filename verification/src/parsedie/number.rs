//! Exact rational numbers in lowest terms, over `i128`.

use vstd::arithmetic::div_mod::{
    lemma_fundamental_div_mod, lemma_fundamental_div_mod_converse, lemma_truncate_middle,
};
use vstd::prelude::*;

verus! {

/// The greatest common divisor, by Euclid's rule; `gcd(a, 0) == a`.
pub open spec fn gcd(a: nat, b: nat) -> nat
    decreases b,
{
    if b == 0 {
        a
    } else {
        gcd(b, a % b)
    }
}

/// The absolute value of an integer.
pub open spec fn magnitude(n: int) -> nat {
    if n < 0 {
        (-n) as nat
    } else {
        n as nat
    }
}

/// Whether an integer can be held in an `i128`.
pub open spec fn fits(n: int) -> bool {
    i128::MIN <= n <= i128::MAX
}

/// The greatest common divisor divides both of its arguments, and is
/// positive unless both are zero.
pub proof fn lemma_gcd_divides(a: nat, b: nat)
    ensures
        a > 0 || b > 0 ==> gcd(a, b) > 0,
        gcd(a, b) > 0 ==> a % gcd(a, b) == 0 && b % gcd(a, b) == 0,
        b > 0 ==> gcd(a, b) <= b,
        a > 0 ==> gcd(a, b) <= a,
    decreases b,
{
    if b != 0 {
        let g = gcd(a, b);
        let r = a % b;
        lemma_gcd_divides(b, r);
        if g > 0 {
            // g divides b and r, and a == b * (a / b) + r
            lemma_fundamental_div_mod(a as int, b as int);
            lemma_fundamental_div_mod(b as int, g as int);
            lemma_fundamental_div_mod(r as int, g as int);
            let q = a / b;
            let bq = b / g;
            let rq = r / g;
            assert(a == g * (bq * q + rq)) by (nonlinear_arith)
                requires
                    a == b * q + r,
                    b == g * bq,
                    r == g * rq,
            ;
            lemma_multiple_has_no_remainder(g as int, (bq * q + rq) as int);
            lemma_divisor_is_at_most(g as int, b as int);
            if a > 0 {
                lemma_divisor_is_at_most(g as int, a as int);
            }
        }
    }
}

/// A multiple of `d` leaves no remainder when divided by `d`.
pub proof fn lemma_multiple_has_no_remainder(d: int, k: int)
    requires
        d > 0,
    ensures
        (d * k) % d == 0,
        (d * k) / d == k,
{
    assert(d * k == k * d + 0) by (nonlinear_arith);
    lemma_fundamental_div_mod_converse(d * k, d, k, 0);
}

/// A divisor of a positive number is no larger than that number.
pub proof fn lemma_divisor_is_at_most(d: int, n: int)
    requires
        d > 0,
        n > 0,
        n % d == 0,
    ensures
        d <= n,
{
    lemma_fundamental_div_mod(n, d);
    let q = n / d;
    assert(q >= 1) by (nonlinear_arith)
        requires
            n == d * q,
            n > 0,
            d > 0,
    ;
    assert(d <= d * q) by (nonlinear_arith)
        requires
            q >= 1,
            d > 0,
    ;
}

/// Scaling both arguments scales the greatest common divisor.
pub proof fn lemma_gcd_scales(k: nat, a: nat, b: nat)
    requires
        k > 0,
    ensures
        gcd(k * a, k * b) == k * gcd(a, b),
    decreases b,
{
    if b == 0 {
        assert(k * b == 0) by (nonlinear_arith)
            requires
                b == 0,
        ;
    } else {
        assert(k * b > 0) by (nonlinear_arith)
            requires
                k > 0,
                b > 0,
        ;
        lemma_truncate_middle(a as int, k as int, b as int);
        assert((k * a) % (k * b) == k * (a % b));
        lemma_gcd_scales(k, b, a % b);
    }
}

/// Dividing two numbers by their greatest common divisor leaves them coprime.
pub proof fn lemma_gcd_of_quotients(a: nat, b: nat)
    requires
        a > 0 || b > 0,
    ensures
        gcd(a / gcd(a, b), b / gcd(a, b)) == 1,
{
    let g = gcd(a, b);
    lemma_gcd_divides(a, b);
    lemma_fundamental_div_mod(a as int, g as int);
    lemma_fundamental_div_mod(b as int, g as int);
    let x = a / g;
    let y = b / g;
    lemma_gcd_scales(g, x, y);
    let h = gcd(x, y);
    assert(h == 1) by (nonlinear_arith)
        requires
            g == g * h,
            g > 0,
    ;
}

/// Whatever divides two numbers divides their greatest common divisor.
pub proof fn lemma_divides_gcd(d: nat, a: nat, b: nat)
    requires
        d > 0,
        a % d == 0,
        b % d == 0,
    ensures
        gcd(a, b) % d == 0,
    decreases b,
{
    if b != 0 {
        let r = a % b;
        lemma_fundamental_div_mod(a as int, b as int);
        lemma_fundamental_div_mod(a as int, d as int);
        lemma_fundamental_div_mod(b as int, d as int);
        let q = (a / b) as int;
        let x = (a / d) as int;
        let y = (b / d) as int;
        assert(r == d * (x - y * q)) by (nonlinear_arith)
            requires
                a == b * q + r,
                a == d * x,
                b == d * y,
        ;
        lemma_multiple_has_no_remainder(d as int, x - y * q);
        lemma_divides_gcd(d, b, r);
    }
}

/// A number that divides a product and shares no factor with one of the
/// two factors divides the other.
pub proof fn lemma_coprime_divides(a: nat, b: nat, c: nat)
    requires
        b > 0,
        gcd(a, b) == 1,
        (a * c) % b == 0,
    ensures
        c % b == 0,
{
    if c > 0 {
        lemma_gcd_scales(c, a, b);
        assert(c * a == a * c && c * b == b * c && c * 1 == c) by (nonlinear_arith);
        lemma_multiple_has_no_remainder(b as int, c as int);
        lemma_divides_gcd(b, c * a, c * b);
    }
}

/// An exact rational number: a numerator over a positive denominator, in
/// lowest terms. Every value has exactly one representation.
#[derive(Debug, Clone, Copy, PartialEq, Eq, Structural)]
pub struct Number {
    num: i128,
    den: i128,
}

impl View for Number {
    type V = real;

    /// The rational number that the value stands for.
    open spec fn view(&self) -> real {
        self.numer() as real / self.denom() as real
    }
}

impl Number {
    #[verifier::type_invariant]
    spec fn in_lowest_terms(&self) -> bool {
        self.wf()
    }

    /// The numerator.
    pub closed spec fn numer(&self) -> int {
        self.num as int
    }

    /// The denominator.
    pub closed spec fn denom(&self) -> int {
        self.den as int
    }

    /// The denominator is positive and shares no factor with the numerator.
    pub open spec fn wf(&self) -> bool {
        &&& self.denom() > 0
        &&& gcd(magnitude(self.numer()), self.denom() as nat) == 1
    }

    /// The value with the given numerator and denominator, as they stand.
    pub closed spec fn with_parts(n: int, d: int) -> Number {
        Number { num: n as i128, den: d as i128 }
    }

    /// The whole number `n`.
    pub open spec fn whole(n: int) -> Number {
        Number::with_parts(n, 1)
    }

    /// `n / d` in lowest terms, for a positive `d`.
    pub open spec fn lowest_terms(n: int, d: int) -> Number {
        let g = gcd(magnitude(n), d as nat) as int;
        Number::with_parts(n / g, d / g)
    }

    /// `n / d` in lowest terms, where `d` is not zero and both fit in an
    /// `i128` once the sign has been moved to the numerator.
    pub open spec fn fraction(n: int, d: int) -> Option<Number> {
        if d > 0 && fits(n) && fits(d) {
            Some(Number::lowest_terms(n, d))
        } else if d < 0 && fits(-n) && fits(-d) {
            Some(Number::lowest_terms(-n, -d))
        } else {
            None
        }
    }

    /// The integer part, rounding toward zero.
    pub open spec fn trunc_spec(&self) -> int {
        if self.numer() >= 0 {
            self.numer() / self.denom()
        } else {
            -((-self.numer()) / self.denom())
        }
    }

    /// A whole number is well formed and stands for itself.
    pub proof fn lemma_whole(n: int)
        requires
            fits(n),
        ensures
            Number::whole(n).wf(),
            Number::whole(n).numer() == n,
            Number::whole(n).denom() == 1,
            Number::whole(n)@ == n as real,
            Number::whole(n).trunc_spec() == n,
    {
        reveal_with_fuel(gcd, 3);
        assert(magnitude(n) % 1 == 0);
        assert(n as real / 1real == n as real) by (nonlinear_arith);
    }

    /// Two values with the same numerator and the same denominator are one
    /// value.
    pub proof fn lemma_equal_by_parts(a: Number, b: Number)
        requires
            a.numer() == b.numer(),
            a.denom() == b.denom(),
        ensures
            a == b,
    {
    }

    /// Both parts of a value fit in an `i128`.
    pub proof fn lemma_parts_fit(a: Number)
        ensures
            fits(a.numer()),
            fits(a.denom()),
    {
    }

    /// Reducing a fraction yields a well-formed value equal to the fraction.
    pub proof fn lemma_lowest_terms(n: int, d: int)
        requires
            d > 0,
            fits(n),
            fits(d),
        ensures
            Number::lowest_terms(n, d).wf(),
            Number::lowest_terms(n, d)@ == n as real / d as real,
            Number::lowest_terms(n, d).numer() * d == n * Number::lowest_terms(n, d).denom(),
    {
        let m = magnitude(n);
        let g = gcd(m, d as nat) as int;
        lemma_gcd_divides(m, d as nat);
        lemma_gcd_of_quotients(m, d as nat);
        lemma_fundamental_div_mod(m as int, g);
        lemma_fundamental_div_mod(d, g);
        let qm = m as int / g;
        let qd = d / g;
        let qn = if n < 0 {
            -qm
        } else {
            qm
        };
        assert(n == g * qn) by (nonlinear_arith)
            requires
                m == g * qm,
                qn == if n < 0 {
                    -qm
                } else {
                    qm
                },
                m == if n < 0 {
                    -n
                } else {
                    n
                },
        ;
        lemma_multiple_has_no_remainder(g, qn);
        assert(n / g == qn);
        assert(0 <= qm <= m && 0 < qd <= d) by (nonlinear_arith)
            requires
                m == g * qm,
                d == g * qd,
                g > 0,
                d > 0,
                m >= 0,
        ;
        assert(magnitude(qn) == qm as nat);
        let r = Number::lowest_terms(n, d);
        assert(r.numer() == qn && r.denom() == qd);
        assert(qn as real / qd as real == n as real / d as real) by (nonlinear_arith)
            requires
                n == g * qn,
                d == g * qd,
                g > 0,
                qd > 0,
        ;
        assert(qn * d == n * qd) by (nonlinear_arith)
            requires
                n == g * qn,
                d == g * qd,
        ;
    }

    /// Zero in lowest terms has the denominator 1.
    pub proof fn lemma_zero(a: Number)
        requires
            a.wf(),
            a.numer() == 0,
        ensures
            a.denom() == 1,
    {
        let d = a.denom() as nat;
        assert(magnitude(0) == 0);
        assert(0nat % d == 0);
        assert(gcd(0, d) == gcd(d, 0nat % d));
        assert(gcd(d, 0) == d);
    }

    /// Every rational number has one representation only: well-formed
    /// values that stand for the same number are the same value.
    pub proof fn lemma_unique(a: Number, b: Number)
        requires
            a.wf(),
            b.wf(),
            a@ == b@,
        ensures
            a == b,
    {
        let (an, ad, bn, bd) = (a.numer(), a.denom(), b.numer(), b.denom());
        assert(an * bd == bn * ad) by (nonlinear_arith)
            requires
                ad > 0,
                bd > 0,
                an as real / ad as real == bn as real / bd as real,
        ;
        let (am, bm) = (magnitude(an), magnitude(bn));
        assert(am * bd == bm * ad && (an < 0 <==> bn < 0)) by (nonlinear_arith)
            requires
                an * bd == bn * ad,
                ad > 0,
                bd > 0,
                am == if an < 0 {
                    -an
                } else {
                    an
                },
                bm == if bn < 0 {
                    -bn
                } else {
                    bn
                },
        ;
        assert(bm * ad == ad * bm && am * bd == bd * am) by (nonlinear_arith);
        lemma_multiple_has_no_remainder(ad, bm as int);
        lemma_multiple_has_no_remainder(bd, am as int);
        lemma_coprime_divides(am, ad as nat, bd as nat);
        lemma_coprime_divides(bm, bd as nat, ad as nat);
        lemma_divisor_is_at_most(ad, bd);
        lemma_divisor_is_at_most(bd, ad);
        assert(an == bn) by (nonlinear_arith)
            requires
                an * bd == bn * ad,
                ad == bd,
                ad > 0,
        ;
        Number::lemma_equal_by_parts(a, b);
    }

    /// The integer part is the value rounded toward zero.
    pub proof fn lemma_trunc(a: Number)
        requires
            a.wf(),
        ensures
            a.trunc_spec() == if a@ >= 0real {
                a@.floor()
            } else {
                -((-a@).floor())
            },
    {
        let (n, d) = (a.numer(), a.denom());
        if n >= 0 {
            assert(n as real / d as real >= 0real && (n as real / d as real).floor() == n / d)
                by (nonlinear_arith)
                requires
                    d > 0,
                    n >= 0,
            ;
        } else {
            assert((n as real / d as real) < 0real && (-(n as real / d as real)).floor() == (-n) / d)
                by (nonlinear_arith)
                requires
                    d > 0,
                    n < 0,
            ;
        }
    }

    /// The number `n`.
    pub fn from_int(n: i128) -> (r: Number)
        ensures
            r == Number::whole(n as int),
            r.numer() == n,
            r.denom() == 1,
            r@ == n as real,
    {
        proof {
            reveal_with_fuel(gcd, 3);
            assert(magnitude(n as int) % 1 == 0);
            assert(n as real / 1real == n as real) by (nonlinear_arith);
        }
        Number { num: n, den: 1 }
    }

    /// The numerator.
    pub fn numerator(&self) -> (n: i128)
        ensures
            n == self.numer(),
    {
        self.num
    }

    /// The denominator, which is positive.
    pub fn denominator(&self) -> (d: i128)
        ensures
            d == self.denom(),
            d > 0,
    {
        proof {
            use_type_invariant(self);
        }
        self.den
    }

    /// Whether the value is zero.
    pub fn is_zero(&self) -> (b: bool)
        ensures
            b == (self.numer() == 0),
            b == (self@ == 0real),
    {
        proof {
            use_type_invariant(self);
            let n = self.numer();
            let d = self.denom();
            assert((n as real / d as real == 0real) <==> n == 0) by (nonlinear_arith)
                requires
                    d > 0,
            ;
        }
        self.num == 0
    }

    /// Whether the value is a whole number.
    pub fn is_integer(&self) -> (b: bool)
        ensures
            b == (self.denom() == 1),
    {
        self.den == 1
    }

    /// The integer part, rounding toward zero.
    pub fn trunc(&self) -> (t: i128)
        ensures
            t == self.trunc_spec(),
    {
        proof {
            use_type_invariant(self);
        }
        if self.num >= 0 {
            self.num / self.den
        } else if self.num == i128::MIN {
            let m: u128 = 170141183460469231731687303715884105728u128;
            let q: u128 = m / (self.den as u128);
            if q == m {
                i128::MIN
            } else {
                -(q as i128)
            }
        } else {
            -((-self.num) / self.den)
        }
    }
}

/// The absolute value of `n`, which always fits in a `u128`.
fn magnitude_of(n: i128) -> (m: u128)
    ensures
        m == magnitude(n as int),
{
    if n >= 0 {
        n as u128
    } else if n == i128::MIN {
        170141183460469231731687303715884105728u128
    } else {
        (-n) as u128
    }
}

/// The greatest common divisor of two machine integers.
fn gcd_of(a: u128, b: u128) -> (g: u128)
    ensures
        g == gcd(a as nat, b as nat),
{
    let mut x: u128 = a;
    let mut y: u128 = b;
    while y != 0
        invariant
            gcd(x as nat, y as nat) == gcd(a as nat, b as nat),
        decreases y,
    {
        let r: u128 = x % y;
        x = y;
        y = r;
    }
    x
}

/// `n / d` in lowest terms.
fn reduce(n: i128, d: i128) -> (r: Number)
    requires
        d > 0,
    ensures
        r == Number::lowest_terms(n as int, d as int),
        r.wf(),
{
    let m: u128 = magnitude_of(n);
    let g: u128 = gcd_of(m, d as u128);
    proof {
        lemma_gcd_divides(m as nat, d as nat);
        Number::lemma_lowest_terms(n as int, d as int);
        Number::lemma_parts_fit(Number::lowest_terms(n as int, d as int));
    }
    let qm: u128 = m / g;
    let qd: u128 = (d as u128) / g;
    proof {
        lemma_fundamental_div_mod(m as int, g as int);
        lemma_fundamental_div_mod(d as int, g as int);
        let qn = if n < 0 {
            -(qm as int)
        } else {
            qm as int
        };
        assert(n as int == (g as int) * qn) by (nonlinear_arith)
            requires
                m as int == (g as int) * (qm as int),
                qn == if n < 0 {
                    -(qm as int)
                } else {
                    qm as int
                },
                m as int == if n < 0 {
                    -(n as int)
                } else {
                    n as int
                },
        ;
        lemma_multiple_has_no_remainder(g as int, qn);
        assert(qd <= d) by (nonlinear_arith)
            requires
                d as int == (g as int) * (qd as int),
                g > 0,
                d > 0,
        ;
        assert(qm <= m) by (nonlinear_arith)
            requires
                m as int == (g as int) * (qm as int),
                g > 0,
        ;
    }
    let num: i128 = if n < 0 {
        if qm == 170141183460469231731687303715884105728u128 {
            i128::MIN
        } else {
            -(qm as i128)
        }
    } else {
        qm as i128
    };
    let r = Number { num, den: qd as i128 };
    proof {
        Number::lemma_equal_by_parts(r, Number::lowest_terms(n as int, d as int));
    }
    r
}

impl Number {
    /// The sum over the common denominator `a.denom() * b.denom()`, in
    /// lowest terms; `None` where a cross product, their sum or that
    /// denominator does not fit in an `i128`.
    pub open spec fn sum(a: Number, b: Number) -> Option<Number> {
        let x = a.numer() * b.denom();
        let y = b.numer() * a.denom();
        if fits(x) && fits(y) {
            Number::fraction(x + y, a.denom() * b.denom())
        } else {
            None
        }
    }

    /// The difference over the common denominator, as `sum` gives the sum.
    pub open spec fn difference(a: Number, b: Number) -> Option<Number> {
        let x = a.numer() * b.denom();
        let y = b.numer() * a.denom();
        if fits(x) && fits(y) {
            Number::fraction(x - y, a.denom() * b.denom())
        } else {
            None
        }
    }

    /// The product of the numerators over the product of the denominators,
    /// in lowest terms; `None` where either product does not fit.
    pub open spec fn product(a: Number, b: Number) -> Option<Number> {
        Number::fraction(a.numer() * b.numer(), a.denom() * b.denom())
    }

    /// `a` times the reciprocal of `b`, in lowest terms; `None` where `b` is
    /// zero or a cross product does not fit.
    pub open spec fn quotient(a: Number, b: Number) -> Option<Number> {
        let n = a.numer() * b.denom();
        let d = a.denom() * b.numer();
        if fits(n) && fits(d) {
            Number::fraction(n, d)
        } else {
            None
        }
    }

    /// The value with the opposite sign; `None` for the one numerator whose
    /// opposite does not fit.
    pub open spec fn negation(a: Number) -> Option<Number> {
        if fits(-a.numer()) {
            Some(Number::with_parts(-a.numer(), a.denom()))
        } else {
            None
        }
    }

    /// `num / den` in lowest terms.
    pub fn new(num: i128, den: i128) -> (r: Option<Number>)
        ensures
            r == Number::fraction(num as int, den as int),
            r is Some <==> den != 0 && (den > 0 || (num != i128::MIN && den != i128::MIN)),
            r matches Some(v) ==> v@ == num as real / den as real,
    {
        if den > 0 {
            proof {
                Number::lemma_lowest_terms(num as int, den as int);
            }
            Some(reduce(num, den))
        } else if den < 0 && num != i128::MIN && den != i128::MIN {
            proof {
                Number::lemma_lowest_terms(-(num as int), -(den as int));
                assert((-(num as int)) as real / (-(den as int)) as real == num as real
                    / den as real) by (nonlinear_arith)
                    requires
                        den < 0,
                ;
            }
            Some(reduce(-num, -den))
        } else {
            None
        }
    }

    /// The sum, or `None` where it cannot be computed within `i128`.
    pub fn add(&self, other: &Number) -> (r: Option<Number>)
        ensures
            r == Number::sum(*self, *other),
            r matches Some(v) ==> v@ == self@ + other@,
    {
        proof {
            use_type_invariant(self);
            use_type_invariant(other);
            Number::lemma_sum(*self, *other);
        }
        match self.num.checked_mul(other.den) {
            None => None,
            Some(x) => match other.num.checked_mul(self.den) {
                None => None,
                Some(y) => match x.checked_add(y) {
                    None => None,
                    Some(n) => match self.den.checked_mul(other.den) {
                        None => None,
                        Some(d) => Some(reduce(n, d)),
                    },
                },
            },
        }
    }

    /// The difference, or `None` where it cannot be computed within `i128`.
    pub fn sub(&self, other: &Number) -> (r: Option<Number>)
        ensures
            r == Number::difference(*self, *other),
            r matches Some(v) ==> v@ == self@ - other@,
    {
        proof {
            use_type_invariant(self);
            use_type_invariant(other);
            Number::lemma_difference(*self, *other);
        }
        match self.num.checked_mul(other.den) {
            None => None,
            Some(x) => match other.num.checked_mul(self.den) {
                None => None,
                Some(y) => match x.checked_sub(y) {
                    None => None,
                    Some(n) => match self.den.checked_mul(other.den) {
                        None => None,
                        Some(d) => Some(reduce(n, d)),
                    },
                },
            },
        }
    }

    /// The product, or `None` where it cannot be computed within `i128`.
    pub fn mul(&self, other: &Number) -> (r: Option<Number>)
        ensures
            r == Number::product(*self, *other),
            r matches Some(v) ==> v@ == self@ * other@,
    {
        proof {
            use_type_invariant(self);
            use_type_invariant(other);
            Number::lemma_product(*self, *other);
        }
        match self.num.checked_mul(other.num) {
            None => None,
            Some(n) => match self.den.checked_mul(other.den) {
                None => None,
                Some(d) => Some(reduce(n, d)),
            },
        }
    }

    /// The quotient, or `None` where `other` is zero or the quotient cannot
    /// be computed within `i128`.
    pub fn div(&self, other: &Number) -> (r: Option<Number>)
        ensures
            r == Number::quotient(*self, *other),
            r matches Some(v) ==> other@ != 0real && v@ == self@ / other@,
            other@ == 0real ==> r is None,
    {
        proof {
            use_type_invariant(self);
            use_type_invariant(other);
            Number::lemma_quotient(*self, *other);
        }
        match self.num.checked_mul(other.den) {
            None => None,
            Some(n) => match self.den.checked_mul(other.num) {
                None => None,
                Some(d) => Number::new(n, d),
            },
        }
    }

    /// The value with the opposite sign, or `None` where its numerator does
    /// not fit in an `i128`.
    pub fn neg(&self) -> (r: Option<Number>)
        ensures
            r == Number::negation(*self),
            r matches Some(v) ==> v@ == -self@,
    {
        proof {
            use_type_invariant(self);
            Number::lemma_negation(*self);
        }
        if self.num == i128::MIN {
            None
        } else {
            Some(Number { num: -self.num, den: self.den })
        }
    }

    /// A sum that is computed is well formed and is the sum of the values.
    pub proof fn lemma_sum(a: Number, b: Number)
        requires
            a.wf(),
            b.wf(),
        ensures
            Number::sum(a, b) matches Some(c) ==> c.wf() && c@ == a@ + b@,
            a.denom() * b.denom() > 0,
    {
        let (an, ad, bn, bd) = (a.numer(), a.denom(), b.numer(), b.denom());
        assert(ad * bd > 0) by (nonlinear_arith)
            requires
                ad > 0,
                bd > 0,
        ;
        if Number::sum(a, b) is Some {
            Number::lemma_lowest_terms(an * bd + bn * ad, ad * bd);
            assert((an * bd + bn * ad) as real / (ad * bd) as real == an as real / ad as real
                + bn as real / bd as real) by (nonlinear_arith)
                requires
                    ad > 0,
                    bd > 0,
            ;
        }
    }

    /// A difference that is computed is well formed and is the difference of
    /// the values.
    pub proof fn lemma_difference(a: Number, b: Number)
        requires
            a.wf(),
            b.wf(),
        ensures
            Number::difference(a, b) matches Some(c) ==> c.wf() && c@ == a@ - b@,
            a.denom() * b.denom() > 0,
    {
        let (an, ad, bn, bd) = (a.numer(), a.denom(), b.numer(), b.denom());
        assert(ad * bd > 0) by (nonlinear_arith)
            requires
                ad > 0,
                bd > 0,
        ;
        if Number::difference(a, b) is Some {
            Number::lemma_lowest_terms(an * bd - bn * ad, ad * bd);
            assert((an * bd - bn * ad) as real / (ad * bd) as real == an as real / ad as real
                - bn as real / bd as real) by (nonlinear_arith)
                requires
                    ad > 0,
                    bd > 0,
            ;
        }
    }

    /// A product that is computed is well formed and is the product of the
    /// values.
    pub proof fn lemma_product(a: Number, b: Number)
        requires
            a.wf(),
            b.wf(),
        ensures
            Number::product(a, b) matches Some(c) ==> c.wf() && c@ == a@ * b@,
            a.denom() * b.denom() > 0,
    {
        let (an, ad, bn, bd) = (a.numer(), a.denom(), b.numer(), b.denom());
        assert(ad * bd > 0) by (nonlinear_arith)
            requires
                ad > 0,
                bd > 0,
        ;
        if Number::product(a, b) is Some {
            Number::lemma_lowest_terms(an * bn, ad * bd);
            assert((an * bn) as real / (ad * bd) as real == (an as real / ad as real) * (bn as real
                / bd as real)) by (nonlinear_arith)
                requires
                    ad > 0,
                    bd > 0,
            ;
        }
    }

    /// A quotient is computed only for a divisor that is not zero, and is
    /// then well formed and the quotient of the values.
    pub proof fn lemma_quotient(a: Number, b: Number)
        requires
            a.wf(),
            b.wf(),
        ensures
            Number::quotient(a, b) matches Some(c) ==> c.wf() && b@ != 0real && c@ == a@ / b@,
            b@ == 0real <==> b.numer() == 0,
            b.numer() == 0 ==> Number::quotient(a, b) is None,
            (a.denom() * b.numer() == 0) <==> b.numer() == 0,
    {
        let (an, ad, bn, bd) = (a.numer(), a.denom(), b.numer(), b.denom());
        assert((bn as real / bd as real == 0real) <==> bn == 0) by (nonlinear_arith)
            requires
                bd > 0,
        ;
        assert((ad * bn == 0) <==> bn == 0) by (nonlinear_arith)
            requires
                ad > 0,
        ;
        assert((ad * bn > 0) <==> bn > 0) by (nonlinear_arith)
            requires
                ad > 0,
        ;
        if Number::quotient(a, b) is Some {
            if bn > 0 {
                Number::lemma_lowest_terms(an * bd, ad * bn);
                assert((an * bd) as real / (ad * bn) as real == (an as real / ad as real) / (
                bn as real / bd as real)) by (nonlinear_arith)
                    requires
                        ad > 0,
                        bd > 0,
                        bn > 0,
                ;
            } else {
                Number::lemma_lowest_terms(-(an * bd), -(ad * bn));
                assert((-(an * bd)) as real / (-(ad * bn)) as real == (an as real / ad as real) / (
                bn as real / bd as real)) by (nonlinear_arith)
                    requires
                        ad > 0,
                        bd > 0,
                        bn < 0,
                ;
            }
        }
    }

    /// A negation that is computed is well formed and is the opposite value.
    pub proof fn lemma_negation(a: Number)
        requires
            a.wf(),
        ensures
            Number::negation(a) matches Some(c) ==> c.wf() && c@ == -a@ && c.numer() == -a.numer()
                && c.denom() == a.denom(),
    {
        let (an, ad) = (a.numer(), a.denom());
        if fits(-an) {
            assert(magnitude(-an) == magnitude(an));
            assert((-an) as real / ad as real == -(an as real / ad as real)) by (nonlinear_arith)
                requires
                    ad > 0,
            ;
        }
    }
}

/// `b` multiplied by itself `e` times; `1` for `e == 0`.
pub open spec fn int_power(b: int, e: nat) -> int
    decreases e,
{
    if e == 0 {
        1
    } else {
        b * int_power(b, (e - 1) as nat)
    }
}

/// `x` multiplied by itself `e` times; `1` for `e == 0`.
pub open spec fn real_power(x: real, e: nat) -> real
    decreases e,
{
    if e == 0 {
        1real
    } else {
        x * real_power(x, (e - 1) as nat)
    }
}

/// Powers of `0`, `1` and `-1`.
pub proof fn lemma_int_power_of_units(e: nat)
    ensures
        e > 0 ==> int_power(0, e) == 0,
        int_power(1, e) == 1,
        int_power(-1, e) == if e % 2 == 0 {
            1int
        } else {
            -1int
        },
    decreases e,
{
    if e > 0 {
        lemma_int_power_of_units((e - 1) as nat);
    }
}

/// With a base of magnitude two or more, a later power has at least twice
/// the magnitude of an earlier one.
pub proof fn lemma_int_power_doubles(b: int, j: nat, e: nat)
    requires
        b >= 2 || b <= -2,
        j < e,
    ensures
        magnitude(int_power(b, e)) >= 2 * magnitude(int_power(b, j)),
    decreases e,
{
    let prev = int_power(b, (e - 1) as nat);
    assert(magnitude(b * prev) >= 2 * magnitude(prev)) by (nonlinear_arith)
        requires
            b >= 2 || b <= -2,
    ;
    if j < e - 1 {
        lemma_int_power_doubles(b, j, (e - 1) as nat);
    }
}

/// With a base of magnitude two or more, once a power leaves the `i128`
/// range every later power stays outside it.
pub proof fn lemma_int_power_stays_out(b: int, j: nat, e: nat)
    requires
        b >= 2 || b <= -2,
        j <= e,
        !fits(int_power(b, j)),
    ensures
        !fits(int_power(b, e)),
{
    if j < e {
        lemma_int_power_doubles(b, j, e);
    }
}

/// A power of a positive number is positive.
pub proof fn lemma_int_power_positive(b: int, e: nat)
    requires
        b > 0,
    ensures
        int_power(b, e) > 0,
    decreases e,
{
    if e > 0 {
        lemma_int_power_positive(b, (e - 1) as nat);
        let prev = int_power(b, (e - 1) as nat);
        assert(b * prev > 0) by (nonlinear_arith)
            requires
                b > 0,
                prev > 0,
        ;
    }
}

/// A power of a fraction is the fraction of the powers.
pub proof fn lemma_power_of_fraction(n: int, d: int, e: nat)
    requires
        d > 0,
    ensures
        int_power(d, e) > 0,
        int_power(n, e) as real / int_power(d, e) as real == real_power(n as real / d as real, e),
    decreases e,
{
    lemma_int_power_positive(d, e);
    if e == 0 {
        assert(1int as real / 1int as real == 1real) by (nonlinear_arith);
    } else {
        lemma_power_of_fraction(n, d, (e - 1) as nat);
        let pn = int_power(n, (e - 1) as nat);
        let pd = int_power(d, (e - 1) as nat);
        let x = n as real / d as real;
        let px = real_power(x, (e - 1) as nat);
        assert((n * pn) as real / (d * pd) as real == x * px) by (nonlinear_arith)
            requires
                d > 0,
                pd > 0,
                x == n as real / d as real,
                px == pn as real / pd as real,
        ;
    }
}

/// `b` to the power `e`, if that fits in an `i128`.
fn checked_int_power(b: i128, e: u128) -> (r: Option<i128>)
    ensures
        r == if fits(int_power(b as int, e as nat)) {
            Some(int_power(b as int, e as nat) as i128)
        } else {
            None
        },
{
    proof {
        lemma_int_power_of_units(e as nat);
    }
    if e == 0 || b == 1 {
        return Some(1);
    }
    if b == 0 {
        return Some(0);
    }
    if b == -1 {
        return if e % 2 == 0 {
            Some(1)
        } else {
            Some(-1)
        };
    }
    let mut acc: i128 = 1;
    let mut i: u128 = 0;
    while i < e
        invariant
            i <= e,
            b >= 2 || b <= -2,
            acc == int_power(b as int, i as nat),
        decreases e - i,
    {
        proof {
            assert(int_power(b as int, (i + 1) as nat) == b * int_power(b as int, i as nat));
        }
        match acc.checked_mul(b) {
            None => {
                proof {
                    assert(acc * b == b * acc) by (nonlinear_arith);
                    lemma_int_power_stays_out(b as int, (i + 1) as nat, e as nat);
                }
                return None;
            },
            Some(v) => {
                proof {
                    assert(acc * b == b * acc) by (nonlinear_arith);
                }
                acc = v;
                i += 1;
            },
        }
    }
    Some(acc)
}

impl Number {
    /// `a` to the power `e`: the powers of numerator and denominator, in
    /// lowest terms; `None` where one of them does not fit in an `i128`.
    pub open spec fn raised(a: Number, e: nat) -> Option<Number> {
        Number::fraction(int_power(a.numer(), e), int_power(a.denom(), e))
    }

    /// `a` to the integer power `e`. A negative `e` raises the reciprocal of
    /// `a` to `-e`; `None` where `a` is zero then, or where a numerator or
    /// denominator on the way does not fit in an `i128`.
    pub open spec fn power(a: Number, e: int) -> Option<Number> {
        if e >= 0 {
            Number::raised(a, e as nat)
        } else {
            match Number::fraction(a.denom(), a.numer()) {
                Some(inverse) => Number::raised(inverse, (-e) as nat),
                None => None,
            }
        }
    }

    /// `self` to the power `e`, for an `e` that is not negative.
    fn raise(&self, e: u128) -> (r: Option<Number>)
        ensures
            r == Number::raised(*self, e as nat),
    {
        proof {
            use_type_invariant(self);
            lemma_int_power_positive(self.denom(), e as nat);
        }
        match checked_int_power(self.num, e) {
            None => None,
            Some(n) => match checked_int_power(self.den, e) {
                None => None,
                Some(d) => Some(reduce(n, d)),
            },
        }
    }

    /// `self` to the integer power `e`, or `None` where it cannot be
    /// computed within `i128` or `self` is zero and `e` negative.
    pub fn pow(&self, e: i128) -> (r: Option<Number>)
        ensures
            r == Number::power(*self, e as int),
            r matches Some(v) ==> v@ == if e >= 0 {
                real_power(self@, e as nat)
            } else {
                real_power(1real / self@, (-e) as nat)
            },
            e < 0 && self@ == 0real ==> r is None,
    {
        proof {
            use_type_invariant(self);
            Number::lemma_power(*self, e as int);
        }
        if e >= 0 {
            self.raise(e as u128)
        } else {
            match Number::new(self.den, self.num) {
                None => None,
                Some(inverse) => inverse.raise(magnitude_of(e)),
            }
        }
    }

    /// A power that is computed is well formed and is the power of the value.
    pub proof fn lemma_raised(a: Number, e: nat)
        requires
            a.wf(),
        ensures
            Number::raised(a, e) matches Some(c) ==> c.wf() && c@ == real_power(a@, e),
    {
        lemma_power_of_fraction(a.numer(), a.denom(), e);
        if Number::raised(a, e) is Some {
            Number::lemma_lowest_terms(int_power(a.numer(), e), int_power(a.denom(), e));
        }
    }

    /// An integer power that is computed is well formed; it is the power of
    /// the value, or for a negative exponent the power of its reciprocal.
    pub proof fn lemma_power(a: Number, e: int)
        requires
            a.wf(),
        ensures
            Number::power(a, e) matches Some(c) ==> c.wf() && c@ == if e >= 0 {
                real_power(a@, e as nat)
            } else {
                real_power(1real / a@, (-e) as nat)
            },
            e < 0 && a.numer() == 0 ==> Number::power(a, e) is None,
            a@ == 0real <==> a.numer() == 0,
    {
        let (an, ad) = (a.numer(), a.denom());
        assert((an as real / ad as real == 0real) <==> an == 0) by (nonlinear_arith)
            requires
                ad > 0,
        ;
        if e >= 0 {
            Number::lemma_raised(a, e as nat);
        } else if Number::fraction(ad, an) is Some {
            let inverse = Number::fraction(ad, an)->0;
            if an > 0 {
                Number::lemma_lowest_terms(ad, an);
                assert(ad as real / an as real == 1real / (an as real / ad as real))
                    by (nonlinear_arith)
                    requires
                        ad > 0,
                        an > 0,
                ;
            } else {
                Number::lemma_lowest_terms(-ad, -an);
                assert((-ad) as real / (-an) as real == 1real / (an as real / ad as real))
                    by (nonlinear_arith)
                    requires
                        ad > 0,
                        an < 0,
                ;
            }
            Number::lemma_raised(inverse, (-e) as nat);
        }
    }
}

/// Whether `r` is the root of `n` for the exponent `q`: the number that is
/// not negative and gives `n` when raised to the power `q`.
pub open spec fn is_root(r: int, n: int, q: nat) -> bool {
    r >= 0 && int_power(r, q) == n
}

/// The whole root of `n` for the exponent `q`, if `n` has one.
pub open spec fn int_root(n: int, q: nat) -> Option<int> {
    if exists|r: int| is_root(r, n, q) {
        Some(choose|r: int| is_root(r, n, q))
    } else {
        None
    }
}

/// Among numbers that are not negative, the larger has the larger power,
/// and no power is smaller than its base.
pub proof fn lemma_int_power_grows(a: int, b: int, q: nat)
    requires
        0 <= a < b,
        q >= 1,
    ensures
        0 <= int_power(a, q) < int_power(b, q),
        a <= int_power(a, q),
    decreases q,
{
    if q == 1 {
        assert(int_power(a, 1) == a * int_power(a, 0));
        assert(int_power(b, 1) == b * int_power(b, 0));
    } else {
        lemma_int_power_grows(a, b, (q - 1) as nat);
        let (x, y) = (int_power(a, (q - 1) as nat), int_power(b, (q - 1) as nat));
        assert(0 <= a * x < b * y && a <= a * x) by (nonlinear_arith)
            requires
                0 <= a < b,
                0 <= x < y,
                a <= x,
        ;
    }
}

/// A number has one root at most.
pub proof fn lemma_root_unique(r1: int, r2: int, n: int, q: nat)
    requires
        q >= 1,
        is_root(r1, n, q),
        is_root(r2, n, q),
    ensures
        r1 == r2,
        int_root(n, q) == Some(r1),
{
    if r1 < r2 {
        lemma_int_power_grows(r1, r2, q);
    } else if r2 < r1 {
        lemma_int_power_grows(r2, r1, q);
    }
    let chosen = choose|r: int| is_root(r, n, q);
    if chosen < r1 {
        lemma_int_power_grows(chosen, r1, q);
    } else if r1 < chosen {
        lemma_int_power_grows(r1, chosen, q);
    }
}

/// The whole root of `n` for the exponent `q`, if `n` has one.
fn int_root_of(n: i128, q: u128) -> (r: Option<i128>)
    requires
        n >= 0,
        q >= 1,
    ensures
        match r {
            Some(x) => int_root(n as int, q as nat) == Some(x as int) && 0 <= x <= n,
            None => int_root(n as int, q as nat) is None,
        },
{
    proof {
        lemma_int_power_of_units(q as nat);
    }
    if n <= 1 {
        proof {
            lemma_root_unique(n as int, n as int, n as int, q as nat);
        }
        return Some(n);
    }
    if q == 1 {
        proof {
            assert(int_power(n as int, 1) == n * int_power(n as int, 0));
            lemma_root_unique(n as int, n as int, n as int, 1);
        }
        return Some(n);
    }
    let mut lo: i128 = 1;
    let mut hi: i128 = n;
    proof {
        lemma_int_power_doubles(n as int, 0, (q - 1) as nat);
        lemma_int_power_positive(n as int, (q - 1) as nat);
        let prev = int_power(n as int, (q - 1) as nat);
        assert(n * prev > n) by (nonlinear_arith)
            requires
                n >= 2,
                prev >= 2,
        ;
    }
    while hi - lo > 1
        invariant
            1 <= lo < hi <= n,
            q >= 2,
            int_power(lo as int, q as nat) <= n < int_power(hi as int, q as nat),
        decreases hi - lo,
    {
        let mid: i128 = lo + (hi - lo) / 2;
        proof {
            lemma_int_power_positive(mid as int, q as nat);
        }
        let below = match checked_int_power(mid, q) {
            Some(v) => v <= n,
            None => false,
        };
        if below {
            lo = mid;
        } else {
            hi = mid;
        }
    }
    proof {
        lemma_int_power_positive(lo as int, q as nat);
    }
    let found = match checked_int_power(lo, q) {
        Some(v) => v == n,
        None => false,
    };
    if found {
        proof {
            lemma_root_unique(lo as int, lo as int, n as int, q as nat);
        }
        Some(lo)
    } else {
        proof {
            assert forall|r: int| !is_root(r, n as int, q as nat) by {
                if 0 <= r < lo {
                    lemma_int_power_grows(r, lo as int, q as nat);
                } else if r > hi {
                    lemma_int_power_grows(hi as int, r, q as nat);
                }
            }
        }
        None
    }
}

impl Number {
    /// The root of `a` for the exponent `q`: the number that is not negative
    /// and gives `a` when raised to the power `q`. It exists where `a` is
    /// not negative and its numerator and denominator both have whole
    /// roots.
    pub open spec fn root_of(a: Number, q: int) -> Option<Number> {
        if q >= 1 && a.numer() >= 0 {
            match (int_root(a.numer(), q as nat), int_root(a.denom(), q as nat)) {
                (Some(x), Some(y)) => Some(Number::lowest_terms(x, y)),
                _ => None,
            }
        } else {
            None
        }
    }

    /// The root of `self` for the exponent `q`, if it is a rational number.
    pub fn root(&self, q: i128) -> (r: Option<Number>)
        ensures
            r == Number::root_of(*self, q as int),
            r matches Some(v) ==> v@ >= 0real && real_power(v@, q as nat) == self@,
    {
        proof {
            use_type_invariant(self);
            Number::lemma_root(*self, q as int);
        }
        if q < 1 || self.num < 0 {
            return None;
        }
        match int_root_of(self.num, q as u128) {
            None => None,
            Some(x) => match int_root_of(self.den, q as u128) {
                None => None,
                Some(y) => {
                    proof {
                        lemma_int_power_of_units(q as nat);
                    }
                    Some(reduce(x, y))
                },
            },
        }
    }

    /// A root that exists is well formed, is not negative, and gives the
    /// number back when raised to the power.
    pub proof fn lemma_root(a: Number, q: int)
        requires
            a.wf(),
        ensures
            Number::root_of(a, q) matches Some(v) ==> v.wf() && v@ >= 0real && real_power(
                v@,
                q as nat,
            ) == a@,
    {
        if Number::root_of(a, q) is Some {
            let x = int_root(a.numer(), q as nat)->0;
            let y = int_root(a.denom(), q as nat)->0;
            lemma_int_power_of_units(q as nat);
            assert(y > 0);
            lemma_int_power_grows(x, x + 1, q as nat);
            lemma_int_power_grows(y, y + 1, q as nat);
            Number::lemma_parts_fit(a);
            Number::lemma_lowest_terms(x, y);
            lemma_power_of_fraction(x, y, q as nat);
            assert(x as real / y as real >= 0real) by (nonlinear_arith)
                requires
                    x >= 0,
                    y > 0,
            ;
        }
    }
}

} // verus!
