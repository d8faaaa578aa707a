//! Powers of real numbers, as far as exact arithmetic reaches: whole
//! exponents, and fractions of whole numbers as exponents.

use super::number::real_power;
use vstd::prelude::*;

verus! {

/// `x` to a whole power: for a negative exponent, one over the power.
pub open spec fn whole_power(x: real, e: int) -> real {
    if e >= 0 {
        real_power(x, e as nat)
    } else {
        1real / real_power(x, (-e) as nat)
    }
}

/// Whether `e` is a whole number.
pub open spec fn is_whole(e: real) -> bool {
    e == e.floor() as real
}

/// Whether `e` is `p / q`, with a positive `q`.
pub open spec fn is_fraction(e: real, p: int, q: int) -> bool {
    q > 0 && e == p as real / q as real
}

/// Whether `y` is `x` to the power `e`: the number that is not negative and
/// whose power `q` is the power `p` of `x`, where `e` is `p / q`.
pub open spec fn is_power(x: real, e: real, y: real) -> bool {
    y >= 0real && exists|p: int, q: int| #[trigger]
        is_fraction(e, p, q) && real_power(y, q as nat) == whole_power(x, p)
}

/// `x` to the power `e`: for a whole `e` the product it abbreviates, and
/// else the number that `is_power` describes.
pub open spec fn real_to_power(x: real, e: real) -> real {
    if is_whole(e) {
        whole_power(x, e.floor())
    } else {
        choose|y: real| is_power(x, e, y)
    }
}

/// The power of a reciprocal is the reciprocal of the power.
pub proof fn lemma_power_of_reciprocal(x: real, e: nat)
    requires
        x != 0real,
    ensures
        real_power(x, e) != 0real,
        real_power(1real / x, e) == 1real / real_power(x, e),
    decreases e,
{
    if e > 0 {
        lemma_power_of_reciprocal(x, (e - 1) as nat);
        let p = real_power(x, (e - 1) as nat);
        let q = real_power(1real / x, (e - 1) as nat);
        assert(x * p != 0real && (1real / x) * q == 1real / (x * p)) by (nonlinear_arith)
            requires
                x != 0real,
                p != 0real,
                q == 1real / p,
        ;
    }
}

/// A power with a sum as exponent is the product of the powers.
pub proof fn lemma_real_power_adds(y: real, m: nat, n: nat)
    ensures
        real_power(y, m + n) == real_power(y, m) * real_power(y, n),
    decreases m,
{
    if m == 0 {
        assert(1real * real_power(y, n) == real_power(y, n)) by (nonlinear_arith);
    } else {
        lemma_real_power_adds(y, (m - 1) as nat, n);
        let (a, b, c) = (
            real_power(y, (m - 1) as nat),
            real_power(y, n),
            real_power(y, (m - 1 + n) as nat),
        );
        assert(y * c == (y * a) * b) by (nonlinear_arith)
            requires
                c == a * b,
        ;
    }
}

/// A power of a power is the power with the product as exponent.
pub proof fn lemma_real_power_of_power(y: real, a: nat, b: nat)
    ensures
        real_power(real_power(y, a), b) == real_power(y, a * b),
    decreases b,
{
    if b == 0 {
        assert(a * b == 0) by (nonlinear_arith)
            requires
                b == 0,
        ;
    } else {
        lemma_real_power_of_power(y, a, (b - 1) as nat);
        assert(a * b == a + a * (b - 1)) by (nonlinear_arith);
        assert(a * (b - 1) >= 0) by (nonlinear_arith)
            requires
                a >= 0,
                b >= 1,
        ;
        lemma_real_power_adds(y, a, (a * (b - 1)) as nat);
    }
}

/// Among numbers that are not negative, the larger has the larger power.
pub proof fn lemma_real_power_grows(y1: real, y2: real, n: nat)
    requires
        0real <= y1 < y2,
        n >= 1,
    ensures
        0real <= real_power(y1, n) < real_power(y2, n),
    decreases n,
{
    if n == 1 {
        assert(real_power(y1, 1) == y1 * real_power(y1, 0));
        assert(real_power(y2, 1) == y2 * real_power(y2, 0));
        assert(y1 * 1real == y1 && y2 * 1real == y2) by (nonlinear_arith);
    } else {
        lemma_real_power_grows(y1, y2, (n - 1) as nat);
        let (a, b) = (real_power(y1, (n - 1) as nat), real_power(y2, (n - 1) as nat));
        assert(0real <= y1 * a < y2 * b) by (nonlinear_arith)
            requires
                0real <= y1 < y2,
                0real <= a < b,
        ;
    }
}

/// A power of a number that is not negative is not negative, and a power of
/// a positive number is positive.
pub proof fn lemma_real_power_sign(y: real, n: nat)
    requires
        y >= 0real,
    ensures
        real_power(y, n) >= 0real,
        y > 0real ==> real_power(y, n) > 0real,
        n >= 1 && y == 0real ==> real_power(y, n) == 0real,
    decreases n,
{
    if n > 0 {
        lemma_real_power_sign(y, (n - 1) as nat);
        let a = real_power(y, (n - 1) as nat);
        assert(y * a >= 0real && (y > 0real && a > 0real ==> y * a > 0real) && (y == 0real ==> y
            * a == 0real)) by (nonlinear_arith)
            requires
                y >= 0real,
                a >= 0real,
        ;
    }
}

/// A whole power of a whole power is the whole power with the product as
/// exponent, for a base other than zero or exponents that are not negative.
pub proof fn lemma_whole_power_of_power(x: real, p: int, k: int)
    requires
        x != 0real || (p >= 0 && k >= 0),
    ensures
        whole_power(whole_power(x, p), k) == whole_power(x, p * k),
{
    let (pm, km) = (
        if p >= 0 {
            p as nat
        } else {
            (-p) as nat
        },
        if k >= 0 {
            k as nat
        } else {
            (-k) as nat
        },
    );
    lemma_real_power_of_power(x, pm, km);
    let big = real_power(x, pm);
    assert(pm * km >= 0 && (pm * km == p * k || pm * km == -(p * k)) && ((p >= 0 && k >= 0) || (p
        < 0 && k < 0) ==> pm * km == p * k) && (p == 0 || k == 0 ==> p * k == 0) && ((p > 0 && k
        < 0) || (p < 0 && k > 0) ==> p * k < 0 && pm * km == -(p * k))) by (nonlinear_arith)
        requires
            pm == if p >= 0 {
                p
            } else {
                -p
            },
            km == if k >= 0 {
                k
            } else {
                -k
            },
    ;
    if x != 0real {
        lemma_power_of_reciprocal(x, pm);
        lemma_power_of_reciprocal(big, km);
        lemma_power_of_reciprocal(x, pm * km);
        let top = real_power(x, pm * km);
        assert(1real / (1real / top) == top) by (nonlinear_arith)
            requires
                top != 0real,
        ;
    }
}

/// A number that is not negative has one power at most for each exponent.
pub proof fn lemma_power_unique(x: real, e: real, y1: real, y2: real)
    requires
        x > 0real || (x == 0real && e > 0real),
        is_power(x, e, y1),
        is_power(x, e, y2),
    ensures
        y1 == y2,
{
    let (p1, q1) = choose|p: int, q: int| #[trigger]
        is_fraction(e, p, q) && real_power(y1, q as nat) == whole_power(x, p);
    let (p2, q2) = choose|p: int, q: int| #[trigger]
        is_fraction(e, p, q) && real_power(y2, q as nat) == whole_power(x, p);
    assert(p1 * q2 == p2 * q1 && q1 * q2 == q2 * q1 && q1 * q2 >= 1 && (e > 0real ==> p1 > 0 && p2
        > 0)) by (nonlinear_arith)
        requires
            q1 > 0,
            q2 > 0,
            e == p1 as real / q1 as real,
            e == p2 as real / q2 as real,
    ;
    lemma_real_power_of_power(y1, q1 as nat, q2 as nat);
    lemma_real_power_of_power(y2, q2 as nat, q1 as nat);
    lemma_whole_power_of_power(x, p1, q2);
    lemma_whole_power_of_power(x, p2, q1);
    let n = (q1 * q2) as nat;
    assert(real_power(y1, n) == real_power(y2, n));
    if y1 < y2 {
        lemma_real_power_grows(y1, y2, n);
    } else if y2 < y1 {
        lemma_real_power_grows(y2, y1, n);
    }
}

} // verus!
