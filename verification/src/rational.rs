use vstd::prelude::*;
use vstd::arithmetic::div_mod::*;
use vstd::arithmetic::mul::*;

verus! {

/// A fraction `numerator / denominator`. The arithmetic operations return
/// their result divided by the greatest common divisor of its two parts.
#[derive(Clone, Copy, Debug)]
pub struct Rational {
    pub numerator: i32,
    pub denominator: i32,
}

/// Euclid's algorithm on natural numbers.
pub open spec fn euclid(a: nat, b: nat) -> nat
    decreases b,
{
    if b == 0 {
        a
    } else {
        euclid(b, a % b)
    }
}

/// Absolute value.
pub open spec fn abs(x: int) -> nat {
    if x < 0 {
        (-x) as nat
    } else {
        x as nat
    }
}

/// Greatest common divisor of two integers: Euclid's algorithm on their
/// absolute values, the larger one first.
pub open spec fn gcd_of(x: int, y: int) -> nat {
    if abs(x) >= abs(y) {
        euclid(abs(x), abs(y))
    } else {
        euclid(abs(y), abs(x))
    }
}

/// A pair (numerator, denominator) with both parts divided by their
/// greatest common divisor.
pub open spec fn reduced(p: (int, int)) -> (int, int) {
    let g = gcd_of(p.0, p.1) as int;
    (p.0 / g, p.1 / g)
}

/// Both parts of the pair fit in an `i32`.
pub open spec fn fits_i32(p: (int, int)) -> bool {
    i32::MIN <= p.0 <= i32::MAX && i32::MIN <= p.1 <= i32::MAX
}

/// The parts of `a` as a pair.
pub open spec fn parts(a: Rational) -> (int, int) {
    (a.numerator as int, a.denominator as int)
}

/// Unreduced sum: `(n1 * d2 + n2 * d1, d1 * d2)`.
pub open spec fn sum_parts(a: Rational, b: Rational) -> (int, int) {
    (a.numerator * b.denominator + b.numerator * a.denominator, a.denominator * b.denominator)
}

/// Unreduced difference: `(n1 * d2 - n2 * d1, d1 * d2)`.
pub open spec fn difference_parts(a: Rational, b: Rational) -> (int, int) {
    (a.numerator * b.denominator - b.numerator * a.denominator, a.denominator * b.denominator)
}

/// Unreduced product: `(n1 * n2, d1 * d2)`.
pub open spec fn product_parts(a: Rational, b: Rational) -> (int, int) {
    (a.numerator * b.numerator, a.denominator * b.denominator)
}

/// Unreduced quotient: `(n1 * d2, d1 * n2)`.
pub open spec fn quotient_parts(a: Rational, b: Rational) -> (int, int) {
    (a.numerator * b.denominator, a.denominator * b.numerator)
}

/// The outcome of an operation whose unreduced result is `p`: the reduced
/// pair when it fits in `i32`s, `None` otherwise.
pub open spec fn outcome_matches(r: Option<Rational>, p: (int, int)) -> bool {
    match r {
        Some(q) => parts(q) == reduced(p),
        None => !fits_i32(reduced(p)),
    }
}

/// Euclid's result divides both arguments: the returned cofactors.
pub proof fn lemma_euclid_divides(a: nat, b: nat) -> (k: (int, int))
    ensures
        a == euclid(a, b) * k.0,
        b == euclid(a, b) * k.1,
        k.0 >= 0,
        k.1 >= 0,
    decreases b,
{
    if b == 0 {
        (1, 0)
    } else {
        let r = a % b;
        let q = a / b;
        lemma_fundamental_div_mod(a as int, b as int);
        lemma_mod_bound(a as int, b as int);
        let k = lemma_euclid_divides(b, r as nat);
        let g = euclid(a, b) as int;
        assert(a == g * (k.0 * q + k.1)) by (nonlinear_arith)
            requires
                a == b * q + r,
                b == g * k.0,
                r == g * k.1,
        ;
        assert(k.0 * q + k.1 >= 0) by (nonlinear_arith)
            requires
                k.0 >= 0,
                k.1 >= 0,
                q >= 0,
        ;
        (k.0 * q + k.1, k.0)
    }
}

/// Any common divisor `c` of `a` and `b` divides Euclid's result: the
/// returned cofactor.
pub proof fn lemma_common_divisor(a: nat, b: nat, c: int, ka: int, kb: int) -> (k: int)
    requires
        a == c * ka,
        b == c * kb,
    ensures
        euclid(a, b) == c * k,
    decreases b,
{
    if b == 0 {
        ka
    } else {
        let r = a % b;
        let q = a / b;
        lemma_fundamental_div_mod(a as int, b as int);
        lemma_mod_bound(a as int, b as int);
        assert(r == c * (ka - kb * q)) by (nonlinear_arith)
            requires
                a == b * q + r,
                a == c * ka,
                b == c * kb,
        ;
        lemma_common_divisor(b, r as nat, c, kb, ka - kb * q)
    }
}

/// Euclid's result is positive unless both arguments are 0.
pub proof fn lemma_euclid_positive(a: nat, b: nat)
    requires
        a > 0 || b > 0,
    ensures
        euclid(a, b) > 0,
    decreases b,
{
    if b > 0 {
        lemma_euclid_positive(b, a % b);
    }
}

/// The greatest common divisor divides both parts, which are `g * c.0` and
/// `g * c.1` for the returned (signed) cofactors `c`.
pub proof fn lemma_gcd_of_divides(x: int, y: int) -> (c: (int, int))
    requires
        x != 0 || y != 0,
    ensures
        gcd_of(x, y) > 0,
        x == gcd_of(x, y) * c.0,
        y == gcd_of(x, y) * c.1,
        abs(c.0) == abs(x) / gcd_of(x, y),
        abs(c.1) == abs(y) / gcd_of(x, y),
{
    let g = gcd_of(x, y) as int;
    let (ka, kb) = if abs(x) >= abs(y) {
        lemma_euclid_positive(abs(x), abs(y));
        lemma_euclid_divides(abs(x), abs(y))
    } else {
        lemma_euclid_positive(abs(y), abs(x));
        let k = lemma_euclid_divides(abs(y), abs(x));
        (k.1, k.0)
    };
    lemma_div_multiples_vanish(ka, g);
    lemma_div_multiples_vanish(kb, g);
    let cx = if x < 0 {
        -ka
    } else {
        ka
    };
    let cy = if y < 0 {
        -kb
    } else {
        kb
    };
    assert(x == g * cx) by (nonlinear_arith)
        requires
            abs(x) == g * ka,
            cx == (if x < 0 {
                -ka
            } else {
                ka
            }),
            abs(x) == (if x < 0 {
                -x
            } else {
                x
            }),
    ;
    assert(y == g * cy) by (nonlinear_arith)
        requires
            abs(y) == g * kb,
            cy == (if y < 0 {
                -kb
            } else {
                kb
            }),
            abs(y) == (if y < 0 {
                -y
            } else {
                y
            }),
    ;
    (cx, cy)
}

/// A reduced pair is `p` divided by the greatest common divisor of its
/// parts: the same fraction (`n' * d == n * d'`), the denominator stays
/// nonzero, and the reduced parts have no common divisor but 1.
pub proof fn lemma_reduced(p: (int, int))
    requires
        p.0 != 0 || p.1 != 0,
    ensures
        reduced(p).0 * p.1 == p.0 * reduced(p).1,
        p.1 != 0 ==> reduced(p).1 != 0,
        gcd_of(reduced(p).0, reduced(p).1) == 1,
{
    let g = gcd_of(p.0, p.1) as int;
    let c = lemma_gcd_of_divides(p.0, p.1);
    lemma_div_multiples_vanish(c.0, g);
    lemma_div_multiples_vanish(c.1, g);
    assert(reduced(p) == c);
    assert(c.0 * p.1 == p.0 * c.1) by (nonlinear_arith)
        requires
            p.0 == g * c.0,
            p.1 == g * c.1,
    ;
    // the cofactors are not both 0
    assert(c.0 != 0 || c.1 != 0) by (nonlinear_arith)
        requires
            p.0 == g * c.0,
            p.1 == g * c.1,
            p.0 != 0 || p.1 != 0,
    ;
    // any common divisor h of the cofactors makes g * h divide g
    let h = gcd_of(c.0, c.1) as int;
    let e = lemma_gcd_of_divides(c.0, c.1);
    let ga = abs(p.0);
    let gb = abs(p.1);
    let ea = if p.0 < 0 {
        -e.0
    } else {
        e.0
    };
    let eb = if p.1 < 0 {
        -e.1
    } else {
        e.1
    };
    assert(ga == (g * h) * ea) by (nonlinear_arith)
        requires
            p.0 == g * c.0,
            c.0 == h * e.0,
            ga == (if p.0 < 0 {
                -p.0
            } else {
                p.0
            }),
            ea == (if p.0 < 0 {
                -e.0
            } else {
                e.0
            }),
    ;
    assert(gb == (g * h) * eb) by (nonlinear_arith)
        requires
            p.1 == g * c.1,
            c.1 == h * e.1,
            gb == (if p.1 < 0 {
                -p.1
            } else {
                p.1
            }),
            eb == (if p.1 < 0 {
                -e.1
            } else {
                e.1
            }),
    ;
    let m = if ga >= gb {
        lemma_common_divisor(ga, gb, g * h, ea, eb)
    } else {
        lemma_common_divisor(gb, ga, g * h, eb, ea)
    };
    assert(h == 1) by (nonlinear_arith)
        requires
            g == (g * h) * m,
            g > 0,
            h > 0,
    ;
}

/// The greatest common divisor is the greatest one: every common divisor
/// `c` > 0 of `x` and `y` divides it (the returned cofactor).
pub proof fn lemma_gcd_of_greatest(x: int, y: int, c: int, kx: int, ky: int) -> (k: int)
    requires
        c > 0,
        x == c * kx,
        y == c * ky,
    ensures
        gcd_of(x, y) == c * k,
{
    let ax = if x < 0 {
        -kx
    } else {
        kx
    };
    let ay = if y < 0 {
        -ky
    } else {
        ky
    };
    assert(abs(x) == c * ax) by (nonlinear_arith)
        requires
            x == c * kx,
            ax == (if x < 0 {
                -kx
            } else {
                kx
            }),
            abs(x) == (if x < 0 {
                -x
            } else {
                x
            }),
    ;
    assert(abs(y) == c * ay) by (nonlinear_arith)
        requires
            y == c * ky,
            ay == (if y < 0 {
                -ky
            } else {
                ky
            }),
            abs(y) == (if y < 0 {
                -y
            } else {
                y
            }),
    ;
    if abs(x) >= abs(y) {
        lemma_common_divisor(abs(x), abs(y), c, ax, ay)
    } else {
        lemma_common_divisor(abs(y), abs(x), c, ay, ax)
    }
}

/// The reduced sum `n / d` is the sum of the fractions:
/// `n * (d1 * d2) == d * (n1 * d2 + n2 * d1)`, in lowest terms.
pub proof fn lemma_add_value(a: Rational, b: Rational) -> (g: int)
    requires
        sum_parts(a, b).0 != 0 || sum_parts(a, b).1 != 0,
    ensures
        g > 0,
        a.numerator * b.denominator + b.numerator * a.denominator == g * reduced(sum_parts(a, b)).0,
        a.denominator * b.denominator == g * reduced(sum_parts(a, b)).1,
        reduced(sum_parts(a, b)).0 * (a.denominator * b.denominator) == reduced(sum_parts(a, b)).1
            * (a.numerator * b.denominator + b.numerator * a.denominator),
        gcd_of(reduced(sum_parts(a, b)).0, reduced(sum_parts(a, b)).1) == 1,
{
    let p = sum_parts(a, b);
    lemma_reduced(p);
    let r = reduced(p);
    let c = lemma_gcd_of_divides(p.0, p.1);
    lemma_div_multiples_vanish(c.0, gcd_of(p.0, p.1) as int);
    lemma_div_multiples_vanish(c.1, gcd_of(p.0, p.1) as int);
    assert(r.0 * p.1 == r.1 * p.0) by (nonlinear_arith)
        requires
            r.0 * p.1 == p.0 * r.1,
    ;
    gcd_of(p.0, p.1) as int
}

/// The reduced difference `n / d` is the difference of the fractions:
/// `n * (d1 * d2) == d * (n1 * d2 - n2 * d1)`, in lowest terms.
pub proof fn lemma_sub_value(a: Rational, b: Rational) -> (g: int)
    requires
        difference_parts(a, b).0 != 0 || difference_parts(a, b).1 != 0,
    ensures
        g > 0,
        a.numerator * b.denominator - b.numerator * a.denominator == g * reduced(difference_parts(a, b)).0,
        a.denominator * b.denominator == g * reduced(difference_parts(a, b)).1,
        reduced(difference_parts(a, b)).0 * (a.denominator * b.denominator) == reduced(
            difference_parts(a, b),
        ).1 * (a.numerator * b.denominator - b.numerator * a.denominator),
        gcd_of(reduced(difference_parts(a, b)).0, reduced(difference_parts(a, b)).1) == 1,
{
    let p = difference_parts(a, b);
    lemma_reduced(p);
    let r = reduced(p);
    let c = lemma_gcd_of_divides(p.0, p.1);
    lemma_div_multiples_vanish(c.0, gcd_of(p.0, p.1) as int);
    lemma_div_multiples_vanish(c.1, gcd_of(p.0, p.1) as int);
    assert(r.0 * p.1 == r.1 * p.0) by (nonlinear_arith)
        requires
            r.0 * p.1 == p.0 * r.1,
    ;
    gcd_of(p.0, p.1) as int
}

/// The reduced product `n / d` is the product of the fractions:
/// `n * (d1 * d2) == d * (n1 * n2)`, in lowest terms.
pub proof fn lemma_mul_value(a: Rational, b: Rational) -> (g: int)
    requires
        product_parts(a, b).0 != 0 || product_parts(a, b).1 != 0,
    ensures
        g > 0,
        a.numerator * b.numerator == g * reduced(product_parts(a, b)).0,
        a.denominator * b.denominator == g * reduced(product_parts(a, b)).1,
        reduced(product_parts(a, b)).0 * (a.denominator * b.denominator) == reduced(
            product_parts(a, b),
        ).1 * (a.numerator * b.numerator),
        gcd_of(reduced(product_parts(a, b)).0, reduced(product_parts(a, b)).1) == 1,
{
    let p = product_parts(a, b);
    lemma_reduced(p);
    let r = reduced(p);
    let c = lemma_gcd_of_divides(p.0, p.1);
    lemma_div_multiples_vanish(c.0, gcd_of(p.0, p.1) as int);
    lemma_div_multiples_vanish(c.1, gcd_of(p.0, p.1) as int);
    assert(r.0 * p.1 == r.1 * p.0) by (nonlinear_arith)
        requires
            r.0 * p.1 == p.0 * r.1,
    ;
    gcd_of(p.0, p.1) as int
}

/// The reduced quotient `n / d` is the first fraction divided by the
/// second: `n * (d1 * n2) == d * (n1 * d2)`, in lowest terms.
pub proof fn lemma_div_value(a: Rational, b: Rational) -> (g: int)
    requires
        quotient_parts(a, b).0 != 0 || quotient_parts(a, b).1 != 0,
    ensures
        g > 0,
        a.numerator * b.denominator == g * reduced(quotient_parts(a, b)).0,
        a.denominator * b.numerator == g * reduced(quotient_parts(a, b)).1,
        reduced(quotient_parts(a, b)).0 * (a.denominator * b.numerator) == reduced(
            quotient_parts(a, b),
        ).1 * (a.numerator * b.denominator),
        gcd_of(reduced(quotient_parts(a, b)).0, reduced(quotient_parts(a, b)).1) == 1,
{
    let p = quotient_parts(a, b);
    lemma_reduced(p);
    let r = reduced(p);
    let c = lemma_gcd_of_divides(p.0, p.1);
    lemma_div_multiples_vanish(c.0, gcd_of(p.0, p.1) as int);
    lemma_div_multiples_vanish(c.1, gcd_of(p.0, p.1) as int);
    assert(r.0 * p.1 == r.1 * p.0) by (nonlinear_arith)
        requires
            r.0 * p.1 == p.0 * r.1,
    ;
    gcd_of(p.0, p.1) as int
}

/// Addition does not depend on the order of the operands.
pub proof fn lemma_add_commutative(a: Rational, b: Rational)
    ensures
        reduced(sum_parts(a, b)) == reduced(sum_parts(b, a)),
{
    assert(sum_parts(a, b) == sum_parts(b, a)) by (nonlinear_arith);
}

/// Multiplication does not depend on the order of the operands.
pub proof fn lemma_mul_commutative(a: Rational, b: Rational)
    ensures
        reduced(product_parts(a, b)) == reduced(product_parts(b, a)),
{
    assert(product_parts(a, b) == product_parts(b, a)) by (nonlinear_arith);
}

/// A fraction with a nonzero denominator minus itself is 0/1.
pub proof fn lemma_sub_self(a: Rational)
    requires
        a.denominator != 0,
    ensures
        reduced(difference_parts(a, a)) == (0int, 1int),
{
    let d = a.denominator * a.denominator;
    assert(d > 0) by (nonlinear_arith)
        requires
            a.denominator != 0,
            d == a.denominator * a.denominator,
    ;
    assert(difference_parts(a, a) == (0int, d));
    assert(gcd_of(0, d) == d);
    lemma_div_multiples_vanish(1, d);
}

/// The product of two `i32`s, computed exactly.
fn wide_product(x: i32, y: i32) -> (r: i128)
    ensures
        r == x * y,
        -0x4000_0000_0000_0000 <= r <= 0x4000_0000_0000_0000,
{
    assert(-0x4000_0000_0000_0000 <= x * y <= 0x4000_0000_0000_0000) by (nonlinear_arith)
        requires
            -0x8000_0000 <= x <= 0x7fff_ffff,
            -0x8000_0000 <= y <= 0x7fff_ffff,
    ;
    x as i128 * y as i128
}

/// Absolute value of an `i128` as a `u128`.
fn magnitude(x: i128) -> (r: u128)
    ensures
        r == abs(x as int),
{
    if x < 0 {
        (-(x + 1)) as u128 + 1
    } else {
        x as u128
    }
}

/// Greatest common divisor of two integers by Euclid's algorithm on their
/// absolute values, the larger one first.
pub fn gcd(x: i128, y: i128) -> (g: u128)
    ensures
        g == gcd_of(x as int, y as int),
{
    let ax = magnitude(x);
    let ay = magnitude(y);
    let mut a: u128;
    let mut b: u128;
    if ax >= ay {
        a = ax;
        b = ay;
    } else {
        a = ay;
        b = ax;
    }
    while b != 0
        invariant
            euclid(a as nat, b as nat) == gcd_of(x as int, y as int),
        decreases b,
    {
        let r = a % b;
        a = b;
        b = r;
    }
    a
}

/// Divides both parts of `(n, d)` by their greatest common divisor;
/// `None` when a reduced part does not fit in an `i32`.
fn reduce(n: i128, d: i128) -> (r: Option<Rational>)
    requires
        n != 0 || d != 0,
        -0x8000_0000_0000_0000 <= n <= 0x8000_0000_0000_0000,
        -0x8000_0000_0000_0000 <= d <= 0x8000_0000_0000_0000,
    ensures
        outcome_matches(r, (n as int, d as int)),
{
    let g = gcd(n, d);
    let ghost c = lemma_gcd_of_divides(n as int, d as int);
    let an = magnitude(n) / g;
    let ad = magnitude(d) / g;
    proof {
        lemma_div_is_ordered_by_denominator(abs(n as int) as int, 1, g as int);
        lemma_div_is_ordered_by_denominator(abs(d as int) as int, 1, g as int);
        lemma_div_multiples_vanish(c.0, g as int);
        lemma_div_multiples_vanish(c.1, g as int);
    }
    let rn: i128 = if n < 0 {
        -(an as i128)
    } else {
        an as i128
    };
    let rd: i128 = if d < 0 {
        -(ad as i128)
    } else {
        ad as i128
    };
    proof {
        assert(rn == c.0 && rd == c.1) by (nonlinear_arith)
            requires
                n == g * c.0,
                d == g * c.1,
                g > 0,
                an == abs(c.0),
                ad == abs(c.1),
                rn == (if n < 0 {
                    -an
                } else {
                    an as int
                }),
                rd == (if d < 0 {
                    -ad
                } else {
                    ad as int
                }),
        ;
    }
    if rn < i32::MIN as i128 || rn > i32::MAX as i128 || rd < i32::MIN as i128 || rd
        > i32::MAX as i128 {
        None
    } else {
        Some(Rational { numerator: rn as i32, denominator: rd as i32 })
    }
}

impl Rational {
    /// The sum, reduced; `None` when a reduced part does not fit in an `i32`.
    pub fn add(self, other: Rational) -> (r: Option<Rational>)
        requires
            sum_parts(self, other).0 != 0 || sum_parts(self, other).1 != 0,
        ensures
            outcome_matches(r, sum_parts(self, other)),
            r is Some <==> (i32::MIN <= reduced(sum_parts(self, other)).0 <= i32::MAX && i32::MIN
                <= reduced(sum_parts(self, other)).1 <= i32::MAX),
            r matches Some(q) ==> q.numerator == reduced(sum_parts(self, other)).0 && q.denominator
                == reduced(sum_parts(self, other)).1,
    {
        let n = wide_product(self.numerator, other.denominator) + wide_product(
            other.numerator,
            self.denominator,
        );
        let d = wide_product(self.denominator, other.denominator);
        reduce(n, d)
    }

    /// The difference, reduced; `None` when a reduced part does not fit in an `i32`.
    pub fn sub(self, other: Rational) -> (r: Option<Rational>)
        requires
            difference_parts(self, other).0 != 0 || difference_parts(self, other).1 != 0,
        ensures
            outcome_matches(r, difference_parts(self, other)),
            r is Some <==> (i32::MIN <= reduced(difference_parts(self, other)).0 <= i32::MAX && i32::MIN
                <= reduced(difference_parts(self, other)).1 <= i32::MAX),
            r matches Some(q) ==> q.numerator == reduced(difference_parts(self, other)).0 && q.denominator
                == reduced(difference_parts(self, other)).1,
    {
        let n = wide_product(self.numerator, other.denominator) - wide_product(
            other.numerator,
            self.denominator,
        );
        let d = wide_product(self.denominator, other.denominator);
        reduce(n, d)
    }

    /// The product, reduced; `None` when a reduced part does not fit in an `i32`.
    pub fn mul(self, other: Rational) -> (r: Option<Rational>)
        requires
            product_parts(self, other).0 != 0 || product_parts(self, other).1 != 0,
        ensures
            outcome_matches(r, product_parts(self, other)),
            r is Some <==> (i32::MIN <= reduced(product_parts(self, other)).0 <= i32::MAX && i32::MIN
                <= reduced(product_parts(self, other)).1 <= i32::MAX),
            r matches Some(q) ==> q.numerator == reduced(product_parts(self, other)).0 && q.denominator
                == reduced(product_parts(self, other)).1,
    {
        let n = wide_product(self.numerator, other.numerator);
        let d = wide_product(self.denominator, other.denominator);
        reduce(n, d)
    }

    /// The quotient, reduced; `None` when a reduced part does not fit in an `i32`.
    pub fn div(self, other: Rational) -> (r: Option<Rational>)
        requires
            quotient_parts(self, other).0 != 0 || quotient_parts(self, other).1 != 0,
        ensures
            outcome_matches(r, quotient_parts(self, other)),
            r is Some <==> (i32::MIN <= reduced(quotient_parts(self, other)).0 <= i32::MAX && i32::MIN
                <= reduced(quotient_parts(self, other)).1 <= i32::MAX),
            r matches Some(q) ==> q.numerator == reduced(quotient_parts(self, other)).0 && q.denominator
                == reduced(quotient_parts(self, other)).1,
    {
        let n = wide_product(self.numerator, other.denominator);
        let d = wide_product(self.denominator, other.numerator);
        reduce(n, d)
    }
}

} // verus!
