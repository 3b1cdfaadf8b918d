use vstd::prelude::*;

verus! {

/// Tag of the "equal" outcome of a comparison.
pub struct EQ;

impl EQ {
    /// The operator the tag stands for.
    pub fn to_string() -> (s: &'static str)
        ensures
            s@ == "=="@,
    {
        "=="
    }
}

/// Tag of the "less than" outcome of a comparison.
pub struct LT;

impl LT {
    /// The operator the tag stands for.
    pub fn to_string() -> (s: &'static str)
        ensures
            s@ == "<"@,
    {
        "<"
    }
}

/// Tag of the "greater than" outcome of a comparison.
pub struct GT;

impl GT {
    /// The operator the tag stands for.
    pub fn to_string() -> (s: &'static str)
        ensures
            s@ == ">"@,
    {
        ">"
    }
}

/// Outcome of comparing two integers.
#[derive(Clone, Copy, Debug, PartialEq, Eq, Structural)]
pub enum Equality {
    EQ,
    LT,
    GT,
}

impl Equality {
    /// The operator the outcome stands for: "==", "<" or ">".
    pub fn to_string(&self) -> (s: &'static str)
        ensures
            s@ == match self {
                Equality::EQ => "=="@,
                Equality::LT => "<"@,
                Equality::GT => ">"@,
            },
    {
        match self {
            Equality::EQ => EQ::to_string(),
            Equality::LT => LT::to_string(),
            Equality::GT => GT::to_string(),
        }
    }
}

/// An integer written in unary: `Zero` is 0, `Succ(n)` is n + 1 and
/// `Pred(n)` is n - 1. In the canonical form a number has a single
/// representation: `Succ` wraps only numbers >= 0 and `Pred` only numbers <= 0.
#[derive(Debug)]
pub enum Num {
    Zero,
    Succ(Box<Num>),
    Pred(Box<Num>),
}

/// How two unary integers compare, case by case on their outermost
/// constructors (exact on canonical forms).
pub open spec fn compare_of(a: Num, b: Num) -> Equality
    decreases a,
{
    match a {
        Num::Zero => match b {
            Num::Zero => Equality::EQ,
            Num::Succ(_) => Equality::LT,
            Num::Pred(_) => Equality::GT,
        },
        Num::Succ(x) => match b {
            Num::Zero => Equality::GT,
            Num::Succ(y) => compare_of(*x, *y),
            Num::Pred(_) => Equality::GT,
        },
        Num::Pred(x) => match b {
            Num::Zero => Equality::LT,
            Num::Succ(_) => Equality::LT,
            Num::Pred(y) => compare_of(*x, *y),
        },
    }
}

/// The larger of two unary integers, case by case on their outermost
/// constructors (exact on canonical forms).
pub open spec fn max_of(a: Num, b: Num) -> Num
    decreases a,
{
    match a {
        Num::Zero => match b {
            Num::Pred(_) => Num::Zero,
            _ => b,
        },
        Num::Succ(x) => match b {
            Num::Succ(y) => Num::Succ(Box::new(max_of(*x, *y))),
            _ => a,
        },
        Num::Pred(x) => match b {
            Num::Pred(y) => Num::Pred(Box::new(max_of(*x, *y))),
            _ => b,
        },
    }
}

impl Num {
    /// The integer a unary number stands for.
    pub open spec fn int_value(self) -> int
        decreases self,
    {
        match self {
            Num::Zero => 0,
            Num::Succ(p) => p.int_value() + 1,
            Num::Pred(n) => n.int_value() - 1,
        }
    }

    /// The number is in canonical form.
    pub open spec fn canonical(self) -> bool
        decreases self,
    {
        match self {
            Num::Zero => true,
            Num::Succ(p) => p.canonical() && p.int_value() >= 0,
            Num::Pred(n) => n.canonical() && n.int_value() <= 0,
        }
    }

    /// The number and all the numbers it is built from fit in an `i32`.
    pub open spec fn fits_i32(self) -> bool
        decreases self,
    {
        &&& i32::MIN <= self.int_value() <= i32::MAX
        &&& match self {
            Num::Zero => true,
            Num::Succ(p) => p.fits_i32(),
            Num::Pred(n) => n.fits_i32(),
        }
    }

    /// The integer value of the number.
    pub fn value(&self) -> (v: i32)
        requires
            self.fits_i32(),
        ensures
            v == self.int_value(),
        decreases self,
    {
        match self {
            Num::Zero => 0,
            Num::Succ(p) => p.value() + 1,
            Num::Pred(n) => n.value() - 1,
        }
    }

    /// Compares two numbers.
    pub fn compare(&self, other: &Num) -> (r: Equality)
        ensures
            r == compare_of(*self, *other),
        decreases self,
    {
        match self {
            Num::Zero => match other {
                Num::Zero => Equality::EQ,
                Num::Succ(_) => Equality::LT,
                Num::Pred(_) => Equality::GT,
            },
            Num::Succ(x) => match other {
                Num::Zero => Equality::GT,
                Num::Succ(y) => x.compare(y),
                Num::Pred(_) => Equality::GT,
            },
            Num::Pred(x) => match other {
                Num::Zero => Equality::LT,
                Num::Succ(_) => Equality::LT,
                Num::Pred(y) => x.compare(y),
            },
        }
    }

    /// The larger of two numbers.
    pub fn maximum(self, other: Num) -> (r: Num)
        ensures
            r == max_of(self, other),
        decreases self,
    {
        match self {
            Num::Zero => match other {
                Num::Pred(_) => Num::Zero,
                o => o,
            },
            Num::Succ(x) => match other {
                Num::Succ(y) => Num::Succ(Box::new((*x).maximum(*y))),
                _ => Num::Succ(x),
            },
            Num::Pred(x) => match other {
                Num::Pred(y) => Num::Pred(Box::new((*x).maximum(*y))),
                o => o,
            },
        }
    }
}

/// `Zero` is 0, `Succ` adds exactly one and `Pred` subtracts exactly one.
pub proof fn lemma_int_value_steps(n: Num)
    ensures
        Num::Zero.int_value() == 0,
        Num::Succ(Box::new(n)).int_value() == n.int_value() + 1,
        Num::Pred(Box::new(n)).int_value() == n.int_value() - 1,
{
}

/// The comparison decides on the outermost constructors: `Zero` equals
/// `Zero`, is below a `Succ` and above a `Pred`; a `Succ` is above a `Pred`;
/// two `Succ` or two `Pred` compare as the numbers they wrap.
pub proof fn lemma_compare_steps(x: Num, y: Num)
    ensures
        compare_of(Num::Zero, Num::Zero) == Equality::EQ,
        compare_of(Num::Zero, Num::Succ(Box::new(y))) == Equality::LT,
        compare_of(Num::Succ(Box::new(x)), Num::Zero) == Equality::GT,
        compare_of(Num::Zero, Num::Pred(Box::new(y))) == Equality::GT,
        compare_of(Num::Pred(Box::new(x)), Num::Zero) == Equality::LT,
        compare_of(Num::Succ(Box::new(x)), Num::Pred(Box::new(y))) == Equality::GT,
        compare_of(Num::Pred(Box::new(x)), Num::Succ(Box::new(y))) == Equality::LT,
        compare_of(Num::Succ(Box::new(x)), Num::Succ(Box::new(y))) == compare_of(x, y),
        compare_of(Num::Pred(Box::new(x)), Num::Pred(Box::new(y))) == compare_of(x, y),
{
}

/// The maximum decides on the outermost constructors: a `Succ` wins over
/// `Zero` and `Pred`, `Zero` wins over `Pred`, and two `Succ` or two `Pred`
/// keep their constructor around the maximum of the numbers they wrap.
pub proof fn lemma_maximum_steps(x: Num, y: Num)
    ensures
        max_of(Num::Zero, Num::Zero) == Num::Zero,
        max_of(Num::Zero, Num::Succ(Box::new(y))) == Num::Succ(Box::new(y)),
        max_of(Num::Succ(Box::new(x)), Num::Zero) == Num::Succ(Box::new(x)),
        max_of(Num::Zero, Num::Pred(Box::new(y))) == Num::Zero,
        max_of(Num::Pred(Box::new(x)), Num::Zero) == Num::Zero,
        max_of(Num::Succ(Box::new(x)), Num::Pred(Box::new(y))) == Num::Succ(Box::new(x)),
        max_of(Num::Pred(Box::new(x)), Num::Succ(Box::new(y))) == Num::Succ(Box::new(y)),
        max_of(Num::Succ(Box::new(x)), Num::Succ(Box::new(y))) == Num::Succ(
            Box::new(max_of(x, y)),
        ),
        max_of(Num::Pred(Box::new(x)), Num::Pred(Box::new(y))) == Num::Pred(
            Box::new(max_of(x, y)),
        ),
{
}

/// On canonical forms the comparison agrees with the order of the values.
pub proof fn lemma_compare_agrees(a: Num, b: Num)
    requires
        a.canonical(),
        b.canonical(),
    ensures
        (compare_of(a, b) == Equality::EQ) == (a.int_value() == b.int_value()),
        (compare_of(a, b) == Equality::LT) == (a.int_value() < b.int_value()),
        (compare_of(a, b) == Equality::GT) == (a.int_value() > b.int_value()),
    decreases a,
{
    match a {
        Num::Succ(x) => match b {
            Num::Succ(y) => lemma_compare_agrees(*x, *y),
            _ => {},
        },
        Num::Pred(x) => match b {
            Num::Pred(y) => lemma_compare_agrees(*x, *y),
            _ => {},
        },
        Num::Zero => {},
    }
}

/// Comparing in the other order swaps "less" and "greater".
pub proof fn lemma_compare_antisymmetric(a: Num, b: Num)
    ensures
        (compare_of(a, b) == Equality::LT) == (compare_of(b, a) == Equality::GT),
        (compare_of(a, b) == Equality::EQ) == (compare_of(b, a) == Equality::EQ),
    decreases a,
{
    match a {
        Num::Succ(x) => match b {
            Num::Succ(y) => lemma_compare_antisymmetric(*x, *y),
            _ => {},
        },
        Num::Pred(x) => match b {
            Num::Pred(y) => lemma_compare_antisymmetric(*x, *y),
            _ => {},
        },
        Num::Zero => {},
    }
}

/// Each integer has a single canonical representation.
pub proof fn lemma_canonical_unique(a: Num, b: Num)
    requires
        a.canonical(),
        b.canonical(),
        a.int_value() == b.int_value(),
    ensures
        a == b,
    decreases a,
{
    match a {
        Num::Succ(x) => match b {
            Num::Succ(y) => lemma_canonical_unique(*x, *y),
            _ => {},
        },
        Num::Pred(x) => match b {
            Num::Pred(y) => lemma_canonical_unique(*x, *y),
            _ => {},
        },
        Num::Zero => {},
    }
}

/// On canonical forms the maximum is the canonical form of the larger value,
/// and it is one of the two arguments.
pub proof fn lemma_maximum(a: Num, b: Num)
    requires
        a.canonical(),
        b.canonical(),
    ensures
        max_of(a, b).canonical(),
        max_of(a, b).int_value() == if a.int_value() >= b.int_value() {
            a.int_value()
        } else {
            b.int_value()
        },
        max_of(a, b) == a || max_of(a, b) == b,
    decreases a,
{
    match a {
        Num::Succ(x) => match b {
            Num::Succ(y) => {
                lemma_maximum(*x, *y);
                if max_of(*x, *y) == *x {
                    assert(max_of(a, b) == a);
                } else {
                    assert(max_of(a, b) == b);
                }
            },
            _ => {},
        },
        Num::Pred(x) => match b {
            Num::Pred(y) => {
                lemma_maximum(*x, *y);
                if max_of(*x, *y) == *x {
                    assert(max_of(a, b) == a);
                } else {
                    assert(max_of(a, b) == b);
                }
            },
            _ => {},
        },
        Num::Zero => {},
    }
}

} // verus!
