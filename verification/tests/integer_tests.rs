use rt_analysis::integer::{Equality, Num, EQ, GT, LT};

fn zero() -> Num {
    Num::Zero
}

fn succ(n: Num) -> Num {
    Num::Succ(Box::new(n))
}

fn pred(n: Num) -> Num {
    Num::Pred(Box::new(n))
}

#[test]
fn common_test_cmp() {
    assert!(succ(zero()).value() > zero().value());
    assert!(succ(succ(zero())).value() > succ(zero()).value());
    assert!(succ(zero()).value() == succ(zero()).value());
    assert!(succ(zero()).value() < succ(succ(zero())).value());
    assert!(pred(zero()).value() < zero().value());
    assert!(zero().value() > pred(zero()).value());
    assert!(pred(pred(zero())).value() < pred(zero()).value());
    assert!(pred(zero()).value() > pred(pred(zero())).value());
    assert!(succ(zero()).value() > pred(zero()).value());
    assert!(pred(zero()).value() < succ(zero()).value());
}

#[test]
fn lib_test_cmp() {
    assert!(succ(zero()).value() > zero().value());
    assert!(succ(succ(zero())).value() > succ(zero()).value());
    assert!(succ(zero()).value() == succ(zero()).value());
    assert!(succ(zero()).value() < succ(succ(zero())).value());
    assert!(pred(zero()).value() < zero().value());
    assert!(zero().value() > pred(zero()).value());
    assert!(pred(pred(zero())).value() < pred(zero()).value());
    assert!(pred(zero()).value() > pred(pred(zero())).value());
    assert!(succ(zero()).value() > pred(zero()).value());
    assert!(pred(zero()).value() < succ(zero()).value());
}

#[test]
fn common_test_max() {
    assert_eq!(zero().maximum(succ(zero())).value(), 1);
    assert_eq!(succ(zero()).maximum(zero()).value(), 1);
    assert_eq!(succ(zero()).maximum(succ(succ(zero()))).value(), 2);
    assert_eq!(succ(succ(succ(zero()))).maximum(zero()).value(), 3);

    assert_eq!(zero().maximum(pred(zero())).value(), 0);
    assert_eq!(pred(zero()).maximum(pred(pred(zero()))).value(), -1);
    assert_eq!(pred(pred(pred(zero()))).maximum(pred(pred(zero()))).value(), -2);

    assert_eq!(succ(zero()).maximum(pred(zero())).value(), 1);
    assert_eq!(pred(pred(zero())).maximum(succ(succ(zero()))).value(), 2);
}

#[test]
fn lib_test_max() {
    assert_eq!(zero().maximum(succ(zero())).value(), 1);
    assert_eq!(succ(zero()).maximum(zero()).value(), 1);
    assert_eq!(succ(zero()).maximum(succ(succ(zero()))).value(), 2);
    assert_eq!(succ(succ(succ(zero()))).maximum(zero()).value(), 3);
}

#[test]
fn compare_outcomes() {
    assert_eq!(zero().compare(&zero()), Equality::EQ);
    assert_eq!(zero().compare(&succ(zero())), Equality::LT);
    assert_eq!(succ(zero()).compare(&zero()), Equality::GT);
    assert_eq!(zero().compare(&pred(zero())), Equality::GT);
    assert_eq!(pred(zero()).compare(&zero()), Equality::LT);
    assert_eq!(succ(succ(zero())).compare(&succ(zero())), Equality::GT);
    assert_eq!(pred(pred(zero())).compare(&pred(zero())), Equality::LT);
    assert_eq!(succ(zero()).compare(&pred(pred(zero()))), Equality::GT);
    assert_eq!(pred(zero()).compare(&succ(zero())), Equality::LT);
}

#[test]
fn compare_swapped_operands() {
    let a = succ(succ(zero()));
    let b = pred(zero());
    assert_eq!(a.compare(&b), Equality::GT);
    assert_eq!(b.compare(&a), Equality::LT);
    assert_eq!(a.compare(&succ(succ(zero()))), Equality::EQ);
}

#[test]
fn relation_names() {
    assert_eq!(EQ::to_string(), "==");
    assert_eq!(LT::to_string(), "<");
    assert_eq!(GT::to_string(), ">");
    assert_eq!(Equality::EQ.to_string(), "==");
    assert_eq!(Equality::LT.to_string(), "<");
    assert_eq!(Equality::GT.to_string(), ">");
}

#[test]
fn value_of_non_canonical_form() {
    // Pred(Succ(Zero)) stands for 0 although it is not the canonical form
    assert_eq!(pred(succ(zero())).value(), 0);
}

#[test]
fn maximum_keeps_one_argument() {
    let m = pred(pred(zero())).maximum(pred(zero()));
    assert_eq!(m.value(), -1);
    assert_eq!(m.compare(&pred(zero())), Equality::EQ);
}
