use rt_analysis::rational::{gcd, Rational};

fn r(numerator: i32, denominator: i32) -> Rational {
    Rational { numerator, denominator }
}

#[test]
fn rational_test_rational_add() {
    let sum = r(1, 2).add(r(1, 4)).unwrap();
    assert_eq!(sum.numerator, 3);
    assert_eq!(sum.denominator, 4);

    let sum2 = r(3, 8).add(r(1, 3)).unwrap();
    assert_eq!(sum2.numerator, 17);
    assert_eq!(sum2.denominator, 24);

    let sum3 = r(-1, 3).add(r(-4, 6)).unwrap();
    assert_eq!(sum3.numerator, -1);
    assert_eq!(sum3.denominator, 1);
}

#[test]
fn test_rational_sub() {
    let diff = r(1, 2).sub(r(1, 4)).unwrap();
    assert_eq!(diff.numerator, 1);
    assert_eq!(diff.denominator, 4);

    let diff2 = r(3, 8).sub(r(1, 3)).unwrap();
    assert_eq!(diff2.numerator, 1);
    assert_eq!(diff2.denominator, 24);

    let diff3 = r(1, 4).sub(r(1, 2)).unwrap();
    assert_eq!(diff3.numerator, -1);
    assert_eq!(diff3.denominator, 4);

    let diff4 = r(-1, 3).sub(r(-4, 6)).unwrap();
    assert_eq!(diff4.numerator, 1);
    assert_eq!(diff4.denominator, 3);
}

#[test]
fn test_rational_mul() {
    let prod = r(1, 2).mul(r(1, 4)).unwrap();
    assert_eq!(prod.numerator, 1);
    assert_eq!(prod.denominator, 8);

    let prod2 = r(3, 8).mul(r(1, 3)).unwrap();
    assert_eq!(prod2.numerator, 1);
    assert_eq!(prod2.denominator, 8);

    let prod3 = r(-3, 8).mul(r(1, 3)).unwrap();
    assert_eq!(prod3.numerator, -1);
    assert_eq!(prod3.denominator, 8);
}

#[test]
fn test_rational_div() {
    let quot = r(1, 2).div(r(1, 4)).unwrap();
    assert_eq!(quot.numerator, 2);
    assert_eq!(quot.denominator, 1);

    let quot2 = r(3, 8).div(r(1, 3)).unwrap();
    assert_eq!(quot2.numerator, 9);
    assert_eq!(quot2.denominator, 8);

    let quot3 = r(-3, 8).div(r(1, 3)).unwrap();
    assert_eq!(quot3.numerator, -9);
    assert_eq!(quot3.denominator, 8);
}

#[test]
fn common_test_rational_add() {
    let r1 = r(1, 2);
    let r2 = r(1, 4);

    let sum = r1.add(r2).unwrap();
    println!("Numerator: {}", sum.numerator);
    println!("Denominator: {}", sum.denominator);

    let diff = r1.sub(r2).unwrap();
    println!("Numerator: {}", diff.numerator);
    println!("Denominator: {}", diff.denominator);

    let prod = r1.mul(r2).unwrap();
    println!("Numerator: {}", prod.numerator);
    println!("Denominator: {}", prod.denominator);

    let quot = r1.div(r2).unwrap();
    println!("Numerator: {}", quot.numerator);
    println!("Denominator: {}", quot.denominator);
}

#[test]
fn gcd_values() {
    assert_eq!(gcd(12, 18), 6);
    assert_eq!(gcd(-12, 18), 6);
    assert_eq!(gcd(18, -12), 6);
    assert_eq!(gcd(7, 0), 7);
    assert_eq!(gcd(0, -7), 7);
    assert_eq!(gcd(17, 5), 1);
    assert_eq!(gcd(i128::MIN, 0), 1u128 << 127);
}

#[test]
fn result_overflows_i32() {
    assert!(r(i32::MAX, 1).add(r(i32::MAX, 1)).is_none());
    assert!(r(i32::MIN, 1).mul(r(-1, 1)).is_none());
    assert!(r(i32::MIN, 1).sub(r(1, 1)).is_none());
    assert!(r(1, i32::MAX).div(r(2, 1)).is_none());
}

#[test]
fn large_parts_reduce_into_range() {
    // the unreduced parts are far outside i32, the reduced ones are not
    let sum = r(i32::MIN, i32::MIN).add(r(i32::MIN, i32::MIN)).unwrap();
    assert_eq!((sum.numerator, sum.denominator), (2, 1));
}

#[test]
fn commutative_operations() {
    let a = r(3, 8);
    let b = r(-5, 12);
    let ab = a.add(b).unwrap();
    let ba = b.add(a).unwrap();
    assert_eq!((ab.numerator, ab.denominator), (ba.numerator, ba.denominator));
    assert_eq!((ab.numerator, ab.denominator), (-1, 24));
    let ab = a.mul(b).unwrap();
    let ba = b.mul(a).unwrap();
    assert_eq!((ab.numerator, ab.denominator), (ba.numerator, ba.denominator));
    assert_eq!((ab.numerator, ab.denominator), (-5, 32));
}

#[test]
fn difference_with_itself_is_zero() {
    let d = r(-7, 9).sub(r(-7, 9)).unwrap();
    assert_eq!((d.numerator, d.denominator), (0, 1));
}

#[test]
fn signs_are_kept_as_computed() {
    // dividing by a negative fraction leaves the sign on the denominator
    let q = r(1, 2).div(r(-1, 3)).unwrap();
    assert_eq!((q.numerator, q.denominator), (3, -2));
    // dividing by zero gives a zero denominator
    let z = r(1, 2).div(r(0, 1)).unwrap();
    assert_eq!((z.numerator, z.denominator), (1, 0));
}
