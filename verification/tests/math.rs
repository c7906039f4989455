use rs_algo::math::{factors, gcd, relatively_prime};

#[test]
fn gcd_test() {
    assert_eq!(Ok(3), gcd(30, 21));
    assert_eq!(Ok(30), gcd(30, 30));
    assert_eq!(true, gcd(0, 21).is_err());
    assert_eq!(Ok(2), gcd(22123322, 4223234));
    assert_eq!(Ok(1), gcd(4, 11));
}

#[test]
fn relative_prime_test() {
    assert_eq!(false, relatively_prime(30, 21));
    assert_eq!(true, relatively_prime(4, 15));
    assert_eq!(true, relatively_prime(10, 19));
}

#[test]
fn factors_test() {
    assert_eq!(None, factors(11));
    assert_eq!(Some(vec![5]), factors(25));
    assert_eq!(Some(vec![2, 4, 8, 16]), factors(32));
    assert_eq!(Some(vec![2, 4, 2281, 4562]), factors(9124));
}

#[test]
fn gcd_rejects_zero_on_either_side() {
    let message = "0 cannot be used as an input for gcd".to_string();
    assert_eq!(Err(message.clone()), gcd(0, 21));
    assert_eq!(Err(message.clone()), gcd(21, 0));
    assert_eq!(Err(message), gcd(0, 0));
}

#[test]
fn gcd_does_not_depend_on_the_order() {
    assert_eq!(gcd(21, 30), gcd(30, 21));
    assert_eq!(Ok(6), gcd(48, 18));
    assert_eq!(Ok(6), gcd(18, 48));
    assert_eq!(Ok(1), gcd(1, u64::MAX));
    assert_eq!(Ok(u64::MAX), gcd(u64::MAX, u64::MAX));
    assert_eq!(Ok(7), gcd(7, 49));
}

#[test]
fn relatively_prime_with_zero_or_one() {
    assert_eq!(false, relatively_prime(0, 5));
    assert_eq!(false, relatively_prime(5, 0));
    assert_eq!(false, relatively_prime(0, 0));
    assert_eq!(true, relatively_prime(1, 1));
    assert_eq!(true, relatively_prime(1, 12));
    assert_eq!(false, relatively_prime(12, 12));
}

#[test]
fn factors_of_small_numbers() {
    assert_eq!(None, factors(0));
    assert_eq!(None, factors(1));
    assert_eq!(None, factors(2));
    assert_eq!(None, factors(3));
    assert_eq!(Some(vec![2]), factors(4));
    assert_eq!(Some(vec![2, 3]), factors(6));
    assert_eq!(Some(vec![2, 3, 4, 6]), factors(12));
    assert_eq!(Some(vec![2, 3, 4, 6, 9, 12, 18]), factors(36));
}

#[test]
fn factors_of_negative_numbers() {
    assert_eq!(None, factors(-1));
    assert_eq!(None, factors(-12));
    assert_eq!(None, factors(i64::MIN));
}

#[test]
fn factors_documented_example() {
    assert_eq!(Some(vec![2, 4, 2281, 4562]), factors(9124));
}

#[test]
fn factors_of_a_large_square() {
    // 1_000_003 is prime, so its square has one proper factor.
    assert_eq!(Some(vec![1_000_003]), factors(1_000_003 * 1_000_003));
}
