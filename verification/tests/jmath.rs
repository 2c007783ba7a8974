use jabba_lib::jmath::{
    digits, digits_from_str, factorial, factorial_bigint, get_collatz_sequence, get_divisors,
    get_prime_divisors, get_primes_below, get_proper_divisors, is_palindrome, is_prime, Primes,
};

#[test]
fn jmath_is_palindrome_test() {
    assert!(is_palindrome(0));
    assert!(is_palindrome(1));
    assert!(is_palindrome(11));
    assert!(is_palindrome(101));
    assert!(is_palindrome(123454321));
    //
    assert_eq!(is_palindrome(10), false);
    assert_eq!(is_palindrome(25), false);
    assert_eq!(is_palindrome(2022), false);
}

#[test]
fn is_palindrome_of_a_negative_number() {
    // -1 is taken as the u64 18446744073709551615
    assert_eq!(digits(-1i32 as u64).len(), 20);
    assert_eq!(is_palindrome(-1), false);
}

#[test]
fn is_prime_test1() {
    assert_eq!(is_prime(0), false);
    assert_eq!(is_prime(1), false);
    assert_eq!(is_prime(2), true);
    assert_eq!(is_prime(3), true);
    assert_eq!(is_prime(4), false);
    assert_eq!(is_prime(5), true);
    assert_eq!(is_prime(9), false);
    assert_eq!(is_prime(11), true);
    assert_eq!(is_prime(97), true);
    assert_eq!(is_prime(100), false);
}

#[test]
fn is_prime_of_squares_and_large_numbers() {
    assert_eq!(is_prime(25), false);
    assert_eq!(is_prime(49), false);
    assert_eq!(is_prime(121), false);
    assert_eq!(is_prime(7919), true);
    assert_eq!(is_prime(4294967291), true);
    assert_eq!(is_prime(4294967295), false);
    // 4294967291 * 4294967291
    assert_eq!(is_prime(18446744039349813481), false);
}

#[test]
fn generate_primes_below_100() {
    let numbers = [
        2, 3, 5, 7, 11, 13, 17, 19, 23, 29, 31, 37, 41, 43, 47, 53, 59, 61, 67, 71, 73, 79, 83,
        89, 97,
    ];
    let mut primes = Primes::new();
    let result: Vec<u64> = (0..)
        .map(|_| primes.next().unwrap())
        .take_while(|&x| x < 100)
        .collect();
    assert_eq!(result, numbers);
}

#[test]
fn primes_first_is_two() {
    let mut primes = Primes::new();
    assert_eq!(primes.next(), Some(2));
    assert_eq!(primes.next(), Some(3));
    assert_eq!(primes.next(), Some(5));
}

#[test]
fn get_prime_divisors_test() {
    assert_eq!(get_prime_divisors(4), [2, 2]);
    assert_eq!(get_prime_divisors(3), [3]);
    assert_eq!(get_prime_divisors(2), [2]);
    assert_eq!(get_prime_divisors(13195), [5, 7, 13, 29]);
}

#[test]
fn get_prime_divisors_of_one_and_of_a_power() {
    assert_eq!(get_prime_divisors(1), Vec::<u64>::new());
    assert_eq!(get_prime_divisors(360), [2, 2, 2, 3, 3, 5]);
    let factors = get_prime_divisors(9699690);
    assert_eq!(factors.iter().product::<u64>(), 9699690);
    assert!(factors.iter().all(|&p| is_prime(p)));
}

#[test]
fn digits_test() {
    assert_eq!(digits(123), [1, 2, 3]);
    assert_eq!(digits(1977), [1, 9, 7, 7]);
    assert_eq!(digits(12), [1, 2]);
    assert_eq!(digits(1), [1]);
    assert_eq!(digits(0), [0]);
    assert_eq!(digits(10), [1, 0]);
    assert_eq!(digits(2022), [2, 0, 2, 2]);
}

#[test]
fn digits_of_the_greatest_number() {
    assert_eq!(
        digits(u64::MAX),
        [1, 8, 4, 4, 6, 7, 4, 4, 0, 7, 3, 7, 0, 9, 5, 5, 1, 6, 1, 5]
    );
    assert_eq!(digits(1000), [1, 0, 0, 0]);
}

#[test]
fn digits_from_str_test() {
    assert_eq!(digits_from_str("123"), [1, 2, 3]);
    assert_eq!(digits_from_str("1977"), [1, 9, 7, 7]);
    assert_eq!(digits_from_str("12"), [1, 2]);
    assert_eq!(digits_from_str("1"), [1]);
    assert_eq!(digits_from_str("0"), [0]);
    assert_eq!(digits_from_str("10"), [1, 0]);
    assert_eq!(digits_from_str("2022"), [2, 0, 2, 2]);
    //
    assert_eq!(digits_from_str("202abc2"), [2, 0, 2, 2]);
    assert_eq!(digits_from_str("abc"), []);
    assert_eq!(digits_from_str("aa:bb:42:ee:ff"), [4, 2]);
}

#[test]
fn digits_from_str_keeps_ascii_digits_only() {
    assert_eq!(digits_from_str(""), []);
    assert_eq!(digits_from_str("/0:9"), [0, 9]);
    // digits of other scripts are no decimal digits here
    assert_eq!(digits_from_str("\u{0661}5\u{ff11}"), [5]);
}

#[test]
fn get_primes_below_test() {
    assert_eq!(get_primes_below(2), []);
    assert_eq!(get_primes_below(3), [2]);
    assert_eq!(get_primes_below(4), [2, 3]);
    assert_eq!(get_primes_below(10), [2, 3, 5, 7]);
    assert_eq!(get_primes_below(13), [2, 3, 5, 7, 11]);
    assert_eq!(get_primes_below(14), [2, 3, 5, 7, 11, 13]);
    //
    assert_eq!(get_primes_below(100).len(), 25);
}

#[test]
fn get_primes_below_agrees_with_is_prime() {
    let primes = get_primes_below(1000);
    for n in 0..1000usize {
        assert_eq!(primes.contains(&n), is_prime(n as u64));
    }
}

#[test]
fn get_divisors_test() {
    assert_eq!(get_divisors(1), [1]);
    assert_eq!(get_divisors(3), [1, 3]);
    assert_eq!(get_divisors(6), [1, 2, 3, 6]);
    assert_eq!(get_divisors(10), [1, 2, 5, 10]);
    assert_eq!(get_divisors(15), [1, 3, 5, 15]);
    assert_eq!(get_divisors(21), [1, 3, 7, 21]);
    assert_eq!(get_divisors(28), [1, 2, 4, 7, 14, 28]);
}

#[test]
fn get_divisors_of_two_and_of_a_square() {
    assert_eq!(get_divisors(2), [1, 2]);
    assert_eq!(get_divisors(36), [1, 2, 3, 4, 6, 9, 12, 18, 36]);
}

#[test]
fn get_proper_divisors_test() {
    assert_eq!(get_proper_divisors(1), []);
    assert_eq!(get_proper_divisors(3), [1]);
    assert_eq!(get_proper_divisors(6), [1, 2, 3]);
    assert_eq!(get_proper_divisors(10), [1, 2, 5]);
    assert_eq!(get_proper_divisors(15), [1, 3, 5]);
    assert_eq!(get_proper_divisors(21), [1, 3, 7]);
    assert_eq!(get_proper_divisors(28), [1, 2, 4, 7, 14]);
}

#[test]
fn get_collatz_sequence_test() {
    assert_eq!(get_collatz_sequence(1), [1]);
    assert_eq!(
        get_collatz_sequence(13),
        [13, 40, 20, 10, 5, 16, 8, 4, 2, 1]
    );
}

#[test]
fn get_collatz_sequence_of_27() {
    let seq = get_collatz_sequence(27);
    assert_eq!(seq.len(), 112);
    assert_eq!(seq[0], 27);
    assert_eq!(*seq.iter().max().unwrap(), 9232);
    assert_eq!(*seq.last().unwrap(), 1);
}

#[test]
fn factorial_test() {
    assert_eq!(factorial(0), 1);
    assert_eq!(factorial(1), 1);
    assert_eq!(factorial(2), 2);
    assert_eq!(factorial(3), 6);
    assert_eq!(factorial(4), 24);
    assert_eq!(factorial(5), 120);
}

#[test]
fn factorial_of_the_greatest_number_that_fits() {
    assert_eq!(factorial(34), 295232799039604140847618609643520000000);
}

#[test]
fn factorial_bigint_test() {
    let numbers = [2, 3, 5, 7, 11, 13];
    for &n in numbers.iter() {
        assert_eq!(factorial(n).to_string(), factorial_bigint(n).to_string());
    }
}

#[test]
fn factorial_bigint_beyond_u128() {
    assert_eq!(factorial_bigint(0).to_string(), "1");
    assert_eq!(factorial_bigint(1).to_string(), "1");
    assert_eq!(
        factorial_bigint(33).to_string(),
        "8683317618811886495518194401280000000"
    );
    assert_eq!(
        factorial_bigint(40).to_string(),
        "815915283247897734345611269596115894272000000000"
    );
}
