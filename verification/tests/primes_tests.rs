use minibatch_sgd::primes::{ck, find_non_obvious_prime_fac, prime_factors};

#[test]
fn least_divisor_up_to_square_root_is_found() {
    assert_eq!(find_non_obvious_prime_fac(361), Some(19));
    assert_eq!(find_non_obvious_prime_fac(4), Some(2));
    assert_eq!(find_non_obvious_prime_fac(35), Some(5));
    assert_eq!(find_non_obvious_prime_fac(437), Some(19));
}

#[test]
fn no_divisor_for_primes_and_small_numbers() {
    assert_eq!(find_non_obvious_prime_fac(19), None);
    assert_eq!(find_non_obvious_prime_fac(2), None);
    assert_eq!(find_non_obvious_prime_fac(3), None);
    assert_eq!(find_non_obvious_prime_fac(1), None);
    assert_eq!(find_non_obvious_prime_fac(0), None);
    assert_eq!(find_non_obvious_prime_fac(2147483647), None);
}

#[test]
fn no_divisor_for_negative_numbers() {
    assert_eq!(find_non_obvious_prime_fac(-4), None);
    assert_eq!(find_non_obvious_prime_fac(-2147483648), None);
}

#[test]
fn divisor_search_reaches_the_largest_square() {
    assert_eq!(find_non_obvious_prime_fac(46337 * 46337), Some(46337));
}

#[test]
fn smooth_numbers_end_with_one() {
    assert_eq!(prime_factors(1, vec![]), vec![1]);
    assert_eq!(prime_factors(2, vec![]), vec![2, 1]);
    assert_eq!(prime_factors(12, vec![]), vec![2, 2, 3, 1]);
    assert_eq!(prime_factors(15, vec![]), vec![3, 5, 1]);
    assert_eq!(prime_factors(17 * 17, vec![]), vec![17, 17, 1]);
}

#[test]
fn large_primes_come_last() {
    assert_eq!(prime_factors(19, vec![]), vec![19]);
    assert_eq!(prime_factors(38, vec![]), vec![2, 19]);
    assert_eq!(prime_factors(361, vec![]), vec![19, 19]);
    assert_eq!(prime_factors(437, vec![]), vec![19, 23]);
    assert_eq!(prime_factors(2147483647, vec![]), vec![2147483647]);
}

#[test]
fn negative_numbers_keep_their_sign_in_the_last_factor() {
    assert_eq!(prime_factors(-4, vec![]), vec![2, 2, -1]);
    assert_eq!(prime_factors(-38, vec![]), vec![2, -19]);
    assert_eq!(prime_factors(-437, vec![]), vec![-437]);
    let mut expected = vec![2; 31];
    expected.push(-1);
    assert_eq!(prime_factors(-2147483648, vec![]), expected);
}

#[test]
fn factors_are_appended_to_what_was_collected() {
    assert_eq!(prime_factors(6, vec![7, 7]), vec![7, 7, 2, 3, 1]);
}

#[test]
fn product_of_factors_is_the_number() {
    for n in 1..2000 {
        let product: i32 = prime_factors(n, vec![]).iter().product();
        assert_eq!(product, n);
    }
}

#[test]
fn counts_numbers_with_one_fourth_power() {
    assert_eq!(ck(1, 15), 0);
    assert_eq!(ck(1, 16), 1);
    assert_eq!(ck(1, 32), 2);
    assert_eq!(ck(1, 81), 6);
}

#[test]
fn counts_numbers_without_fourth_powers() {
    assert_eq!(ck(0, 1), 1);
    assert_eq!(ck(0, 15), 15);
    assert_eq!(ck(0, 16), 15);
    assert_eq!(ck(0, 81), 75);
}

#[test]
fn counts_numbers_with_two_fourth_powers() {
    assert_eq!(ck(2, 1295), 0);
    assert_eq!(ck(2, 1296), 1);
}

#[test]
fn count_is_zero_for_empty_ranges_and_negative_k() {
    assert_eq!(ck(0, 0), 0);
    assert_eq!(ck(0, -5), 0);
    assert_eq!(ck(-1, 100), 0);
}

fn is_prime(p: i32) -> bool {
    p >= 2 && (2..p).take_while(|d| d * d <= p).all(|d| p % d != 0)
}

#[test]
fn factors_are_primes_in_ascending_order_with_a_closing_entry() {
    assert_eq!(prime_factors(2 * 2 * 3 * 19, vec![]), vec![2, 2, 3, 19]);
    assert_eq!(prime_factors(17 * 19 * 23, vec![]), vec![17, 19, 23]);
    assert_eq!(prime_factors(2 * 17, vec![]), vec![2, 17, 1]);
    for n in 1..5000 {
        let list = prime_factors(n, vec![]);
        let (last, primes) = list.split_last().unwrap();
        assert!(primes.iter().all(|p| is_prime(*p)));
        assert!(primes.windows(2).all(|w| w[0] <= w[1]));
        if *last == 1 {
            assert!(primes.iter().all(|p| *p <= 17));
        } else {
            assert!(is_prime(*last) && *last > 17);
            assert!(primes.iter().all(|p| p <= last));
        }
    }
}
