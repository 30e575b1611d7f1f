//! Trial-division factorisation of machine integers and a counting function
//! built on it.

use std::collections::HashMap;
use vstd::prelude::*;

verus! {

broadcast use vstd::std_specs::hash::group_hash_axioms;

/// The first of the small primes 2, 3, 5, 7, 11, 13, 17 that divides `n`, if
/// any does.
pub open spec fn small_prime_divisor(n: int) -> Option<int> {
    if divides(2, n) {
        Some(2)
    } else if divides(3, n) {
        Some(3)
    } else if divides(5, n) {
        Some(5)
    } else if divides(7, n) {
        Some(7)
    } else if divides(11, n) {
        Some(11)
    } else if divides(13, n) {
        Some(13)
    } else if divides(17, n) {
        Some(17)
    } else {
        None
    }
}

/// `d` divides `n` without remainder.
pub open spec fn divides(d: int, n: int) -> bool {
    n % d == 0
}

/// `d` is a divisor of `n` that lies between 2 and the square root of `n`.
pub open spec fn is_low_divisor(d: int, n: int) -> bool {
    2 <= d && d * d <= n && divides(d, n)
}

/// No integer from 2 up to, but not including, `bound` divides `n`.
pub open spec fn no_divisor_below(bound: int, n: int) -> bool {
    forall|t: int| 2 <= t < bound ==> !#[trigger] divides(t, n)
}

/// The least divisor of `n` between 2 and the square root of `n`, if there
/// is one.
pub open spec fn least_low_divisor(n: int) -> Option<int> {
    if exists|d: int| is_low_divisor(d, n) {
        Some(choose|d: int| is_low_divisor(d, n) && no_divisor_below(d, n))
    } else {
        None
    }
}

/// Whether the square of `test` is at most `number`. 46340 is the greatest
/// integer whose square is a 32-bit number.
fn square_at_most(test: i32, number: i32) -> (fits: bool)
    requires
        2 <= test <= 46340,
    ensures
        fits == (test * test <= number),
{
    assert(test * test <= 46340 * 46340) by (nonlinear_arith)
        requires
            2 <= test <= 46340,
    ;
    test * test <= number
}

/// Searches the integers from 2 up to the square root of `number`, in
/// ascending order, for a divisor of `number`.
pub fn find_non_obvious_prime_fac(number: i32) -> (result: Option<i32>)
    ensures
        match result {
            Some(d) => is_low_divisor(d as int, number as int) && no_divisor_below(
                d as int,
                number as int,
            ),
            None => forall|t: int| !is_low_divisor(t, number as int),
        },
{
    let mut test: i32 = 2;
    while test <= 46340 && square_at_most(test, number)
        invariant
            2 <= test <= 46341,
            no_divisor_below(test as int, number as int),
        decreases 46341 - test,
    {
        if number % test == 0 {
            return Some(test);
        }
        test = test + 1;
    }
    proof {
        assert forall|t: int| !is_low_divisor(t, number as int) by {
            if is_low_divisor(t, number as int) {
                assert(t >= test) by {
                    if t < test {
                        assert(!divides(t, number as int));
                    }
                }
                assert(t * t >= test * test) by (nonlinear_arith)
                    requires
                        t >= test,
                        test >= 2,
                ;
                if test > 46340 {
                    assert(test * test > i32::MAX) by (nonlinear_arith)
                        requires
                            test >= 46341,
                    ;
                }
            }
        }
    }
    None
}

/// The absolute value of `n`.
pub open spec fn magnitude(n: int) -> nat {
    if n < 0 {
        (-n) as nat
    } else {
        n as nat
    }
}

/// The divisor that one factorisation step takes out of `n`: the first small
/// prime that divides it, else its least divisor up to its square root.
pub open spec fn step_divisor(n: int) -> Option<int> {
    match small_prime_divisor(n) {
        Some(p) => Some(p),
        None => least_low_divisor(n),
    }
}

/// The factors that repeated steps take out of a non-zero `n`, in the order
/// in which they are found, followed by what is left when no step applies.
pub open spec fn factor_list(n: int) -> Seq<int>
    decreases magnitude(n),
    when n != 0
    via factor_list_terminates
{
    match step_divisor(n) {
        Some(d) => seq![d] + factor_list(n / d),
        None => seq![n],
    }
}

#[via_fn]
proof fn factor_list_terminates(n: int) {
    match step_divisor(n) {
        Some(d) => {
            lemma_step_divisor(n);
            lemma_quotient_shrinks(n, d);
        },
        None => {},
    }
}

/// A step's divisor is at least 2 and divides `n`.
pub proof fn lemma_step_divisor(n: int)
    ensures
        match step_divisor(n) {
            Some(d) => 2 <= d && divides(d, n),
            None => small_prime_divisor(n) is None && forall|t: int| !is_low_divisor(t, n),
        },
{
    if small_prime_divisor(n) is None {
        if exists|d: int| is_low_divisor(d, n) {
            lemma_least_low_divisor_exists(n);
        }
    }
}

/// Where `n` has a divisor between 2 and its square root, it has a least one.
proof fn lemma_least_low_divisor_exists(n: int)
    requires
        exists|d: int| is_low_divisor(d, n),
    ensures
        exists|d: int| is_low_divisor(d, n) && no_divisor_below(d, n),
{
    let d0 = choose|d: int| is_low_divisor(d, n);
    lemma_least_low_divisor_upto(n, d0);
}

proof fn lemma_least_low_divisor_upto(n: int, d0: int)
    requires
        is_low_divisor(d0, n),
    ensures
        exists|d: int| is_low_divisor(d, n) && no_divisor_below(d, n),
    decreases d0,
{
    if no_divisor_below(d0, n) {
    } else {
        let t = choose|t: int| 2 <= t < d0 && divides(t, n);
        assert(t * t <= d0 * d0) by (nonlinear_arith)
            requires
                2 <= t < d0,
        ;
        lemma_least_low_divisor_upto(n, t);
    }
}

/// Dividing a non-zero `n` by a divisor of at least 2 leaves a non-zero
/// quotient of smaller magnitude.
pub proof fn lemma_quotient_shrinks(n: int, d: int)
    requires
        n != 0,
        d >= 2,
        divides(d, n),
    ensures
        n / d != 0,
        (n / d) * d == n,
        magnitude(n / d) < magnitude(n),
{
    let q = n / d;
    assert(n == d * q + n % d) by {
        vstd::arithmetic::div_mod::lemma_fundamental_div_mod(n, d);
    }
    assert(q * d == n) by (nonlinear_arith)
        requires
            n == d * q,
    ;
    assert(q != 0 && magnitude(q) < magnitude(n)) by (nonlinear_arith)
        requires
            n == q * d,
            n != 0,
            d >= 2,
    ;
}

/// Divisibility does not depend on the sign of the dividend, and an exact
/// quotient changes sign with it.
pub proof fn lemma_divides_negation(d: int, n: int)
    requires
        d > 0,
    ensures
        divides(d, n) == divides(d, -n),
        divides(d, n) ==> (-n) / d == -(n / d),
{
    vstd::arithmetic::div_mod::lemma_fundamental_div_mod(n, d);
    vstd::arithmetic::div_mod::lemma_fundamental_div_mod(-n, d);
    let q = n / d;
    let p = (-n) / d;
    if n % d == 0 {
        assert(-n == d * (-q) + 0) by (nonlinear_arith)
            requires
                n == d * q + 0,
        ;
        vstd::arithmetic::div_mod::lemma_fundamental_div_mod_converse(-n, d, -q, 0);
    }
    if (-n) % d == 0 {
        assert(n == d * (-p) + 0) by (nonlinear_arith)
            requires
                -n == d * p + 0,
        ;
        vstd::arithmetic::div_mod::lemma_fundamental_div_mod_converse(n, d, -p, 0);
    }
}

/// Whether `d` divides `number`.
fn is_multiple(number: i32, d: i32) -> (r: bool)
    requires
        d >= 2,
    ensures
        r == divides(d as int, number as int),
{
    proof {
        lemma_divides_negation(d as int, number as int);
    }
    number % d == 0
}

/// The quotient of `number` by a divisor of it.
fn exact_quotient(number: i32, d: i32) -> (q: i32)
    requires
        d >= 2,
        divides(d as int, number as int),
    ensures
        q == (number as int) / (d as int),
{
    proof {
        lemma_divides_negation(d as int, number as int);
    }
    number / d
}

/// The product of the entries of `s`.
pub open spec fn product(s: Seq<int>) -> int
    decreases s.len(),
{
    if s.len() == 0 {
        1
    } else {
        s.first() * product(s.drop_first())
    }
}

/// The factors of a non-zero number multiply to that number.
pub proof fn lemma_factors_multiply_to(n: int)
    requires
        n != 0,
    ensures
        product(factor_list(n)) == n,
    decreases magnitude(n),
{
    lemma_step_divisor(n);
    match step_divisor(n) {
        Some(d) => {
            lemma_quotient_shrinks(n, d);
            lemma_factors_multiply_to(n / d);
            let list = factor_list(n);
            assert(list.first() == d);
            assert(list.drop_first() =~= factor_list(n / d));
            assert(d * (n / d) == n) by (nonlinear_arith)
                requires
                    (n / d) * d == n,
            ;
        },
        None => {
            let list = factor_list(n);
            assert(list.drop_first() =~= Seq::<int>::empty());
            assert(product(list.drop_first()) == 1);
            assert(product(list) == n * 1);
        },
    }
}

/// `p` is a prime number.
pub open spec fn is_prime(p: int) -> bool {
    p >= 2 && no_divisor_below(p, p)
}

/// What a factorisation of a positive number looks like: primes in
/// ascending order, then a closing entry that is either the greatest prime,
/// where that is above 17, or a 1, where every prime is at most 17.
pub open spec fn primes_in_order(list: Seq<int>) -> bool {
    &&& list.len() >= 1
    &&& forall|i: int| 0 <= i < list.len() - 1 ==> is_prime(#[trigger] list[i])
    &&& list.last() == 1 || is_prime(list.last())
    &&& forall|i: int, j: int|
        0 <= i <= j < list.len() && list[j] != 1 ==> #[trigger] list[i] <= #[trigger] list[j]
    &&& list.last() == 1 ==> forall|i: int| 0 <= i < list.len() - 1 ==> #[trigger] list[i] <= 17
    &&& list.last() != 1 ==> list.last() > 17
}

/// A divisor of a divisor is a divisor.
proof fn lemma_divides_transitive(a: int, b: int, c: int)
    requires
        a > 0,
        b > 0,
        divides(a, b),
        divides(b, c),
    ensures
        divides(a, c),
{
    vstd::arithmetic::div_mod::lemma_fundamental_div_mod(b, a);
    vstd::arithmetic::div_mod::lemma_fundamental_div_mod(c, b);
    let k = b / a;
    let m = c / b;
    assert(c == (k * m) * a + 0) by (nonlinear_arith)
        requires
            b == a * k,
            c == b * m,
    ;
    vstd::arithmetic::div_mod::lemma_fundamental_div_mod_converse(c, a, k * m, 0);
}

/// A number with a divisor between 2 and 17 has a small prime divisor that
/// is no greater.
proof fn lemma_small_divisor(t: int, n: int)
    requires
        2 <= t <= 17,
        divides(t, n),
    ensures
        small_prime_divisor(n) is Some,
        small_prime_divisor(n)->0 <= t,
{
    if t == 4 {
        assert(n % 4 == 0);
        assert(n % 2 == 0);
    } else if t == 6 {
        assert(n % 6 == 0);
        assert(n % 2 == 0);
    } else if t == 8 {
        assert(n % 8 == 0);
        assert(n % 2 == 0);
    } else if t == 10 {
        assert(n % 10 == 0);
        assert(n % 2 == 0);
    } else if t == 12 {
        assert(n % 12 == 0);
        assert(n % 2 == 0);
    } else if t == 14 {
        assert(n % 14 == 0);
        assert(n % 2 == 0);
    } else if t == 16 {
        assert(n % 16 == 0);
        assert(n % 2 == 0);
    } else if t == 9 {
        assert(n % 9 == 0);
        assert(n % 3 == 0);
    } else if t == 15 {
        assert(n % 15 == 0);
        assert(n % 3 == 0);
    }
}

/// The quotient of a number of at least 2 by a divisor of at least 2 is
/// positive and divides the number.
proof fn lemma_quotient_divides(n: int, d: int)
    requires
        n >= 2,
        d >= 2,
        divides(d, n),
    ensures
        n / d >= 1,
        (n / d) * d == n,
        divides(n / d, n),
        d * d <= n ==> n / d >= d,
{
    lemma_quotient_shrinks(n, d);
    let m = n / d;
    assert(m >= 1 && (d * d <= n ==> m >= d)) by (nonlinear_arith)
        requires
            m * d == n,
            n >= 2,
            d >= 2,
    ;
    assert(n == d * m + 0) by (nonlinear_arith)
        requires
            m * d == n,
    ;
    vstd::arithmetic::div_mod::lemma_fundamental_div_mod_converse(n, m, d, 0);
}

/// A proper divisor of at least 2 comes with a divisor that lies between 2
/// and the square root.
proof fn lemma_cofactor_is_low(t: int, n: int)
    requires
        2 <= t < n,
        divides(t, n),
    ensures
        is_low_divisor(t, n) || is_low_divisor(n / t, n),
{
    lemma_quotient_divides(n, t);
    let u = n / t;
    assert(u >= 2 && (t * t <= n || u * u <= n)) by (nonlinear_arith)
        requires
            u * t == n,
            2 <= t < n,
    ;
}

/// The least divisor of a number from 2 upwards is a prime.
proof fn lemma_least_divisor_is_prime(h: int, n: int)
    requires
        h >= 2,
        divides(h, n),
        no_divisor_below(h, n),
    ensures
        is_prime(h),
{
    assert forall|e: int| 2 <= e < h implies !#[trigger] divides(e, h) by {
        if divides(e, h) {
            lemma_divides_transitive(e, h, n);
        }
    }
}

/// The first factor of a number of at least 2 is its least divisor from 2
/// upwards.
proof fn lemma_first_factor_is_least_divisor(n: int)
    requires
        n >= 2,
    ensures
        factor_list(n).len() >= 1,
        factor_list(n)[0] >= 2,
        divides(factor_list(n)[0], n),
        no_divisor_below(factor_list(n)[0], n),
        step_divisor(n) is Some ==> factor_list(n)[0] == step_divisor(n)->0,
        step_divisor(n) is None ==> factor_list(n) == seq![n],
{
    lemma_step_divisor(n);
    match small_prime_divisor(n) {
        Some(p) => {
            assert forall|t: int| 2 <= t < p implies !#[trigger] divides(t, n) by {
                if divides(t, n) {
                    lemma_small_divisor(t, n);
                }
            }
        },
        None => {
            if exists|d: int| is_low_divisor(d, n) {
                lemma_least_low_divisor_exists(n);
            } else {
                vstd::arithmetic::div_mod::lemma_mod_self_0(n);
                assert forall|t: int| 2 <= t < n implies !#[trigger] divides(t, n) by {
                    if divides(t, n) {
                        lemma_cofactor_is_low(t, n);
                    }
                }
            }
        },
    }
}

/// A number without a small prime divisor leaves none to its quotients.
proof fn lemma_quotient_keeps_no_small_prime(n: int, d: int)
    requires
        n >= 2,
        d >= 2,
        divides(d, n),
        small_prime_divisor(n) is None,
    ensures
        small_prime_divisor(n / d) is None,
{
    lemma_quotient_divides(n, d);
    let m = n / d;
    if small_prime_divisor(m) is Some {
        let q = small_prime_divisor(m)->0;
        lemma_divides_transitive(q, m, n);
        lemma_small_divisor(q, n);
    }
}

/// The factors of a positive number are its prime factors in ascending
/// order; a 1 closes the list where the greatest of them is at most 17, and
/// where the number is 1.
pub proof fn lemma_factors_are_primes_in_order(n: int)
    requires
        n >= 1,
    ensures
        primes_in_order(factor_list(n)),
        n == 1 ==> factor_list(n) == seq![1int],
        n >= 2 && small_prime_divisor(n) is None ==> factor_list(n).last() != 1,
    decreases n,
{
    lemma_step_divisor(n);
    let list = factor_list(n);
    if n == 1 {
        assert forall|d: int| !is_low_divisor(d, 1) by {
            if 2 <= d {
                assert(d * d > 1) by (nonlinear_arith)
                    requires
                        d >= 2,
                ;
            }
        }
        assert(list == seq![1int]);
    } else {
        lemma_first_factor_is_least_divisor(n);
        match step_divisor(n) {
            Some(d) => {
                lemma_quotient_divides(n, d);
                let m = n / d;
                let rest = factor_list(m);
                lemma_factors_are_primes_in_order(m);
                lemma_least_divisor_is_prime(d, n);
                assert(list == seq![d] + rest);
                assert(list[0] == d);
                assert forall|i: int| 1 <= i < list.len() implies list[i] == rest[i - 1] by {}
                assert(list.last() == rest.last());
                if m >= 2 {
                    lemma_first_factor_is_least_divisor(m);
                    lemma_divides_transitive(rest[0], m, n);
                    assert(d <= rest[0]);
                }
                if small_prime_divisor(n) is None {
                    lemma_least_low_divisor_exists(n);
                    assert(is_low_divisor(d, n));
                    lemma_quotient_keeps_no_small_prime(n, d);
                    assert(m >= 2);
                } else {
                    assert(d <= 17);
                }
                assert forall|i: int| 0 <= i < list.len() - 1 implies is_prime(
                    #[trigger] list[i],
                ) by {
                    if i >= 1 {
                        assert(list[i] == rest[i - 1]);
                    }
                }
                assert forall|i: int, j: int|
                    0 <= i <= j < list.len() && list[j] != 1 implies #[trigger] list[i]
                    <= #[trigger] list[j] by {
                    if j >= 1 {
                        assert(list[j] == rest[j - 1]);
                        assert(rest[0] <= rest[j - 1]);
                        if i >= 1 {
                            assert(list[i] == rest[i - 1]);
                        } else {
                            if m == 1 {
                                assert(rest[j - 1] == 1);
                            }
                        }
                    }
                }
                if list.last() == 1 {
                    assert forall|i: int| 0 <= i < list.len() - 1 implies #[trigger] list[i]
                        <= 17 by {
                        if i >= 1 {
                            assert(list[i] == rest[i - 1]);
                        } else if m >= 2 {
                            assert(rest.len() >= 2);
                            assert(rest[0] <= 17);
                        }
                    }
                }
            },
            None => {
                lemma_least_divisor_is_prime(n, n);
                if n <= 17 {
                    lemma_small_divisor(n, n);
                }
                assert(list == seq![n]);
            },
        }
    }
}

/// A sequence of machine integers as mathematical integers.
pub open spec fn as_ints(s: Seq<i32>) -> Seq<int> {
    s.map_values(|v: i32| v as int)
}

/// Appends the factors of `number` to `collected_primes`: each step takes out
/// the first small prime that divides what is left, or else its least divisor
/// up to its square root, and what no step reduces further comes last.
pub fn prime_factors(number: i32, collected_primes: Vec<i32>) -> (result: Vec<i32>)
    requires
        number != 0,
    ensures
        as_ints(result@) == as_ints(collected_primes@) + factor_list(number as int),
    decreases magnitude(number as int),
{
    let mut collected = collected_primes;
    let divisor = match first_small_prime(number) {
        Some(p) => Some(p),
        None => find_non_obvious_prime_fac(number),
    };
    proof {
        lemma_step_divisor(number as int);
    }
    match divisor {
        Some(d) => {
            proof {
                if small_prime_divisor(number as int) is None {
                    lemma_least_low_divisor_unique(number as int, d as int);
                }
                lemma_quotient_shrinks(number as int, d as int);
            }
            collected.push(d);
            let quotient = exact_quotient(number, d);
            let result = prime_factors(quotient, collected);
            proof {
                assert(as_ints(collected@) == as_ints(collected_primes@).push(d as int));
                assert(as_ints(result@) =~= as_ints(collected_primes@) + factor_list(
                    number as int,
                ));
            }
            result
        },
        None => {
            collected.push(number);
            proof {
                assert(as_ints(collected@) =~= as_ints(collected_primes@) + factor_list(
                    number as int,
                ));
            }
            collected
        },
    }
}

/// The least divisor between 2 and the square root is the one found by
/// searching upwards.
proof fn lemma_least_low_divisor_unique(n: int, d: int)
    requires
        is_low_divisor(d, n),
        no_divisor_below(d, n),
    ensures
        least_low_divisor(n) == Some(d),
{
    let c = choose|c: int| is_low_divisor(c, n) && no_divisor_below(c, n);
    if c < d {
        assert(!divides(c, n));
    }
    if d < c {
        assert(!divides(d, n));
    }
}

/// The first of 2, 3, 5, 7, 11, 13, 17 that divides `number`.
fn first_small_prime(number: i32) -> (result: Option<i32>)
    ensures
        match result {
            Some(p) => small_prime_divisor(number as int) == Some(p as int),
            None => small_prime_divisor(number as int) is None,
        },
{
    if is_multiple(number, 2) {
        Some(2)
    } else if is_multiple(number, 3) {
        Some(3)
    } else if is_multiple(number, 5) {
        Some(5)
    } else if is_multiple(number, 7) {
        Some(7)
    } else if is_multiple(number, 11) {
        Some(11)
    } else if is_multiple(number, 13) {
        Some(13)
    } else if is_multiple(number, 17) {
        Some(17)
    } else {
        None
    }
}

/// How often `v` occurs in `s`.
pub open spec fn occurrences(s: Seq<int>, v: int) -> nat
    decreases s.len(),
{
    if s.len() == 0 {
        0
    } else {
        occurrences(s.drop_last(), v) + if s.last() == v {
            1nat
        } else {
            0nat
        }
    }
}

/// The values of which `s` holds at least two pairs, that is, which occur
/// in it four times or more.
pub open spec fn repeated_values(s: Seq<int>) -> Set<int> {
    Set::new(|v: int| occurrences(s, v) / 2 >= 2)
}

/// Whether exactly `k` distinct factors of `m` occur at least four times.
pub open spec fn has_repeated_factors(k: int, m: int) -> bool {
    repeated_values(factor_list(m)).len() == k
}

/// How many of the integers from 1 to `n` have exactly `k` distinct factors
/// that occur at least four times.
pub open spec fn ck_count(k: int, n: int) -> nat
    decreases n,
{
    if n <= 0 {
        0
    } else {
        ck_count(k, n - 1) + if has_repeated_factors(k, n) {
            1nat
        } else {
            0nat
        }
    }
}

/// The values seen among the first `i` entries of `s` that occur in `s` at
/// least four times.
spec fn repeated_seen(s: Seq<int>, i: int) -> Set<int> {
    Set::new(|v: int| occurrences(s.take(i), v) > 0 && occurrences(s, v) / 2 >= 2)
}

/// Taking one more entry adds one occurrence of that entry and none of any
/// other value.
proof fn lemma_occurrences_step(s: Seq<int>, i: int, v: int)
    requires
        0 <= i < s.len(),
    ensures
        occurrences(s.take(i + 1), v) == occurrences(s.take(i), v) + if s[i] == v {
            1nat
        } else {
            0nat
        },
{
    assert(s.take(i + 1).drop_last() == s.take(i));
}

/// A value occurs in a prefix at most as often as in the whole, and at most
/// as often as the prefix is long.
proof fn lemma_occurrences_bound(s: Seq<int>, i: int, v: int)
    requires
        0 <= i <= s.len(),
    ensures
        occurrences(s.take(i), v) <= i,
        occurrences(s.take(i), v) <= occurrences(s, v),
    decreases s.len() - i,
{
    lemma_occurrences_len(s.take(i), v);
    if i == s.len() {
        assert(s.take(i) == s);
    } else {
        lemma_occurrences_step(s, i, v);
        lemma_occurrences_bound(s, i + 1, v);
    }
}

proof fn lemma_occurrences_len(s: Seq<int>, v: int)
    ensures
        occurrences(s, v) <= s.len(),
    decreases s.len(),
{
    if s.len() > 0 {
        lemma_occurrences_len(s.drop_last(), v);
    }
}

/// The number of distinct values that occur at least four times in
/// `factors`.
fn count_repeated(factors: &Vec<i32>) -> (total: usize)
    ensures
        repeated_values(as_ints(factors@)).finite(),
        total == repeated_values(as_ints(factors@)).len(),
{
    let ghost s = as_ints(factors@);
    let mut frequency_map: HashMap<i32, usize> = HashMap::new();
    for i in 0..factors.len()
        invariant
            s == as_ints(factors@),
            forall|v: i32| #[trigger]
                frequency_map@.contains_key(v) <==> occurrences(s.take(i as int), v as int) > 0,
            forall|v: i32| #[trigger]
                frequency_map@.contains_key(v) ==> frequency_map@[v] == occurrences(
                    s.take(i as int),
                    v as int,
                ),
    {
        let value = factors[i];
        let seen: usize = match frequency_map.get(&value) {
            Some(c) => *c,
            None => 0,
        };
        proof {
            lemma_occurrences_bound(s, i as int, value as int);
            assert forall|v: i32| true implies occurrences(s.take(i + 1), v as int)
                == occurrences(s.take(i as int), v as int) + if value == v {
                1nat
            } else {
                0nat
            } by {
                lemma_occurrences_step(s, i as int, v as int);
            }
        }
        frequency_map.insert(value, seen + 1);
    }
    assert(s.take(factors.len() as int) == s);
    assert(repeated_seen(s, 0) =~= Set::empty());
    let mut total: usize = 0;
    for i in 0..factors.len()
        invariant
            s == as_ints(factors@),
            forall|v: i32| #[trigger]
                frequency_map@.contains_key(v) <==> occurrences(s, v as int) > 0 && occurrences(
                    s.take(i as int),
                    v as int,
                ) == 0,
            forall|v: i32| #[trigger]
                frequency_map@.contains_key(v) ==> frequency_map@[v] == occurrences(s, v as int),
            repeated_seen(s, i as int).finite(),
            total == repeated_seen(s, i as int).len(),
            total <= i,
    {
        let value = factors[i];
        let ghost before = repeated_seen(s, i as int);
        let ghost after = repeated_seen(s, i + 1);
        proof {
            assert forall|v: int|
                occurrences(s.take(i + 1), v) == occurrences(s.take(i as int), v) + if value
                    == v {
                    1nat
                } else {
                    0nat
                } by {
                lemma_occurrences_step(s, i as int, v);
            }
            lemma_occurrences_bound(s, i + 1, value as int);
        }
        match frequency_map.remove(&value) {
            Some(c) => {
                if c / 2 >= 2 {
                    proof {
                        assert(after =~= before.insert(value as int));
                    }
                    total = total + 1;
                } else {
                    proof {
                        assert(after =~= before);
                    }
                }
            },
            None => {
                proof {
                    assert(after =~= before);
                }
            },
        }
    }
    proof {
        assert(s.take(factors.len() as int) == s);
        assert(repeated_seen(s, factors.len() as int) =~= repeated_values(s));
    }
    total
}

/// Counts the integers from 1 to `n` that have exactly `k` distinct factors
/// occurring at least four times in their factorisation.
pub fn ck(k: i32, n: i32) -> (count: i32)
    ensures
        count == ck_count(k as int, n as int),
{
    let mut count: i32 = 0;
    let mut num: i32 = 0;
    while num < n
        invariant
            0 <= num,
            num <= n || num == 0,
            0 <= count <= num,
            count == ck_count(k as int, num as int),
        decreases n - num,
    {
        num = num + 1;
        let primes = prime_factors(num, Vec::new());
        assert(as_ints(primes@) =~= factor_list(num as int));
        let repeated = count_repeated(&primes);
        if k >= 0 && repeated == k as usize {
            count = count + 1;
        }
    }
    count
}

} // verus!
