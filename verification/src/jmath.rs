//! math

use crate::jpermutation::reverse;
use crate::jstring::chars_of;
use crate::jvec;
use num_bigint::BigInt;
use vstd::prelude::*;

verus! {

/// `BigInt` of num_bigint, a whole number of any size. Nothing is known of
/// what is inside; `bigint_value` names the number that it holds.
#[verifier::external_type_specification]
#[verifier::external_body]
pub struct ExBigInt(BigInt);

/// `d` divides `n`.
pub open spec fn divides(d: nat, n: nat) -> bool {
    d > 0 && n % d == 0
}

/// `n` is a prime number: it is at least 2 and no number between 1 and `n` divides it.
pub open spec fn is_prime_number(n: nat) -> bool {
    n >= 2 && forall|d: nat| 2 <= d < n ==> !#[trigger] divides(d, n)
}

/// The decimal digits of `n`, the most significant first.
pub open spec fn digits_of(n: nat) -> Seq<i32>
    decreases n,
{
    if n < 10 {
        seq![n as i32]
    } else {
        digits_of(n / 10).push((n % 10) as i32)
    }
}

/// The decimal digits among the characters of `s`, as numbers, in their order.
pub open spec fn digits_in(s: Seq<char>) -> Seq<i32>
    decreases s.len(),
{
    if s.len() == 0 {
        Seq::empty()
    } else if is_decimal_digit(s.last()) {
        digits_in(s.drop_last()).push(digit_value(s.last()))
    } else {
        digits_in(s.drop_last())
    }
}

/// `c` is one of the characters `0` to `9`.
pub open spec fn is_decimal_digit(c: char) -> bool {
    48 <= c as u32 <= 57
}

/// The number that the character `c` stands for, where it is a decimal digit.
pub open spec fn digit_value(c: char) -> i32 {
    (c as u32 - 48) as i32
}

/// No number from 2 up to, but not including, `bound` divides `k`, but for `k` itself.
pub open spec fn survives_sieve(k: nat, bound: nat) -> bool {
    k >= 2 && forall|d: nat| 2 <= d < bound && d < k ==> !#[trigger] divides(d, k)
}

/// The whole number that the `BigInt` holds.
pub uninterp spec fn bigint_value(b: BigInt) -> int;

/// The product of the numbers from 1 to `n`.
pub open spec fn factorial_of(n: nat) -> nat
    decreases n,
{
    if n == 0 {
        1
    } else {
        n * factorial_of((n - 1) as nat)
    }
}

/// The product of the elements of `s`.
pub open spec fn product_of(s: Seq<u64>) -> nat
    decreases s.len(),
{
    if s.len() == 0 {
        1
    } else {
        product_of(s.drop_last()) * (s.last() as nat)
    }
}

/// The number that follows `n` in its Collatz sequence.
pub open spec fn collatz_step(n: nat) -> nat {
    if n % 2 == 0 {
        n / 2
    } else {
        3 * n + 1
    }
}

/// The Collatz sequence of `n` reaches 1 in at most `steps` steps, and no
/// number on the way is greater than `u64::MAX`.
pub open spec fn collatz_reaches_one(n: nat, steps: nat) -> bool
    decreases steps,
{
    n == 1 || (steps > 0 && n > 0 && collatz_step(n) <= u64::MAX && collatz_reaches_one(
        collatz_step(n),
        (steps - 1) as nat,
    ))
}

/// `s` is the Collatz sequence of its first element, up to the first 1.
pub open spec fn is_collatz_sequence(s: Seq<u64>) -> bool {
    &&& s.len() > 0
    &&& s.last() == 1
    &&& forall|i: int| 0 <= i < s.len() - 1 ==> #[trigger] s[i] != 1
    &&& forall|i: int| 0 <= i < s.len() - 1 ==> s[i + 1] == collatz_step(#[trigger] s[i] as nat)
}

/// `s` lists, from the least to the greatest, the numbers below `bound` that divide `n`.
pub open spec fn lists_divisors_below(s: Seq<u64>, n: nat, bound: nat) -> bool {
    &&& forall|i: int, j: int| 0 <= i < j < s.len() ==> #[trigger] s[i] < #[trigger] s[j]
    &&& forall|i: int| 0 <= i < s.len() ==> divides(#[trigger] s[i] as nat, n) && s[i] < bound
    &&& forall|d: nat| divides(d, n) && d < bound ==> exists|i: int| 0 <= i < s.len() && #[trigger] s[i] == d
}

/// `s` lists, from the least to the greatest, the prime numbers below `bound`.
pub open spec fn lists_primes_below(s: Seq<usize>, bound: nat) -> bool {
    &&& forall|i: int, j: int| 0 <= i < j < s.len() ==> #[trigger] s[i] < #[trigger] s[j]
    &&& forall|i: int| 0 <= i < s.len() ==> is_prime_number(#[trigger] s[i] as nat) && s[i] < bound
    &&& forall|p: nat| is_prime_number(p) && p < bound ==> exists|i: int| 0 <= i < s.len() && #[trigger] s[i] == p
}

/// `s` is the prime factorization of `n`: prime numbers, none greater than the
/// one that follows it, whose product is `n`.
pub open spec fn is_prime_factorization(s: Seq<u64>, n: nat) -> bool {
    &&& product_of(s) == n
    &&& forall|i: int| 0 <= i < s.len() ==> is_prime_number(#[trigger] s[i] as nat)
    &&& forall|i: int, j: int| 0 <= i < j < s.len() ==> #[trigger] s[i] <= #[trigger] s[j]
}

/// A number that an even number divides is even.
pub proof fn lemma_even_divisor(d: nat, n: nat)
    requires
        divides(d, n),
        d % 2 == 0,
    ensures
        n % 2 == 0,
{
    let q = n / d;
    let h = d / 2;
    assert(n == d * q) by {
        vstd::arithmetic::div_mod::lemma_fundamental_div_mod(n as int, d as int);
    }
    assert(n == 2 * (h * q)) by (nonlinear_arith)
        requires
            n == d * q,
            d == 2 * h,
    ;
    assert((2 * (h * q)) % 2 == 0) by (nonlinear_arith);
}

/// Where `d` divides `n`, so does `n / d`, and the two multiply to `n`.
pub proof fn lemma_cofactor(d: nat, n: nat)
    requires
        divides(d, n),
        n > 0,
    ensures
        (n / d) * d == n,
        divides(n / d, n),
        1 <= n / d <= n,
        d <= n,
        d < n ==> n / d >= 2,
        d > 1 ==> n / d < n,
{
    let q = n / d;
    assert(n == d * q) by {
        vstd::arithmetic::div_mod::lemma_fundamental_div_mod(n as int, d as int);
    }
    assert(q * d == n) by (nonlinear_arith)
        requires
            n == d * q,
    ;
    assert(q >= 1 && d <= n && q <= n) by (nonlinear_arith)
        requires
            n == d * q,
            n > 0,
            d > 0,
    ;
    assert(n % q == 0) by (nonlinear_arith)
        requires
            n == q * d,
            q > 0,
    ;
    assert(d < n ==> q >= 2) by (nonlinear_arith)
        requires
            n == d * q,
            q >= 1,
    ;
    assert(d > 1 ==> q < n) by (nonlinear_arith)
        requires
            n == d * q,
            q >= 1,
            n > 0,
    ;
}

/// What divides a divisor of `n` divides `n`.
pub proof fn lemma_divides_transitive(a: nat, b: nat, c: nat)
    requires
        divides(a, b),
        divides(b, c),
    ensures
        divides(a, c),
{
    let x = b / a;
    let y = c / b;
    assert(b == a * x) by {
        vstd::arithmetic::div_mod::lemma_fundamental_div_mod(b as int, a as int);
    }
    assert(c == b * y) by {
        vstd::arithmetic::div_mod::lemma_fundamental_div_mod(c as int, b as int);
    }
    assert(c == (x * y) * a) by (nonlinear_arith)
        requires
            b == a * x,
            c == b * y,
    ;
    vstd::arithmetic::div_mod::lemma_mod_multiples_basic((x * y) as int, a as int);
}

/// A number of at least 2 that nothing from 2 up to its square root divides is prime.
pub proof fn lemma_prime_by_trial(n: nat, i: nat)
    requires
        n >= 2,
        i > 0,
        i > n / i,
        forall|d: nat| 2 <= d < i ==> !#[trigger] divides(d, n),
    ensures
        is_prime_number(n),
{
    let k = n / i;
    assert(n == i * k + n % i && n % i < i) by {
        vstd::arithmetic::div_mod::lemma_fundamental_div_mod(n as int, i as int);
    }
    assert(i * i > n) by (nonlinear_arith)
        requires
            n == i * k + n % i,
            n % i < i,
            k + 1 <= i,
            i > 0,
    {
        assert(i * (k + 1) == i * k + i);
        assert(i * (k + 1) <= i * i);
    }
    assert forall|d: nat| 2 <= d < n implies !#[trigger] divides(d, n) by {
        if divides(d, n) {
            lemma_cofactor(d, n);
            let q = n / d;
            if d >= i {
                assert(q < i) by (nonlinear_arith)
                    requires
                        q * d == n,
                        d >= i,
                        i * i > n,
                        i > 0,
                ;
                assert(divides(q, n));
                assert(false);
            }
        }
    }
}

/// Every number of at least 2 has a prime divisor.
pub proof fn lemma_has_prime_divisor(n: nat)
    requires
        n >= 2,
    ensures
        exists|p: nat| is_prime_number(p) && #[trigger] divides(p, n),
    decreases n,
{
    if is_prime_number(n) {
        assert(divides(n, n)) by (nonlinear_arith)
            requires
                n >= 2,
        ;
    } else {
        let d = choose|d: nat| 2 <= d < n && #[trigger] divides(d, n);
        lemma_has_prime_divisor(d);
        let p = choose|p: nat| is_prime_number(p) && #[trigger] divides(p, d);
        lemma_divides_transitive(p, d, n);
    }
}

/// Returns `true` if the given number is prime.
///
/// Note that this solution is not efficient. If you want to test
/// lots of and/or large numbers, use a more efficient solution.
pub fn is_prime(n: u64) -> (r: bool)
    ensures
        r == is_prime_number(n as nat),
{
    if n < 2 {
        return false;
    }
    if n == 2 {
        return true;
    }
    if n % 2 == 0 {
        assert(divides(2, n as nat));
        return false;
    }
    let mut i: u64 = 3;
    while i <= n / i
        invariant
            n >= 3,
            n % 2 == 1,
            3 <= i,
            i % 2 == 1,
            forall|d: nat| 2 <= d < i ==> !#[trigger] divides(d, n as nat),
        decreases n - i,
    {
        if n % i == 0 {
            assert(divides(i as nat, n as nat));
            assert(i < n) by (nonlinear_arith)
                requires
                    3 <= i,
                    i <= n / i,
            {
                vstd::arithmetic::div_mod::lemma_fundamental_div_mod(n as int, i as int);
                assert(i * (n / i) <= n);
                assert(i * (n / i) >= i * 3);
            }
            return false;
        }
        assert(i + 2 <= n) by (nonlinear_arith)
            requires
                3 <= i,
                i <= n / i,
        {
            vstd::arithmetic::div_mod::lemma_fundamental_div_mod(n as int, i as int);
            assert(i * (n / i) <= n);
            assert(i * (n / i) >= i * 3);
        }
        proof {
            if divides((i + 1) as nat, n as nat) {
                lemma_even_divisor((i + 1) as nat, n as nat);
            }
        }
        i += 2;
    }
    proof {
        lemma_prime_by_trial(n as nat, i as nat);
    }
    true
}

/// Gives out the prime numbers, one after the other, from the least.
#[derive(Debug)]
pub struct Primes {
    value: u64,
}

impl Primes {
    /// The number up to which the prime numbers have been given out.
    pub closed spec fn passed(&self) -> nat {
        self.value as nat
    }

    /// The steps of two that `next` takes from 3 on start at an odd number.
    #[verifier::type_invariant]
    spec fn well_formed(&self) -> bool {
        self.value == 1 || self.value == 2 || self.value % 2 == 1
    }

    pub fn new() -> (primes: Primes)
        ensures
            primes.passed() == 1,
    {
        Primes { value: 1 }
    }

    /// Gives out the least prime number greater than the last, or `None`
    /// where no such number fits in a `u64`.
    pub fn next(&mut self) -> (r: Option<u64>)
        ensures
            old(self).passed() <= final(self).passed(),
            match r {
                Some(p) => {
                    &&& is_prime_number(p as nat)
                    &&& old(self).passed() < p
                    &&& final(self).passed() == p
                    &&& forall|q: nat| old(self).passed() < q < p ==> !is_prime_number(q)
                },
                None => forall|q: nat| old(self).passed() < q <= u64::MAX ==> !is_prime_number(q),
            },
    {
        proof {
            use_type_invariant(&*self);
        }
        let mut value = self.value;
        loop
            invariant
                value == 1 || value == 2 || value % 2 == 1,
                self.value <= value,
                *self == *old(self),
                forall|q: nat| self.value < q <= value ==> !is_prime_number(q),
            decreases u64::MAX - value,
        {
            let step: u64 = if value >= 3 {
                2
            } else {
                1
            };
            if value > u64::MAX - step {
                assert(value == u64::MAX);
                self.value = value;
                return None;
            }
            proof {
                if step == 2 {
                    let even = (value + 1) as nat;
                    assert(divides(2, even));
                    assert(!is_prime_number(even));
                }
            }
            value += step;
            if is_prime(value) {
                self.value = value;
                return Some(value);
            }
        }
    }
}

/// Dividing a number by a prime divisor leaves a number that has only prime
/// divisors of the number itself.
proof fn lemma_quotient_keeps_no_divisor(n: nat, p: nat, bound: nat)
    requires
        n > 0,
        divides(p, n),
        forall|q: nat| is_prime_number(q) && q <= bound ==> !#[trigger] divides(q, n),
    ensures
        forall|q: nat| is_prime_number(q) && q <= bound ==> !#[trigger] divides(q, n / p),
{
    lemma_cofactor(p, n);
    assert forall|q: nat| is_prime_number(q) && q <= bound implies !#[trigger] divides(
        q,
        n / p,
    ) by {
        if divides(q, n / p) {
            lemma_divides_transitive(q, n / p, n);
        }
    }
}

/// The product of a sequence with one more element at its end.
proof fn lemma_product_push(s: Seq<u64>, x: u64)
    ensures
        product_of(s.push(x)) == product_of(s) * (x as nat),
{
    assert(s.push(x).drop_last() =~= s);
}

/// Returns the prime divisors of the given number.
pub fn get_prime_divisors(number: u64) -> (result: Vec<u64>)
    requires
        number > 0,
    ensures
        is_prime_factorization(result@, number as nat),
{
    let mut result: Vec<u64> = Vec::new();
    let mut n = number;
    let mut primes = Primes::new();
    assert(product_of(result@) == 1);
    while n != 1
        invariant
            n >= 1,
            n * product_of(result@) == number,
            forall|i: int| 0 <= i < result@.len() ==> is_prime_number(#[trigger] result@[i] as nat),
            forall|i: int, j: int|
                0 <= i < j < result@.len() ==> #[trigger] result@[i] <= #[trigger] result@[j],
            forall|i: int| 0 <= i < result@.len() ==> #[trigger] result@[i] <= primes.passed(),
            forall|q: nat| is_prime_number(q) && q <= primes.passed() ==> !#[trigger] divides(q, n as nat),
        decreases
            (if n > primes.passed() {
                n - primes.passed()
            } else {
                0
            }),
    {
        let ghost before = primes.passed();
        let ghost start = n;
        proof {
            lemma_has_prime_divisor(n as nat);
            let q = choose|q: nat| is_prime_number(q) && #[trigger] divides(q, n as nat);
            lemma_cofactor(q, n as nat);
            assert(before < q <= n);
        }
        let found = primes.next();
        let prime = found.unwrap();
        while n % prime == 0
            invariant
                1 <= n <= start,
                before < start,
                before < prime,
                prime >= 2,
                is_prime_number(prime as nat),
                prime == primes.passed(),
                n * product_of(result@) == number,
                forall|i: int| 0 <= i < result@.len() ==> is_prime_number(#[trigger] result@[i] as nat),
                forall|i: int, j: int|
                    0 <= i < j < result@.len() ==> #[trigger] result@[i] <= #[trigger] result@[j],
                forall|i: int| 0 <= i < result@.len() ==> #[trigger] result@[i] <= prime,
                forall|q: nat| is_prime_number(q) && q < prime ==> !#[trigger] divides(q, n as nat),
            decreases n,
        {
            proof {
                assert(divides(prime as nat, n as nat));
                lemma_cofactor(prime as nat, n as nat);
                lemma_quotient_keeps_no_divisor(n as nat, prime as nat, (prime - 1) as nat);
                lemma_product_push(result@, prime);
                let q = (n / prime) as nat;
                let m = product_of(result@);
                assert(q * (m * prime) == n * m) by (nonlinear_arith)
                    requires
                        q * prime == n,
                ;
            }
            n /= prime;
            result.push(prime);
        }
        assert(!divides(prime as nat, n as nat));
    }
    assert(product_of(result@) == number) by (nonlinear_arith)
        requires
            n * product_of(result@) == number,
            n == 1,
    ;
    result
}

/// Returns the digits of the given number.
///
/// Similar to Julia's `digits()` function.
pub fn digits(number: u64) -> (result: Vec<i32>)
    ensures
        result@ == digits_of(number as nat),
{
    if number == 0 {
        return vec![0];
    }
    let mut result: Vec<i32> = Vec::new();
    let mut n = number;
    while n > 0
        invariant
            n > 0 ==> digits_of(number as nat) == digits_of(n as nat) + result@.reverse(),
            n == 0 ==> digits_of(number as nat) == result@.reverse(),
        decreases n,
    {
        let digit = n % 10;
        proof {
            let d = digit as i32;
            assert(result@.push(d).reverse() =~= seq![d] + result@.reverse());
            if n >= 10 {
                assert(digits_of(n as nat) == digits_of((n / 10) as nat).push(d));
                assert(digits_of((n / 10) as nat).push(d) + result@.reverse() =~= digits_of(
                    (n / 10) as nat,
                ) + (seq![d] + result@.reverse()));
            } else {
                assert(digits_of(n as nat) == seq![d]);
            }
        }
        result.push(digit as i32);
        n /= 10;
    }
    let len = result.len();
    if len > 0 {
        let ghost collected = result@;
        reverse(result.as_mut_slice(), 0, len - 1);
        assert(result@ =~= collected.reverse());
    }
    result
}

/// Returns `true` if the given number is palindrome.
pub fn is_palindrome(number: i32) -> (r: bool)
    ensures
        r == jvec::palindromic(digits_of((number as u64) as nat)),
{
    let v = digits(number as u64);
    jvec::is_palindrome(v.as_slice())
}

/// Returns the decimal digits inside a string.
///
/// Non-digit characters are discarded.
pub fn digits_from_str(s: &str) -> (result: Vec<i32>)
    ensures
        result@ == digits_in(s@),
{
    let chars = chars_of(s);
    let mut result: Vec<i32> = Vec::new();
    let mut i: usize = 0;
    while i < chars.len()
        invariant
            i <= chars@.len(),
            result@ == digits_in(chars@.take(i as int)),
        decreases chars@.len() - i,
    {
        let code = chars[i] as u32;
        assert(chars@.take(i + 1).drop_last() == chars@.take(i as int));
        if 48 <= code && code <= 57 {
            result.push((code - 48) as i32);
        }
        i += 1;
    }
    assert(chars@.take(i as int) == chars@);
    result
}

/// Of two multiples of `step`, the greater is at least `step` greater.
proof fn lemma_next_multiple(step: nat, low: nat, high: nat)
    requires
        divides(step, low),
        divides(step, high),
        low < high,
    ensures
        low + step <= high,
{
    let a = low / step;
    let b = high / step;
    vstd::arithmetic::div_mod::lemma_fundamental_div_mod(low as int, step as int);
    vstd::arithmetic::div_mod::lemma_fundamental_div_mod(high as int, step as int);
    assert(low + step <= high) by (nonlinear_arith)
        requires
            low == step * a,
            high == step * b,
            low < high,
            step > 0,
    ;
}

/// The sum of two multiples of `step` is one.
proof fn lemma_multiple_plus_step(step: nat, low: nat)
    requires
        divides(step, low),
    ensures
        divides(step, low + step),
{
    vstd::arithmetic::div_mod::lemma_mod_adds(low as int, step as int, step as int);
    vstd::arithmetic::div_mod::lemma_mod_self_0(step as int);
}

/// Returns all the primes below the given number.
///
/// The method uses Aristotle's sieve algorithm.
pub fn get_primes_below(size: usize) -> (result: Vec<usize>)
    requires
        size >= 2,
    ensures
        lists_primes_below(result@, size as nat),
{
    let mut v: Vec<bool> = vec![true; size];
    v[0] = false;  // 0 is not prime
    v[1] = false;  // 1 is not prime
    let mut i: usize = 2;
    while i < size
        invariant
            v@.len() == size,
            2 <= i <= size,
            forall|k: int| 0 <= k < size ==> #[trigger] v@[k] == survives_sieve(k as nat, i as nat),
        decreases size - i,
    {
        if v[i] {
            assert(divides(i as nat, i as nat)) by {
                vstd::arithmetic::div_mod::lemma_mod_self_0(i as int);
            }
            let mut pos: usize = i;
            while pos < size - i
                invariant
                    v@.len() == size,
                    2 <= i <= pos < size,
                    divides(i as nat, pos as nat),
                    forall|k: int|
                        0 <= k < size ==> #[trigger] v@[k] == (survives_sieve(k as nat, i as nat) && !(i
                            < k <= pos && divides(i as nat, k as nat))),
                decreases size - pos,
            {
                let ghost low = pos;
                proof {
                    lemma_multiple_plus_step(i as nat, pos as nat);
                }
                pos += i;
                v[pos] = false;
                assert forall|k: int| 0 <= k < size implies #[trigger] v@[k] == (survives_sieve(
                    k as nat,
                    i as nat,
                ) && !(i < k <= pos && divides(i as nat, k as nat))) by {
                    if low < k < pos && divides(i as nat, k as nat) {
                        lemma_next_multiple(i as nat, low as nat, k as nat);
                    }
                }
            }
            assert forall|k: int| 0 <= k < size implies #[trigger] v@[k] == survives_sieve(
                k as nat,
                (i + 1) as nat,
            ) by {
                if pos < k && divides(i as nat, k as nat) {
                    lemma_next_multiple(i as nat, pos as nat, k as nat);
                }
            }
        } else {
            assert forall|k: int| 0 <= k < size implies #[trigger] v@[k] == survives_sieve(
                k as nat,
                (i + 1) as nat,
            ) by {
                if survives_sieve(k as nat, i as nat) && i < k && divides(i as nat, k as nat) {
                    let d = choose|d: nat| 2 <= d < i && d < i && #[trigger] divides(d, i as nat);
                    lemma_divides_transitive(d, i as nat, k as nat);
                }
            }
        }
        i += 1;
    }
    let mut result: Vec<usize> = Vec::new();
    let mut idx: usize = 0;
    while idx < size
        invariant
            v@.len() == size,
            idx <= size,
            forall|k: int| 0 <= k < size ==> #[trigger] v@[k] == is_prime_number(k as nat),
            lists_primes_below(result@, idx as nat),
        decreases size - idx,
    {
        if v[idx] {
            let ghost before = result@;
            result.push(idx);
            assert forall|p: nat| is_prime_number(p) && p < idx + 1 implies exists|i: int|
                0 <= i < result@.len() && #[trigger] result@[i] == p by {
                if p < idx {
                    let w = choose|i: int| 0 <= i < before.len() && #[trigger] before[i] == p;
                    assert(result@[w] == p);
                } else {
                    assert(result@[before.len() as int] == p);
                }
            }
        }
        idx += 1;
    }
    result
}

/// A divisor of `n` other than `n` is at most half of it.
pub proof fn lemma_divisor_at_most_half(d: nat, n: nat)
    requires
        divides(d, n),
        0 < d < n,
    ensures
        d <= n / 2,
{
    lemma_cofactor(d, n);
    let q = n / d;
    assert(2 * d <= n) by (nonlinear_arith)
        requires
            q * d == n,
            q >= 2,
    ;
}

/// Returns the divisors of the given number.
pub fn get_divisors(number: u64) -> (result: Vec<u64>)
    requires
        number > 0,
    ensures
        lists_divisors_below(result@, number as nat, (number + 1) as nat),
{
    let mut result: Vec<u64> = vec![1];
    assert(result@[0] == 1);
    let half = number / 2;
    let mut i: u64 = 2;
    while i < half + 1
        invariant
            half == number / 2,
            number > 0,
            i == 2 || 2 <= i <= half + 1,
            lists_divisors_below(result@, number as nat, i as nat),
        decreases half + 1 - i,
    {
        if number % i == 0 {
            let ghost before = result@;
            result.push(i);
            assert forall|d: nat| divides(d, number as nat) && d < i + 1 implies exists|k: int|
                0 <= k < result@.len() && #[trigger] result@[k] == d by {
                if d < i {
                    let w = choose|k: int| 0 <= k < before.len() && #[trigger] before[k] == d;
                    assert(result@[w] == d);
                } else {
                    assert(result@[before.len() as int] == d);
                }
            }
        }
        i += 1;
    }
    if number > 1 {
        let ghost before = result@;
        result.push(number);
        assert(divides(number as nat, number as nat)) by {
            vstd::arithmetic::div_mod::lemma_mod_self_0(number as int);
        }
        assert forall|d: nat| divides(d, number as nat) && d < number + 1 implies exists|k: int|
            0 <= k < result@.len() && #[trigger] result@[k] == d by {
            if d < number {
                lemma_divisor_at_most_half(d, number as nat);
                let w = choose|k: int| 0 <= k < before.len() && #[trigger] before[k] == d;
                assert(result@[w] == d);
            } else {
                lemma_cofactor(d, number as nat);
                assert(result@[before.len() as int] == d);
            }
        }
    }
    result
}

/// Returns the proper divisors of the given number `n`.
///
/// Proper divisors: numbers less than `n` which divide evenly into `n`.
pub fn get_proper_divisors(number: u64) -> (result: Vec<u64>)
    requires
        number > 0,
    ensures
        lists_divisors_below(result@, number as nat, number as nat),
{
    let mut result = get_divisors(number);
    let ghost all = result@;
    proof {
        assert(divides(number as nat, number as nat)) by {
            vstd::arithmetic::div_mod::lemma_mod_self_0(number as int);
        }
        let w = choose|k: int| 0 <= k < all.len() && #[trigger] all[k] == number;
        if w < all.len() - 1 {
            assert(all[w] < all[all.len() - 1]);
        }
    }
    result.pop();
    assert forall|d: nat| divides(d, number as nat) && d < number implies exists|k: int|
        0 <= k < result@.len() && #[trigger] result@[k] == d by {
        let w = choose|k: int| 0 <= k < all.len() && #[trigger] all[k] == d;
        assert(result@[w] == d);
    }
    result
}

/// Returns the Collatz sequence of the given number.
pub fn get_collatz_sequence(number: u64) -> (result: Vec<u64>)
    requires
        number > 0,
        exists|steps: nat| collatz_reaches_one(number as nat, steps),
    ensures
        result@[0] == number,
        is_collatz_sequence(result@),
{
    let ghost mut steps = choose|steps: nat| collatz_reaches_one(number as nat, steps);
    let mut n = number;
    let mut result: Vec<u64> = vec![n];
    assert(result@[0] == n);
    while n != 1
        invariant
            n > 0,
            collatz_reaches_one(n as nat, steps),
            result@.len() > 0,
            result@[0] == number,
            result@.last() == n,
            forall|i: int| 0 <= i < result@.len() - 1 ==> #[trigger] result@[i] != 1,
            forall|i: int|
                0 <= i < result@.len() - 1 ==> result@[i + 1] == collatz_step(
                    #[trigger] result@[i] as nat,
                ),
        decreases steps,
    {
        if n % 2 == 0 {
            n /= 2;
        } else {
            n = 3 * n + 1;
        }
        proof {
            steps = (steps - 1) as nat;
        }
        result.push(n);
    }
    result
}

/// A factorial is at least 1, and it grows with its number.
pub proof fn lemma_factorial_grows(a: nat, b: nat)
    requires
        a <= b,
    ensures
        1 <= factorial_of(a) <= factorial_of(b),
    decreases b,
{
    if b == 0 {
    } else if a == b {
        lemma_factorial_grows(0, (b - 1) as nat);
        assert(b * factorial_of((b - 1) as nat) >= 1) by (nonlinear_arith)
            requires
                b >= 1,
                factorial_of((b - 1) as nat) >= 1,
        ;
    } else {
        lemma_factorial_grows(a, (b - 1) as nat);
        assert(b * factorial_of((b - 1) as nat) >= factorial_of((b - 1) as nat)) by (nonlinear_arith)
            requires
                b >= 1,
                factorial_of((b - 1) as nat) >= 1,
        ;
    }
}

/// A factorial is the one before it, multiplied by its number.
pub proof fn lemma_factorial_step(n: nat)
    requires
        n >= 1,
    ensures
        factorial_of(n) == factorial_of((n - 1) as nat) * n,
{
    let f = factorial_of((n - 1) as nat);
    assert(n * f == f * n) by (nonlinear_arith);
}

/// The factorials that fit in a `u128` are those of the numbers up to 34.
pub proof fn lemma_factorial_fits(n: nat)
    ensures
        factorial_of(n) <= u128::MAX <==> n <= 34,
{
    assert(factorial_of(0) == 1);
    assert(factorial_of(1) == 1) by {
        lemma_factorial_step(1);
    }
    assert(factorial_of(2) == 2) by {
        lemma_factorial_step(2);
    }
    assert(factorial_of(3) == 6) by {
        lemma_factorial_step(3);
    }
    assert(factorial_of(4) == 24) by {
        lemma_factorial_step(4);
    }
    assert(factorial_of(5) == 120) by {
        lemma_factorial_step(5);
    }
    assert(factorial_of(6) == 720) by {
        lemma_factorial_step(6);
    }
    assert(factorial_of(7) == 5040) by {
        lemma_factorial_step(7);
    }
    assert(factorial_of(8) == 40320) by {
        lemma_factorial_step(8);
    }
    assert(factorial_of(9) == 362880) by {
        lemma_factorial_step(9);
    }
    assert(factorial_of(10) == 3628800) by {
        lemma_factorial_step(10);
    }
    assert(factorial_of(11) == 39916800) by {
        lemma_factorial_step(11);
    }
    assert(factorial_of(12) == 479001600) by {
        lemma_factorial_step(12);
    }
    assert(factorial_of(13) == 6227020800) by {
        lemma_factorial_step(13);
    }
    assert(factorial_of(14) == 87178291200) by {
        lemma_factorial_step(14);
    }
    assert(factorial_of(15) == 1307674368000) by {
        lemma_factorial_step(15);
    }
    assert(factorial_of(16) == 20922789888000) by {
        lemma_factorial_step(16);
    }
    assert(factorial_of(17) == 355687428096000) by {
        lemma_factorial_step(17);
    }
    assert(factorial_of(18) == 6402373705728000) by {
        lemma_factorial_step(18);
    }
    assert(factorial_of(19) == 121645100408832000) by {
        lemma_factorial_step(19);
    }
    assert(factorial_of(20) == 2432902008176640000) by {
        lemma_factorial_step(20);
    }
    assert(factorial_of(21) == 51090942171709440000) by {
        lemma_factorial_step(21);
    }
    assert(factorial_of(22) == 1124000727777607680000) by {
        lemma_factorial_step(22);
    }
    assert(factorial_of(23) == 25852016738884976640000) by {
        lemma_factorial_step(23);
    }
    assert(factorial_of(24) == 620448401733239439360000) by {
        lemma_factorial_step(24);
    }
    assert(factorial_of(25) == 15511210043330985984000000) by {
        lemma_factorial_step(25);
    }
    assert(factorial_of(26) == 403291461126605635584000000) by {
        lemma_factorial_step(26);
    }
    assert(factorial_of(27) == 10888869450418352160768000000) by {
        lemma_factorial_step(27);
    }
    assert(factorial_of(28) == 304888344611713860501504000000) by {
        lemma_factorial_step(28);
    }
    assert(factorial_of(29) == 8841761993739701954543616000000) by {
        lemma_factorial_step(29);
    }
    assert(factorial_of(30) == 265252859812191058636308480000000) by {
        lemma_factorial_step(30);
    }
    assert(factorial_of(31) == 8222838654177922817725562880000000) by {
        lemma_factorial_step(31);
    }
    assert(factorial_of(32) == 263130836933693530167218012160000000) by {
        lemma_factorial_step(32);
    }
    assert(factorial_of(33) == 8683317618811886495518194401280000000) by {
        lemma_factorial_step(33);
    }
    assert(factorial_of(34) == 295232799039604140847618609643520000000) by {
        lemma_factorial_step(34);
    }
    assert(factorial_of(35) == 10333147966386144929666651337523200000000) by {
        lemma_factorial_step(35);
    }
    if n <= 34 {
        lemma_factorial_grows(n, 34);
    } else {
        lemma_factorial_grows(35, n);
    }
}

/// Returns the factorial of the given number.
pub fn factorial(n: u128) -> (result: u128)
    requires
        factorial_of(n as nat) <= u128::MAX,
    ensures
        result == factorial_of(n as nat),
{
    let mut result: u128 = 1;
    if n == 0 {
        return result;
    }
    let mut i: u128 = 1;
    assert(factorial_of(1) == 1) by {
        reveal_with_fuel(factorial_of, 2);
    }
    while i < n
        invariant
            1 <= i <= n,
            result == factorial_of(i as nat),
            factorial_of(n as nat) <= u128::MAX,
        decreases n - i,
    {
        i += 1;
        proof {
            lemma_factorial_grows(i as nat, n as nat);
            lemma_factorial_step(i as nat);
        }
        result *= i;
    }
    result
}

/// `BigInt::from` of num_bigint, on a `u128`: the big integer has the value of the number.
#[verifier::external_body]
fn bigint_from(n: u128) -> (b: BigInt)
    ensures
        bigint_value(b) == n,
{
    BigInt::from(n)
}

/// `*=` of num_bigint, with a big integer on the left and a `u128` on the
/// right: the value is multiplied by the number.
#[verifier::external_body]
fn bigint_mul_assign(b: &mut BigInt, factor: u128)
    ensures
        bigint_value(*final(b)) == bigint_value(*old(b)) * factor,
{
    *b *= factor;
}

/// Returns the factorial of the given number as a BigInt.
pub fn factorial_bigint(n: u128) -> (result: BigInt)
    ensures
        bigint_value(result) == factorial_of(n as nat),
{
    let mut result = bigint_from(1);
    if n == 0 {
        return result;
    }
    let mut i: u128 = 1;
    assert(factorial_of(1) == 1) by {
        reveal_with_fuel(factorial_of, 2);
    }
    while i < n
        invariant
            1 <= i <= n,
            bigint_value(result) == factorial_of(i as nat),
        decreases n - i,
    {
        i += 1;
        proof {
            lemma_factorial_step(i as nat);
        }
        bigint_mul_assign(&mut result, i);
    }
    result
}

} // verus!
