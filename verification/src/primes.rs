//! Primes and the prime factorization of a natural number.
use vstd::arithmetic::div_mod::*;
use vstd::arithmetic::mul::*;
use vstd::prelude::*;

verus! {

/// `n` is prime: at least 2 and without a divisor strictly between 1 and `n`.
pub open spec fn prime(n: nat) -> bool {
    n >= 2 && forall|d: nat| 2 <= d < n ==> #[trigger] (n % d) != 0
}

/// The least divisor of `n` that is at least `d` (for `2 <= d <= n`); `n` itself
/// when `d` has passed every candidate.
pub open spec fn least_divisor_from(n: nat, d: nat) -> nat
    decreases n - d,
{
    if d >= n || d < 2 {
        n
    } else if n % d == 0 {
        d
    } else {
        least_divisor_from(n, d + 1)
    }
}

/// The smallest prime factor of `n >= 2`.
pub open spec fn smallest_factor(n: nat) -> nat {
    least_divisor_from(n, 2)
}

/// How many times `p` divides `n` (0 when `n == 0` or `p < 2`).
pub open spec fn multiplicity(n: nat, p: nat) -> nat
    decreases n,
{
    if p >= 2 && n > 0 && n % p == 0 {
        proof {
            lemma_div_decreases(n as int, p as int);
        }
        1 + multiplicity(n / p, p)
    } else {
        0
    }
}

/// `n` with every factor `p` divided out.
pub open spec fn strip(n: nat, p: nat) -> nat
    decreases n,
{
    if p >= 2 && n > 0 && n % p == 0 {
        proof {
            lemma_div_decreases(n as int, p as int);
        }
        strip(n / p, p)
    } else {
        n
    }
}

/// The prime factorization of `n` as (prime, exponent) pairs with the primes
/// in ascending order; empty for `n <= 1`.
pub open spec fn prime_factorization(n: nat) -> Seq<(nat, nat)>
    decreases n,
{
    if n <= 1 {
        seq![]
    } else {
        let p = smallest_factor(n);
        proof {
            lemma_smallest_factor_divides(n);
            lemma_strip_decreases(n, p);
        }
        seq![(p, multiplicity(n, p))] + prime_factorization(strip(n, p))
    }
}

/// `p^e`.
pub open spec fn pow_nat(p: nat, e: nat) -> nat
    decreases e,
{
    if e == 0 {
        1
    } else {
        p * pow_nat(p, (e - 1) as nat)
    }
}

/// The value that a list of (prime, exponent) pairs stands for.
pub open spec fn factorization_value(f: Seq<(nat, nat)>) -> nat
    decreases f.len(),
{
    if f.len() == 0 {
        1
    } else {
        pow_nat(f[0].0, f[0].1) * factorization_value(f.drop_first())
    }
}

// ---------------------------------------------------------------------------
// Lemmas
// ---------------------------------------------------------------------------

/// `least_divisor_from(n, d)` lies in `[d, n]` and divides `n`.
pub proof fn lemma_least_divisor_from(n: nat, d: nat)
    requires
        2 <= d <= n,
    ensures
        d <= least_divisor_from(n, d) <= n,
        n % least_divisor_from(n, d) == 0,
        forall|k: nat| d <= k < least_divisor_from(n, d) ==> #[trigger] (n % k) != 0,
    decreases n - d,
{
    if d >= n {
        lemma_mod_self_0(n as int);
    } else if n % d == 0 {
    } else {
        lemma_least_divisor_from(n, d + 1);
    }
}

/// The smallest factor of `n >= 2` is at least 2, at most `n`, divides `n`
/// and no smaller number from 2 on divides `n`.
pub proof fn lemma_smallest_factor_divides(n: nat)
    requires
        n >= 2,
    ensures
        2 <= smallest_factor(n) <= n,
        n % smallest_factor(n) == 0,
        forall|k: nat| 2 <= k < smallest_factor(n) ==> #[trigger] (n % k) != 0,
{
    lemma_least_divisor_from(n, 2);
}

/// The smallest factor of `n >= 2` is prime.
pub proof fn lemma_smallest_factor_prime(n: nat)
    requires
        n >= 2,
    ensures
        prime(smallest_factor(n)),
{
    lemma_smallest_factor_divides(n);
    let p = smallest_factor(n);
    assert forall|k: nat| 2 <= k < p implies #[trigger] (p % k) != 0 by {
        if p % k == 0 {
            lemma_mod_transitive(n, p, k);
        }
    }
}

/// Divisibility is transitive: `k | p` and `p | n` give `k | n`.
pub proof fn lemma_mod_transitive(n: nat, p: nat, k: nat)
    requires
        k > 0,
        p > 0,
        n % p == 0,
        p % k == 0,
    ensures
        n % k == 0,
{
    lemma_fundamental_div_mod(n as int, p as int);
    lemma_fundamental_div_mod(p as int, k as int);
    let a = n / p;
    let b = p / k;
    assert(n == k * (b * a)) by {
        lemma_mul_is_associative(k as int, b as int, a as int);
        lemma_mul_is_commutative(p as int, a as int);
    }
    lemma_mod_multiples_basic((b * a) as int, k as int);
    lemma_mul_is_commutative(k as int, (b * a) as int);
}

/// `strip(n, p)` never exceeds `n`, and is smaller when `p >= 2` divides `n > 0`.
pub proof fn lemma_strip_decreases(n: nat, p: nat)
    ensures
        strip(n, p) <= n,
        p >= 2 && n > 0 && n % p == 0 ==> strip(n, p) < n,
    decreases n,
{
    if p >= 2 && n > 0 && n % p == 0 {
        lemma_div_decreases(n as int, p as int);
        lemma_strip_decreases(n / p, p);
    }
}

/// If `d >= 2` divides `r` and nothing in `[2, d)` divides `r`, then `d` is the
/// smallest factor of `r`.
pub proof fn lemma_smallest_factor_is(r: nat, d: nat)
    requires
        2 <= d,
        r >= 1,
        r % d == 0,
        forall|k: nat| 2 <= k < d ==> #[trigger] (r % k) != 0,
    ensures
        smallest_factor(r) == d,
{
    lemma_mod_is_zero_ge(r, d);
    lemma_least_divisor_walk(r, d, 2);
}

proof fn lemma_least_divisor_walk(r: nat, d: nat, k: nat)
    requires
        2 <= k <= d <= r,
        r % d == 0,
        forall|j: nat| 2 <= j < d ==> #[trigger] (r % j) != 0,
    ensures
        least_divisor_from(r, k) == d,
    decreases d - k,
{
    if k < d {
        assert(r % k != 0);
        lemma_least_divisor_walk(r, d, k + 1);
    }
}

/// A positive multiple of `d > 0` is at least `d`.
pub proof fn lemma_mod_is_zero_ge(r: nat, d: nat)
    requires
        d > 0,
        r > 0,
        r % d == 0,
    ensures
        d <= r,
{
    lemma_fundamental_div_mod(r as int, d as int);
    if r / d == 0 {
        assert(r == d * 0);
    } else {
        lemma_mul_increases((r / d) as int, d as int);
        lemma_mul_is_commutative((r / d) as int, d as int);
    }
}

/// When nothing in `[2, d)` divides `r >= 2` and `d * d > r`, `r` is prime and
/// its factorization is `[(r, 1)]`.
pub proof fn lemma_large_remainder_prime(r: nat, d: nat)
    requires
        r >= 2,
        d >= 2,
        d * d > r,
        forall|k: nat| 2 <= k < d ==> #[trigger] (r % k) != 0,
    ensures
        prime(r),
        prime_factorization(r) == seq![(r, 1nat)],
{
    assert forall|k: nat| 2 <= k < r implies #[trigger] (r % k) != 0 by {
        if r % k == 0 && k >= d {
            lemma_fundamental_div_mod(r as int, k as int);
            let q = r / k;
            assert(r == k * q);
            if q >= d {
                lemma_mul_inequality(d as int, k as int, d as int);
                lemma_mul_inequality(d as int, q as int, k as int);
                lemma_mul_is_commutative(d as int, k as int);
            }
            if q <= 1 {
                lemma_mul_basics(k as int);
                if q == 0 {
                    assert(r == 0);
                }
            }
            assert(2 <= q < d);
            assert(r == q * k) by {
                lemma_mul_is_commutative(k as int, q as int);
            }
            lemma_mod_multiples_basic(k as int, q as int);
            assert(r % q == 0);
        }
    }
    lemma_mod_self_0(r as int);
    lemma_smallest_factor_is(r, r);
    assert(multiplicity(1, r) == 0) by {
        lemma_small_mod(1, r);
    }
    assert(r / r == 1) by {
        lemma_div_by_self(r as int);
    }
    assert(multiplicity(r, r) == 1);
    assert(strip(1, r) == 1) by {
        lemma_small_mod(1, r);
    }
    assert(strip(r, r) == 1);
    assert(prime_factorization(1) =~= seq![]);
    assert(prime_factorization(r) =~= seq![(r, 1nat)]);
}

/// Dividing out one factor `d` of `r` changes neither what remains after all
/// of them are stripped nor, except by one, the multiplicity.
pub proof fn lemma_strip_step(r: nat, d: nat)
    requires
        d >= 2,
        r > 0,
        r % d == 0,
    ensures
        strip(r, d) == strip(r / d, d),
        multiplicity(r, d) == 1 + multiplicity(r / d, d),
{
}

/// When `d` does not divide `r`, nothing is stripped.
pub proof fn lemma_strip_none(r: nat, d: nat)
    requires
        r % d != 0 || r == 0 || d < 2,
    ensures
        strip(r, d) == r,
        multiplicity(r, d) == 0,
{
}

/// A divisor of `r / d` divides `r` (for `d | r`).
pub proof fn lemma_divisor_of_quotient(r: nat, d: nat, k: nat)
    requires
        d > 0,
        k > 0,
        r % d == 0,
        (r / d) % k == 0,
    ensures
        r % k == 0,
{
    lemma_fundamental_div_mod(r as int, d as int);
    assert(r == (r / d) * d) by {
        lemma_mul_is_commutative(d as int, (r / d) as int);
    }
    lemma_mul_mod_noop_left((r / d) as int, d as int, k as int);
    assert(((r / d) % k) * d == 0);
    lemma_small_mod(0, k);
}

/// `n == p^multiplicity(n, p) * strip(n, p)`, and what is left is not a
/// multiple of `p`.
pub proof fn lemma_strip_value(n: nat, p: nat)
    requires
        p >= 2,
        n > 0,
    ensures
        n == pow_nat(p, multiplicity(n, p)) * strip(n, p),
        strip(n, p) % p != 0,
        strip(n, p) > 0,
    decreases n,
{
    if n % p == 0 {
        lemma_div_decreases(n as int, p as int);
        lemma_fundamental_div_mod(n as int, p as int);
        assert(multiplicity(n, p) == 1 + multiplicity(n / p, p));
        assert(strip(n, p) == strip(n / p, p));
        let q = n / p;
        assert(q > 0) by {
            if q == 0 {
                assert(n == p * 0);
            }
        }
        lemma_strip_value(q, p);
        let m = multiplicity(q, p);
        let s = strip(q, p);
        assert(n == p * (pow_nat(p, m) * s));
        assert(pow_nat(p, m + 1) == p * pow_nat(p, m));
        lemma_mul_is_associative(p as int, pow_nat(p, m) as int, s as int);
    } else {
        assert(multiplicity(n, p) == 0);
        assert(strip(n, p) == n);
        assert(pow_nat(p, 0) == 1);
        lemma_mul_basics(n as int);
    }
}

/// `p^e >= 1` for `p >= 1`.
pub proof fn lemma_pow_nat_positive(p: nat, e: nat)
    requires
        p >= 1,
    ensures
        pow_nat(p, e) >= 1,
    decreases e,
{
    if e > 0 {
        lemma_pow_nat_positive(p, (e - 1) as nat);
        lemma_mul_increases(p as int, pow_nat(p, (e - 1) as nat) as int);
        lemma_mul_is_commutative(p as int, pow_nat(p, (e - 1) as nat) as int);
    }
}

/// The prime factorization lists distinct primes in ascending order, each with
/// an exponent of at least one and each dividing `n`, and (for `n >= 1`) the
/// prime powers multiply back to `n`.
pub proof fn lemma_prime_factorization(n: nat)
    ensures
        forall|i: int|
            0 <= i < prime_factorization(n).len() ==> {
                &&& prime(#[trigger] prime_factorization(n)[i].0)
                &&& prime_factorization(n)[i].1 >= 1
                &&& n % prime_factorization(n)[i].0 == 0
            },
        forall|i: int, j: int|
            0 <= i < j < prime_factorization(n).len() ==> #[trigger] prime_factorization(n)[i].0
                < #[trigger] prime_factorization(n)[j].0,
        n >= 1 ==> factorization_value(prime_factorization(n)) == n,
    decreases n,
{
    if n >= 2 {
        let p = smallest_factor(n);
        lemma_smallest_factor_divides(n);
        lemma_smallest_factor_prime(n);
        lemma_strip_decreases(n, p);
        let s = strip(n, p);
        let m = multiplicity(n, p);
        lemma_strip_value(n, p);
        lemma_prime_factorization(s);
        let f = prime_factorization(n);
        let t = prime_factorization(s);
        assert(f == seq![(p, m)] + t);
        assert(m >= 1) by {
            lemma_div_decreases(n as int, p as int);
        }
        lemma_pow_nat_positive(p, m);
        // s divides n
        assert(n % s == 0) by {
            lemma_mod_multiples_basic(pow_nat(p, m) as int, s as int);
        }
        assert forall|j: int| 0 <= j < t.len() implies n % (#[trigger] t[j]).0 == 0 && t[j].0 > p by {
            let q = t[j].0;
            lemma_mod_transitive(n, s, q);
            if q < p {
                assert(n % q != 0);
            }
            if q == p {
                assert(s % p == 0);
            }
        }
        assert forall|i: int| 0 <= i < f.len() implies {
            &&& prime(#[trigger] f[i].0)
            &&& f[i].1 >= 1
            &&& n % f[i].0 == 0
        } by {
            if i > 0 {
                assert(f[i] == t[i - 1]);
            }
        }
        assert forall|i: int, j: int| 0 <= i < j < f.len() implies #[trigger] f[i].0 < #[trigger] f[j].0 by {
            assert(f[j] == t[j - 1]);
            if i > 0 {
                assert(f[i] == t[i - 1]);
            }
        }
        assert(f.drop_first() =~= t);
        assert(factorization_value(f) == pow_nat(p, m) * factorization_value(t));
    } else if n == 1 {
        assert(factorization_value(prime_factorization(n)) == 1);
    }
}

/// `n` is a power of two.
pub open spec fn power_of_two(n: nat) -> bool {
    exists|k: nat| pow_nat(2, k) == n
}

/// `2^k` is even for `k >= 1`.
pub proof fn lemma_pow2_even(k: nat)
    requires
        k >= 1,
    ensures
        pow_nat(2, k) % 2 == 0,
        pow_nat(2, k) == 2 * pow_nat(2, (k - 1) as nat),
{
    lemma_mod_multiples_basic(pow_nat(2, (k - 1) as nat) as int, 2);
}

/// An even `n >= 2` is a power of two exactly when `n / 2` is.
pub proof fn lemma_power_of_two_half(n: nat)
    requires
        n >= 2,
        n % 2 == 0,
    ensures
        power_of_two(n) == power_of_two(n / 2),
{
    if power_of_two(n) {
        let k = choose|k: nat| pow_nat(2, k) == n;
        if k == 0 {
            assert(pow_nat(2, 0) == 1);
        } else {
            lemma_pow2_even(k);
            assert(pow_nat(2, (k - 1) as nat) == n / 2);
        }
    }
    if power_of_two(n / 2) {
        let k = choose|k: nat| pow_nat(2, k) == n / 2;
        lemma_pow2_even(k + 1);
        assert(pow_nat(2, k + 1) == n);
    }
}

/// An odd `n >= 3` is not a power of two.
pub proof fn lemma_odd_not_power_of_two(n: nat)
    requires
        n >= 3,
        n % 2 == 1,
    ensures
        !power_of_two(n),
{
    if power_of_two(n) {
        let k = choose|k: nat| pow_nat(2, k) == n;
        if k == 0 {
            assert(pow_nat(2, 0) == 1);
        } else {
            lemma_pow2_even(k);
        }
    }
}

/// 1 is a power of two.
pub proof fn lemma_one_power_of_two()
    ensures
        power_of_two(1),
{
    assert(pow_nat(2, 0) == 1);
}

/// `pow_nat(2, k)` agrees with the standard library's `pow2(k)`.
pub proof fn lemma_pow_nat_two(k: nat)
    ensures
        pow_nat(2, k) == vstd::arithmetic::power2::pow2(k),
    decreases k,
{
    if k == 0 {
        vstd::arithmetic::power2::lemma2_to64();
    } else {
        lemma_pow_nat_two((k - 1) as nat);
        vstd::arithmetic::power2::lemma_pow2_unfold(k);
    }
}

/// Doubling a power of two that is at most `usize::MAX / 2` stays at most the
/// largest power of two that a `usize` holds.
pub proof fn lemma_double_power_of_two_fits(p: nat)
    requires
        power_of_two(p),
        p <= usize::MAX / 2,
    ensures
        2 * p <= usize::MAX / 2 + 1,
{
    let k = choose|k: nat| pow_nat(2, k) == p;
    lemma_pow_nat_two(k);
    lemma_pow_nat_two(k + 1);
    lemma_pow2_even(k + 1);
    vstd::layout::unsigned_int_max_values();
    let b = usize::BITS as nat;
    assert(b >= 1);
    vstd::arithmetic::power2::lemma_pow2_unfold(b);
    let top = vstd::arithmetic::power2::pow2((b - 1) as nat);
    assert(usize::MAX / 2 + 1 == top);
    if k + 1 > b - 1 {
        vstd::arithmetic::power2::lemma_pow2_strictly_increases((b - 1) as nat, k);
        if k == (b - 1) as nat {
        } 
    } else if k + 1 < b - 1 {
        vstd::arithmetic::power2::lemma_pow2_strictly_increases(k + 1, (b - 1) as nat);
    }
}

/// A prime dividing `p^e` (with `p` prime) is `p` itself.
pub proof fn lemma_prime_divides_prime_power(q: nat, p: nat, e: nat)
    requires
        prime(q),
        prime(p),
        pow_nat(p, e) % q == 0,
    ensures
        q == p,
    decreases e,
{
    if e == 0 {
        assert(pow_nat(p, 0) == 1);
        lemma_small_mod(1, q);
    } else {
        crate::number_theory::lemma_euclid(q, p, pow_nat(p, (e - 1) as nat));
        if p % q == 0 {
            crate::number_theory::lemma_prime_divisors(p, q);
        } else {
            lemma_prime_divides_prime_power(q, p, (e - 1) as nat);
        }
    }
}

/// A prime power is coprime to every number that the prime does not divide.
pub proof fn lemma_prime_power_coprime(p: nat, e: nat, s: nat)
    requires
        prime(p),
        s % p != 0,
    ensures
        crate::number_theory::gcd_spec(pow_nat(p, e), s) == 1,
{
    let a = pow_nat(p, e);
    let g = crate::number_theory::gcd_spec(a, s);
    lemma_pow_nat_positive(p, e);
    crate::number_theory::lemma_gcd_divides(a, s);
    assert(g > 0);
    if g > 1 {
        lemma_smallest_factor_divides(g);
        lemma_smallest_factor_prime(g);
        let q = smallest_factor(g);
        lemma_mod_transitive(a, g, q);
        lemma_prime_divides_prime_power(q, p, e);
        if s > 0 {
            lemma_mod_transitive(s, g, q);
        } else {
            lemma_small_mod(0, p);
        }
    }
}

/// Doubling `p` until it reaches `m`.
pub open spec fn double_until(m: nat, p: nat) -> nat
    decreases (if p >= m { 0 } else { m - p }),
{
    if p == 0 || p >= m {
        p
    } else {
        double_until(m, 2 * p)
    }
}

/// The smallest power of two that is at least `m`.
pub open spec fn next_power_of_two_spec(m: nat) -> nat {
    double_until(m, 1)
}

/// What `next_power_of_two` returns: the smallest power of two at least `m`
/// when one fits in a `usize`, and 1 otherwise (also for `m == 0`).
pub open spec fn next_power_of_two_value(m: nat) -> nat {
    if m == 0 || m > usize::MAX / 2 + 1 {
        1
    } else {
        next_power_of_two_spec(m)
    }
}

/// A prime's factorization is the prime itself, once.
pub proof fn lemma_prime_factorization_of_prime(p: nat)
    requires
        prime(p),
    ensures
        prime_factorization(p) == seq![(p, 1nat)],
{
    assert(p * p > p) by {
        lemma_mul_strict_inequality(1, p as int, p as int);
    }
    lemma_large_remainder_prime(p, p);
}

/// Doubling a power of two that is below `m` stops at the smallest power of
/// two that is at least `m`.
pub proof fn lemma_double_until(m: nat, p: nat)
    requires
        power_of_two(p),
        p / 2 < m,
    ensures
        power_of_two(double_until(m, p)),
        m <= double_until(m, p),
        double_until(m, p) / 2 < m,
        p <= double_until(m, p),
    decreases (if p >= m { 0 } else { m - p }),
{
    let k = choose|k: nat| pow_nat(2, k) == p;
    lemma_pow_nat_positive(2, k);
    if p < m {
        lemma_pow2_even(k + 1);
        lemma_double_until(m, 2 * p);
    }
}

/// The smallest power of two at least `m >= 1` is a power of two, at least
/// `m`, and its half is below `m`.
pub proof fn lemma_next_power_of_two(m: nat)
    requires
        m >= 1,
    ensures
        power_of_two(next_power_of_two_spec(m)),
        m <= next_power_of_two_spec(m),
        next_power_of_two_spec(m) / 2 < m,
{
    lemma_one_power_of_two();
    lemma_double_until(m, 1);
}

/// For a power of two `n`, `2^two_exponent(n) == n`.
pub proof fn lemma_two_exponent_of_power(n: nat)
    requires
        power_of_two(n),
    ensures
        pow_nat(2, crate::primality::two_exponent(n)) == n,
    decreases n,
{
    let k = choose|k: nat| pow_nat(2, k) == n;
    if k == 0 {
        assert(pow_nat(2, 0) == 1);
        assert(crate::primality::two_exponent(1) == 0);
    } else {
        lemma_pow2_even(k);
        lemma_pow_nat_positive(2, (k - 1) as nat);
        lemma_power_of_two_half(n);
        lemma_two_exponent_of_power(n / 2);
    }
}

} // verus!
