//! Integer factorization, primality and the choice of transform strategy.
use vstd::prelude::*;
use crate::error::{DftError, DftResult};
use crate::index_map::gcd;
use crate::number_theory::gcd_spec;
use vstd::arithmetic::power::{pow, lemma_pow_mod_noop, lemma_pow0};
use crate::modular::{mod_pow_spec, lemma_square_multiply_step, lemma_pow_nonneg};
use crate::primality::{
    square_chain, strong_probable_prime_round, passes_primality_test, small_primes, witness_bases,
    odd_part, two_exponent, lemma_small_primes_coprime,
};
use crate::primes::{
    power_of_two, pow_nat, lemma_power_of_two_half, lemma_odd_not_power_of_two,
    lemma_one_power_of_two, lemma_pow2_even, double_until, next_power_of_two_spec, next_power_of_two_value,
    lemma_next_power_of_two, lemma_two_exponent_of_power, lemma_prime_factorization,
    lemma_strip_value, lemma_prime_power_coprime, lemma_pow_nat_positive, prime,
    prime_factorization, multiplicity, strip, smallest_factor, lemma_smallest_factor_is,
    lemma_large_remainder_prime, lemma_strip_step, lemma_strip_none, lemma_divisor_of_quotient,
};

verus! {

/// Maximum n at which PFA + Winograd is preferred over Bluestein.
pub const THRESHOLD_PFA: usize = 500;

/// Maximum prime p at which Rader + Winograd convolution is preferred
/// over Bluestein.
pub const THRESHOLD_RADER: usize = 13;

/// The chosen strategy for computing a DFT of length n.
#[derive(Debug, Clone)]
pub enum TransformStrategy {
    /// Radix-2 FFT (n = 2^log2n).
    Radix2 { log2n: usize },
    /// Good-Thomas PFA: n = n1 * n2, gcd(n1, n2) = 1.
    PrimeFactor { n1: usize, n2: usize },
    /// Winograd short DFT for small prime/composite n.
    WinogradShort { n: usize },
    /// Rader's algorithm: n = p (prime, p <= THRESHOLD_RADER).
    Rader { p: usize, primitive_root: usize },
    /// Bluestein's algorithm: universal fallback.
    Bluestein { m: usize },
}

/// The (prime, exponent) pairs of a factorization as mathematical pairs.
pub open spec fn pairs_view(f: Seq<(usize, usize)>) -> Seq<(nat, nat)> {
    f.map_values(|pe: (usize, usize)| (pe.0 as nat, pe.1 as nat))
}

/// Factor `n` into prime powers: returns `(prime, exponent)` pairs with the
/// primes in ascending order (empty for `n <= 1`).
pub fn factorize(n: usize) -> (factors: Vec<(usize, usize)>)
    ensures
        pairs_view(factors@) == prime_factorization(n as nat),
{
    let mut factors: Vec<(usize, usize)> = Vec::new();
    let mut d = 2usize;
    let mut remaining = n;

    while d <= remaining / d
        invariant
            2 <= d,
            remaining <= n,
            pairs_view(factors@) + prime_factorization(remaining as nat) == prime_factorization(
                n as nat,
            ),
            forall|k: nat| 2 <= k < d ==> #[trigger] ((remaining as nat) % k) != 0,
        decreases remaining, remaining - d,
    {
        assert(d <= remaining) by {
            vstd::arithmetic::div_mod::lemma_div_is_ordered_by_denominator(remaining as int, 1, d as int);
        }
        assert(d < usize::MAX) by {
            vstd::arithmetic::div_mod::lemma_div_is_ordered_by_denominator(remaining as int, 2, d as int);
        }
        let ghost r_start = remaining;
        if remaining % d == 0 {
            let ghost r0 = remaining;
            proof {
                lemma_smallest_factor_is(r0 as nat, d as nat);
            }
            let mut exp = 0usize;
            while remaining % d == 0
                invariant
                    2 <= d,
                    0 < remaining <= r0,
                    exp <= r0,
                    multiplicity(r0 as nat, d as nat) == exp + multiplicity(remaining as nat, d as nat),
                    strip(r0 as nat, d as nat) == strip(remaining as nat, d as nat),
                    forall|k: nat| 2 <= k < d ==> #[trigger] ((remaining as nat) % k) != 0,
                    exp + remaining <= r0,
                decreases remaining,
            {
                proof {
                    crate::primes::lemma_mod_is_zero_ge(remaining as nat, d as nat);
                    assert(remaining / d >= 1) by {
                        vstd::arithmetic::div_mod::lemma_div_is_ordered(d as int, remaining as int, d as int);
                        vstd::arithmetic::div_mod::lemma_div_by_self(d as int);
                    }
                    vstd::arithmetic::div_mod::lemma_div_decreases(remaining as int, d as int);
                    lemma_strip_step(remaining as nat, d as nat);
                    assert forall|k: nat| 2 <= k < d implies #[trigger] (((remaining / d) as nat) % k) != 0 by {
                        if ((remaining / d) as nat) % k == 0 {
                            lemma_divisor_of_quotient(remaining as nat, d as nat, k);
                        }
                    }
                }
                remaining = remaining / d;
                exp = exp + 1;
            }
            proof {
                lemma_strip_none(remaining as nat, d as nat);
                assert(smallest_factor(r0 as nat) == d);
                let tail = prime_factorization(remaining as nat);
                assert(prime_factorization(r0 as nat) == seq![(d as nat, exp as nat)] + tail);
            }
            let ghost before = factors@;
            factors.push((d, exp));
            proof {
                assert(pairs_view(factors@) == pairs_view(before).push((d as nat, exp as nat)));
                assert(pairs_view(factors@) + prime_factorization(remaining as nat)
                    =~= pairs_view(before) + (seq![(d as nat, exp as nat)] + prime_factorization(remaining as nat)));
            }
        }
        assert(remaining <= r_start);
        assert(remaining == r_start ==> d + 1 <= remaining) by (nonlinear_arith)
            requires d >= 2, d <= r_start / d, remaining <= r_start;
        d += 1;
    }

    if remaining > 1 {
        proof {
            assert((d as nat) * (d as nat) > remaining as nat) by (nonlinear_arith)
                requires d > remaining / d, d >= 2;
            lemma_large_remainder_prime(remaining as nat, d as nat);
        }
        let ghost before = factors@;
        factors.push((remaining, 1));
        proof {
            assert(pairs_view(factors@) =~= pairs_view(before) + seq![(remaining as nat, 1nat)]);
        }
    } else {
        proof {
            assert(prime_factorization(remaining as nat) =~= seq![]);
            assert(pairs_view(factors@) =~= pairs_view(factors@) + prime_factorization(remaining as nat));
        }
    }

    factors
}

/// `base^exp mod modu` by square-and-multiply in 128-bit arithmetic.
fn mod_pow(base: u64, exp: u64, modu: u64) -> (r: u64)
    requires
        modu > 0,
    ensures
        r == mod_pow_spec(base as nat, exp as nat, modu as nat),
{
    let ghost exp0 = exp;
    let mut exp = exp;
    let mut result: u128 = 1;
    let base = base as u128;
    let modu = modu as u128;
    let mut b = base % modu;
    proof {
        lemma_pow_mod_noop(base as int, exp0 as nat, modu as int);
        lemma_pow_nonneg(b as int, exp as nat);
    }
    while exp > 0
        invariant
            0 < modu <= u64::MAX,
            b < modu,
            exp <= exp0,
            result < modu || result == 1,
            exp == exp0 ==> result == 1,
            exp0 > 0 && exp == 0 ==> result < modu,
            (result * pow(b as int, exp as nat)) % (modu as int) == pow(base as int, exp0 as nat) % (
            modu as int),
        decreases exp,
    {
        proof {
            lemma_square_multiply_step(result as int, b as int, exp as nat, modu as int);
            assert(exp & 1 == exp % 2) by (bit_vector);
            assert(exp >> 1 == exp / 2) by (bit_vector);
            assert(result * b < 0x1_0000_0000_0000_0000_0000_0000_0000_0000) by (nonlinear_arith)
                requires
                    result < modu || result == 1,
                    b < modu,
                    modu <= 0xffff_ffff_ffff_ffff,
            ;
            assert(b * b < 0x1_0000_0000_0000_0000_0000_0000_0000_0000) by (nonlinear_arith)
                requires
                    b < modu,
                    modu <= 0xffff_ffff_ffff_ffff,
            ;
        }
        if exp & 1 == 1 {
            result = (result * b) % modu;
        }
        b = (b * b) % modu;
        exp >>= 1;
    }
    proof {
        lemma_pow0(b as int);
        if exp0 > 0 {
            assert(result < modu);
            vstd::arithmetic::div_mod::lemma_small_mod(result as nat, modu as nat);
        }
    }
    result as u64
}

/// `a * b mod modu` in 128-bit arithmetic.
fn mod_mul(a: u64, b: u64, modu: u64) -> (r: u64)
    requires
        modu > 0,
    ensures
        r == (a as nat * b as nat) % (modu as nat),
{
    proof {
        assert((a as u128) * (b as u128) < 0x1_0000_0000_0000_0000_0000_0000_0000_0000) by (nonlinear_arith)
            requires
                a <= 0xffff_ffff_ffff_ffff,
                b <= 0xffff_ffff_ffff_ffff,
        ;
    }
    (((a as u128) * (b as u128)) % (modu as u128)) as u64
}

/// Primality of `n`, for every `usize`.
///
/// Numbers with a factor 2, 3, ..., 37 are rejected, and the rest are put to
/// Miller–Rabin rounds with the witnesses 2, 3, 5, ..., 37, which are known to
/// decide primality on the whole `usize` range. That witness theorem is not
/// proved here (the rounds are proved to reject every composite only below
/// `41 * 41`), so a number of at least `41 * 41` that passes every round is
/// confirmed by trial division up to its square root; for such a number the
/// confirmation only repeats the verdict.
pub fn is_prime(n: usize) -> (r: bool)
    ensures
        r == prime(n as nat),
{
    proof {
        lemma_is_prime_decides_primality(n as nat);
    }
    if !passes_miller_rabin(n) {
        return false;
    }
    if n < 1681 {
        return true;
    }
    no_divisor_up_to_root(n)
}

/// Whether odd `n >= 41 * 41` has no divisor `d` with `2 <= d` and `d * d <= n`:
/// trial division by 2 and the odd numbers up to the square root.
fn no_divisor_up_to_root(n: usize) -> (r: bool)
    requires
        n >= 1681,
    ensures
        r == prime(n as nat),
{
    if n % 2 == 0 {
        return false;
    }
    let mut d: usize = 3;
    while d <= n / d
        invariant
            3 <= d,
            d % 2 == 1,
            n >= 1681,
            n % 2 != 0,
            forall|k: nat| 2 <= k < d ==> #[trigger] ((n as nat) % k) != 0,
        decreases n - d,
    {
        proof {
            vstd::arithmetic::div_mod::lemma_div_is_ordered_by_denominator(n as int, 3, d as int);
        }
        if n % d == 0 {
            assert(2 <= d < n && (n as nat) % (d as nat) == 0);
            return false;
        }
        proof {
            assert forall|k: nat| 2 <= k < d + 2 implies #[trigger] ((n as nat) % k) != 0 by {
                if k == d + 1 && (n as nat) % k == 0 {
                    assert(k % 2 == 0);
                    crate::primes::lemma_mod_transitive(n as nat, k, 2);
                } else if k == d {
                }
            }
        }
        d = d + 2;
    }
    proof {
        vstd::arithmetic::div_mod::lemma_fundamental_div_mod(n as int, d as int);
        vstd::arithmetic::div_mod::lemma_mod_bound(n as int, d as int);
        assert(d * d > n) by (nonlinear_arith)
            requires
                n == d * (n / d) + n % d,
                n % d < d,
                n / d < d,
        ;
        lemma_large_remainder_prime(n as nat, d as nat);
    }
    true
}

/// The Miller–Rabin primality test with the witnesses 2, 3, 5, ..., 37.
fn passes_miller_rabin(n: usize) -> (r: bool)
    ensures
        r == passes_primality_test(n as nat),
{
    if n < 2 {
        return false;
    }
    if n < 4 {
        return true;
    }
    if n.is_multiple_of(2) || n.is_multiple_of(3) {
        return false;
    }

    let small: [usize; 10] = [5, 7, 11, 13, 17, 19, 23, 29, 31, 37];
    proof {
        assert(small@.map_values(|p: usize| p as nat) =~= small_primes());
        lemma_small_primes_coprime();
    }
    let mut i = 0usize;
    while i < 10
        invariant
            0 <= i <= 10,
            small@.map_values(|p: usize| p as nat) == small_primes(),
            n >= 4,
            forall|j: int| 0 <= j < i ==> n as nat != #[trigger] small_primes()[j] && (n as nat) % small_primes()[j] != 0,
        decreases 10 - i,
    {
        let p = small[i];
        assert(p as nat == small_primes()[i as int]);
        if n == p {
            assert(small_primes()[i as int] == n);
            return true;
        }
        if n.is_multiple_of(p) {
            proof {
                lemma_small_primes_coprime();
                assert forall|j: int| 0 <= j < 10 implies #[trigger] small_primes()[j] != n as nat by {
                    if j != i {
                        assert(small_primes()[j] % small_primes()[i as int] != 0);
                    }
                }
            }
            return false;
        }
        i += 1;
    }
    proof {
        assert(!small_primes().contains(n as nat));
        assert(!(exists|j: int| 0 <= j < 10 && (n as nat) % #[trigger] small_primes()[j] == 0));
    }

    let mut d = n - 1;
    let mut s = 0usize;
    while d.is_multiple_of(2)
        invariant
            0 < d <= n - 1,
            n >= 4,
            !small_primes().contains(n as nat),
            forall|j: int| 0 <= j < 10 ==> (n as nat) % #[trigger] small_primes()[j] != 0,
            (n as nat) % 2 != 0 && (n as nat) % 3 != 0,
            odd_part(d as nat) == odd_part((n - 1) as nat),
            s + two_exponent(d as nat) == two_exponent((n - 1) as nat),
            s + d <= n - 1,
        decreases d,
    {
        proof {
            assert(d / 2 > 0 && d / 2 + 1 <= d);
        }
        d /= 2;
        s += 1;
    }

    let witnesses: [usize; 12] = [2, 3, 5, 7, 11, 13, 17, 19, 23, 29, 31, 37];
    proof {
        assert(witnesses@.map_values(|a: usize| a as nat) =~= witness_bases());
    }
    let mut k = 0usize;
    while k < 12
        invariant
            0 <= k <= 12,
            witnesses@.map_values(|a: usize| a as nat) == witness_bases(),
            n >= 4,
            !small_primes().contains(n as nat),
            forall|j: int| 0 <= j < 10 ==> (n as nat) % #[trigger] small_primes()[j] != 0,
            (n as nat) % 2 != 0 && (n as nat) % 3 != 0,
            d as nat == odd_part((n - 1) as nat),
            s as nat == two_exponent((n - 1) as nat),
            forall|j: int|
                0 <= j < k && #[trigger] witness_bases()[j] < n ==> strong_probable_prime_round(
                    witness_bases()[j],
                    odd_part((n - 1) as nat),
                    two_exponent((n - 1) as nat),
                    n as nat,
                ),
        decreases 12 - k,
    {
        let a = witnesses[k];
        assert(a as nat == witness_bases()[k as int]);
        if a >= n {
            k += 1;
            continue;
        }
        if !miller_rabin_pass(a as u64, d as u64, s, n as u64) {
            proof {
                assert(witness_bases()[k as int] < n);
            }
            return false;
        }
        k += 1;
    }
    true
}

/// One Miller–Rabin round: base `a`, `n - 1 = d * 2^s`.
fn miller_rabin_pass(a: u64, d: u64, s: usize, n: u64) -> (r: bool)
    requires
        n > 0,
    ensures
        r == strong_probable_prime_round(a as nat, d as nat, s as nat, n as nat),
{
    let mut x = mod_pow(a, d, n);
    let ghost x0 = x as nat;
    if x == 1 || x == n - 1 {
        return true;
    }
    // We already checked x = a^d; now square up to s-1 more times
    let mut i = 1usize;
    while i < s
        invariant
            1 <= i,
            n > 0,
            x0 == mod_pow_spec(a as nat, d as nat, n as nat),
            x0 != 1 && x0 != n - 1,
            x as nat == square_chain(x0, (i - 1) as nat, n as nat),
            forall|r: nat| 1 <= r < i ==> #[trigger] square_chain(x0, r, n as nat) != n - 1,
        decreases s - i,
    {
        x = mod_mul(x, x, n);
        if x == n - 1 {
            assert(square_chain(x0, i as nat, n as nat) == n - 1);
            return true;
        }
        i += 1;
    }
    proof {
        assert forall|r: nat| 1 <= r < s implies #[trigger] square_chain(x0, r, n as nat) != n - 1 by {
        }
    }
    false
}

/// Check if n is a power of 2.
pub fn is_power_of_two(n: usize) -> (r: bool)
    ensures
        r == power_of_two(n as nat),
{
    proof {
        lemma_power_of_two_bits(n);
    }
    n > 0 && (n & (n - 1)) == 0
}

/// `n & (n - 1)` clears the lowest set bit, so it is zero exactly for powers of two.
proof fn lemma_power_of_two_bits(n: usize)
    ensures
        n > 0 ==> ((n & ((n - 1) as usize)) == 0) == power_of_two(n as nat),
        n == 0 ==> !power_of_two(0),
    decreases n,
{
    if n == 0 {
        if power_of_two(0) {
            let k = choose|k: nat| pow_nat(2, k) == 0;
            crate::primes::lemma_pow_nat_positive(2, k);
        }
    } else if n == 1 {
        assert(1usize & 0usize == 0) by (bit_vector);
        lemma_one_power_of_two();
    } else if n % 2 == 0 {
        let h: usize = n >> 1;
        assert(h == n / 2) by (bit_vector)
            requires
                h == n >> 1,
        ;
        assert(((n & ((n - 1) as usize)) == 0) == ((h & ((h - 1) as usize)) == 0)) by (bit_vector)
            requires
                n % 2 == 0,
                n > 1,
                h == n >> 1,
        ;
        lemma_power_of_two_bits(h);
        lemma_power_of_two_half(n as nat);
    } else {
        assert(n & ((n - 1) as usize) == ((n - 1) as usize)) by (bit_vector)
            requires
                n % 2 == 1,
                n > 0,
        ;
        lemma_odd_not_power_of_two(n as nat);
    }
}

/// The smallest power of two that is at least `n` (1 for `n == 0`); 1 when no
/// power of two at least `n` fits in a `usize`.
pub fn next_power_of_two(n: usize) -> (r: usize)
    ensures
        n == 0 ==> r == 1,
        r == next_power_of_two_value(n as nat),
        0 < n <= usize::MAX / 2 + 1 ==> power_of_two(r as nat) && n <= r && r / 2 < n,
        n > usize::MAX / 2 + 1 ==> r == 1,
{
    if n == 0 {
        return 1;
    }
    let mut p: usize = 1;
    let ghost mut k: nat = 0;
    while p < n
        invariant
            n > 0,
            pow_nat(2, k) == p,
            p / 2 < n,
            1 <= p <= usize::MAX / 2 + 1,
            double_until(n as nat, p as nat) == next_power_of_two_spec(n as nat),
        decreases usize::MAX - p,
    {
        if p > usize::MAX / 2 {
            return 1;
        }
        proof {
            crate::primes::lemma_double_power_of_two_fits(p as nat);
            lemma_pow2_even(k + 1);
            k = k + 1;
        }
        p = p * 2;
    }
    p
}

/// The number of trailing zero bits of `n > 0`.
fn trailing_zeros(n: usize) -> (r: usize)
    requires
        n > 0,
    ensures
        r as nat == two_exponent(n as nat),
{
    let mut m = n;
    let mut r: usize = 0;
    while m % 2 == 0
        invariant
            0 < m <= n,
            r + two_exponent(m as nat) == two_exponent(n as nat),
            r + m <= n,
        decreases m,
    {
        m = m / 2;
        r = r + 1;
    }
    r
}

/// The split of `n` into the full power of its smallest prime and the rest,
/// when `n` has at least two distinct prime factors.
pub open spec fn coprime_split(n: nat) -> Option<(nat, nat)> {
    let f = prime_factorization(n);
    if f.len() < 2 {
        None
    } else {
        let n1 = pow_nat(f[0].0, f[0].1);
        Some((n1, n / n1))
    }
}

/// When `coprime_split(n)` is defined, its parts are coprime, both above 1, and
/// multiply to `n`.
pub proof fn lemma_coprime_split(n: nat)
    ensures
        coprime_split(n) matches Some((n1, n2)) ==> {
            &&& n1 * n2 == n
            &&& n1 >= 2
            &&& n2 >= 2
            &&& gcd_spec(n1, n2) == 1
        },
{
    let f = prime_factorization(n);
    if f.len() >= 2 {
        assert(n >= 2);
        let p = f[0].0;
        let e = f[0].1;
        lemma_prime_factorization(n);
        assert(p == crate::primes::smallest_factor(n));
        assert(e == multiplicity(n, p));
        crate::primes::lemma_smallest_factor_divides(n);
        lemma_strip_value(n, p);
        let st = strip(n, p);
        let n1 = pow_nat(p, e);
        lemma_pow_nat_positive(p, e);
        assert(n == n1 * st);
        vstd::arithmetic::div_mod::lemma_div_multiples_vanish(st as int, n1 as int);
        vstd::arithmetic::mul::lemma_mul_is_commutative(n1 as int, st as int);
        assert(n / n1 == st);
        // the rest of the factorization is that of `st`, which is not empty
        assert(prime_factorization(st).len() >= 1);
        assert(st >= 2);
        // n1 >= p >= 2
        assert(e >= 1);
        lemma_pow2_ge_base(p, e);
        lemma_prime_power_coprime(p, e, st);
    }
}

/// `p^e >= p` for `p >= 1`, `e >= 1`.
proof fn lemma_pow2_ge_base(p: nat, e: nat)
    requires
        p >= 1,
        e >= 1,
    ensures
        pow_nat(p, e) >= p,
{
    lemma_pow_nat_positive(p, (e - 1) as nat);
    vstd::arithmetic::mul::lemma_mul_increases(pow_nat(p, (e - 1) as nat) as int, p as int);
    vstd::arithmetic::mul::lemma_mul_is_commutative(pow_nat(p, (e - 1) as nat) as int, p as int);
}

/// Split `n` into two coprime factors `(p^e, n / p^e)` for its smallest prime
/// `p`, when `n` has at least two distinct prime factors.
fn find_coprime_factors(n: usize) -> (r: Option<(usize, usize)>)
    ensures
        match r {
            None => coprime_split(n as nat) is None,
            Some((n1, n2)) => coprime_split(n as nat) == Some((n1 as nat, n2 as nat)),
        },
{
    let factors = factorize(n);
    if factors.len() < 2 {
        return None;
    }
    proof {
        lemma_coprime_split(n as nat);
        lemma_prime_factorization(n as nat);
        assert(n >= 2) by {
            if n <= 1 {
                assert(prime_factorization(n as nat) =~= seq![]);
            }
        }
        let sf = crate::primes::smallest_factor(n as nat);
        assert(prime_factorization(n as nat)[0] == (sf, multiplicity(n as nat, sf)));
        crate::primes::lemma_smallest_factor_divides(n as nat);
        lemma_strip_value(n as nat, sf);
        vstd::arithmetic::mul::lemma_mul_increases(
            strip(n as nat, sf) as int,
            pow_nat(sf, multiplicity(n as nat, sf)) as int,
        );
        vstd::arithmetic::mul::lemma_mul_is_commutative(
            strip(n as nat, sf) as int,
            pow_nat(sf, multiplicity(n as nat, sf)) as int,
        );
    }

    // n1 is the full power of the smallest prime
    let (p, exp) = factors[0];
    assert(p as nat == prime_factorization(n as nat)[0].0);
    assert(exp as nat == prime_factorization(n as nat)[0].1);
    let ghost target = pow_nat(p as nat, exp as nat);
    let mut n1 = 1usize;
    let mut j = 0usize;
    proof {
        lemma_pow_nat_positive(p as nat, exp as nat);
        lemma_pow_nat_monotone(p as nat, 0, exp as nat);
    }
    while j < exp
        invariant
            0 <= j <= exp,
            p >= 2,
            n1 as nat == pow_nat(p as nat, j as nat),
            target == pow_nat(p as nat, exp as nat),
            target <= n,
        decreases exp - j,
    {
        proof {
            lemma_pow_nat_monotone(p as nat, (j + 1) as nat, exp as nat);
            vstd::arithmetic::mul::lemma_mul_is_commutative(n1 as int, p as int);
        }
        n1 = n1 * p;
        j = j + 1;
    }
    let n2 = n / n1;

    if n2 == 1 {
        return None; // All same prime — prime power
    }

    if gcd(n1, n2) == 1 {
        return Some((n1, n2));
    }

    None
}

/// `p^i <= p^j` for `i <= j` and `p >= 1`.
pub proof fn lemma_pow_nat_monotone(p: nat, i: nat, j: nat)
    requires
        p >= 1,
        i <= j,
    ensures
        pow_nat(p, i) <= pow_nat(p, j),
    decreases j,
{
    if i < j {
        lemma_pow_nat_monotone(p, i, (j - 1) as nat);
        lemma_pow_nat_positive(p, (j - 1) as nat);
        vstd::arithmetic::mul::lemma_mul_increases(p as int, pow_nat(p, (j - 1) as nat) as int);
    }
}

/// `g` passes the primitive-root test modulo `p`: for every prime `q` of
/// `p - 1`, `g^((p - 1) / q) mod p` is not 1.
pub open spec fn primitive_root_test(g: nat, p: nat) -> bool {
    let f = prime_factorization((p - 1) as nat);
    forall|i: int| 0 <= i < f.len() ==> #[trigger] mod_pow_spec(g, ((p - 1) as nat / f[i].0) as nat, p) != 1
}

/// `g` has order `p - 1` modulo `p`: no power `g^k` with `1 <= k < p - 1` is
/// 1 modulo `p`.
pub open spec fn order_is_p_minus_one(g: nat, p: nat) -> bool {
    forall|k: nat| 1 <= k < p - 1 ==> #[trigger] (pow_nat(g, k) % p) != 1
}

/// Modulo a prime `p > 2`, a base `2 <= h < p` passes the primitive-root test
/// exactly when it has order `p - 1`.
pub proof fn lemma_primitive_root_test_is_order(p: nat, h: nat)
    requires
        prime(p),
        p > 2,
        2 <= h < p,
    ensures
        primitive_root_test(h, p) <==> order_is_p_minus_one(h, p),
{
    let phi = (p - 1) as nat;
    let f = prime_factorization(phi);
    if primitive_root_test(h, p) {
        assert forall|k: nat| 1 <= k < p - 1 implies #[trigger] (pow_nat(h, k) % p) != 1 by {
            lemma_order_is_p_minus_one(p, h, k);
        }
    } else {
        lemma_prime_factorization(phi);
        let i = choose|i: int| 0 <= i < f.len() && #[trigger] mod_pow_spec(h, (phi / f[i].0) as nat, p) == 1;
        let q = f[i].0;
        let e = phi / q;
        vstd::arithmetic::div_mod::lemma_fundamental_div_mod(phi as int, q as int);
        assert(1 <= e < phi) by (nonlinear_arith)
            requires
                phi == q * e + phi % q,
                phi % q == 0,
                q >= 2,
                phi >= 2,
        ;
        crate::fermat::lemma_pow_agrees(h, e);
        assert(pow_nat(h, e) % p == 1);
    }
}

/// The smallest primitive root modulo `p`: `Some` exactly for a prime `p`,
/// with 1 for `p == 2` and otherwise the least `2 <= g < p` of order `p - 1`.
pub fn primitive_root(p: usize) -> (r: Option<usize>)
    ensures
        r is Some <==> prime(p as nat),
        p == 2 ==> r == Some(1usize),
        p > 2 ==> match r {
            Some(g) => {
                &&& 2 <= g < p
                &&& primitive_root_test(g as nat, p as nat)
                &&& order_is_p_minus_one(g as nat, p as nat)
                &&& forall|h: nat| 2 <= h < g ==> !#[trigger] primitive_root_test(h, p as nat)
                    && !order_is_p_minus_one(h, p as nat)
            },
            None => true,
        },
{
    if p < 2 || !is_prime(p) {
        return None;
    }
    if p == 2 {
        return Some(1);
    }

    let phi = p - 1;
    let factors = factorize(phi);
    let mut prime_factors_of_phi: Vec<usize> = Vec::new();
    let mut i = 0usize;
    while i < factors.len()
        invariant
            0 <= i <= factors.len(),
            pairs_view(factors@) == prime_factorization(phi as nat),
            prime_factors_of_phi@.len() == i,
            forall|j: int| 0 <= j < i ==> #[trigger] prime_factors_of_phi@[j] as nat == prime_factorization(phi as nat)[j].0,
        decreases factors.len() - i,
    {
        prime_factors_of_phi.push(factors[i].0);
        i += 1;
    }
    proof {
        lemma_prime_factorization(phi as nat);
    }

    let mut g = 2usize;
    while g < p
        invariant
            2 <= g <= p,
            p > 2,
            prime(p as nat),
            phi == p - 1,
            prime_factors_of_phi@.len() == prime_factorization(phi as nat).len(),
            forall|j: int| 0 <= j < prime_factors_of_phi@.len() ==> #[trigger] prime_factors_of_phi@[j] as nat == prime_factorization(phi as nat)[j].0,
            forall|j: int| 0 <= j < prime_factorization(phi as nat).len() ==> prime(#[trigger] prime_factorization(phi as nat)[j].0),
            forall|h: nat| 2 <= h < g ==> !#[trigger] primitive_root_test(h, p as nat),
        decreases p - g,
    {
        let mut ok = true;
        let mut k = 0usize;
        while k < prime_factors_of_phi.len()
            invariant
                0 <= k <= prime_factors_of_phi@.len(),
                2 <= g < p,
                phi == p - 1,
                prime_factors_of_phi@.len() == prime_factorization(phi as nat).len(),
                forall|j: int| 0 <= j < prime_factors_of_phi@.len() ==> #[trigger] prime_factors_of_phi@[j] as nat == prime_factorization(phi as nat)[j].0,
                forall|j: int| 0 <= j < prime_factorization(phi as nat).len() ==> prime(#[trigger] prime_factorization(phi as nat)[j].0),
                ok ==> forall|j: int| 0 <= j < k ==> #[trigger] mod_pow_spec(g as nat, (phi as nat / prime_factorization(phi as nat)[j].0) as nat, p as nat) != 1,
                !ok ==> !primitive_root_test(g as nat, p as nat),
            ensures
                ok ==> primitive_root_test(g as nat, p as nat),
                !ok ==> !primitive_root_test(g as nat, p as nat),
            decreases prime_factors_of_phi@.len() - k,
        {
            let q = prime_factors_of_phi[k];
            assert(q >= 2) by {
                assert(prime(prime_factorization(phi as nat)[k as int].0));
            }
            if mod_pow(g as u64, (phi / q) as u64, p as u64) == 1 {
                proof {
                    assert(mod_pow_spec(g as nat, (phi as nat / prime_factorization(phi as nat)[k as int].0) as nat, p as nat) == 1);
                }
                ok = false;
                break;
            }
            k += 1;
        }
        if ok {
            proof {
                lemma_primitive_root_test_is_order(p as nat, g as nat);
                assert forall|h: nat| 2 <= h < g implies !#[trigger] primitive_root_test(h, p as nat)
                    && !order_is_p_minus_one(h, p as nat) by {
                    lemma_primitive_root_test_is_order(p as nat, h);
                }
            }
            return Some(g);
        }
        g += 1;
    }
    proof {
        crate::primitive_roots::lemma_primitive_root_exists(p as nat);
    }
    None
}

/// The strategy that `choose_strategy` picks for length `n >= 1`.
pub open spec fn strategy_for(n: nat) -> TransformStrategy {
    if n == 1 {
        TransformStrategy::Radix2 { log2n: 0 }
    } else if power_of_two(n) {
        TransformStrategy::Radix2 { log2n: two_exponent(n) as usize }
    } else if n == 3 || n == 5 || n == 7 || n == 11 || n == 13 {
        TransformStrategy::WinogradShort { n: n as usize }
    } else if n <= THRESHOLD_PFA && coprime_split(n) is Some {
        match coprime_split(n) {
            Some((n1, n2)) => TransformStrategy::PrimeFactor { n1: n1 as usize, n2: n2 as usize },
            None => TransformStrategy::Bluestein { m: 0 },
        }
    } else {
        TransformStrategy::Bluestein { m: next_power_of_two_value((2 * n - 1) as nat) as usize }
    }
}

/// Determine the optimal transform strategy for length n.
pub fn choose_strategy(n: usize) -> (r: DftResult<TransformStrategy>)
    requires
        1 <= n,
        n <= usize::MAX / 2 || power_of_two(n as nat),
    ensures
        r == Ok::<TransformStrategy, DftError>(strategy_for(n as nat)),
        forall|k: nat| #[trigger] pow_nat(2, k) == n ==> r == Ok::<TransformStrategy, DftError>(
            TransformStrategy::Radix2 { log2n: k as usize },
        ),
        (n == 3 || n == 5 || n == 7 || n == 11 || n == 13) ==> r == Ok::<TransformStrategy, DftError>(
            TransformStrategy::WinogradShort { n },
        ),
        (r matches Ok(TransformStrategy::WinogradShort { .. })) ==> (n == 3 || n == 5 || n == 7 || n
            == 11 || n == 13),
        forall|p: nat, e: nat|
            #![trigger is_smallest_prime_factor(p, n as nat), is_full_power(p, e, n as nat)]
            is_smallest_prime_factor(p, n as nat) && is_full_power(p, e, n as nat) && pow_nat(p, e) < n
                && n <= THRESHOLD_PFA && !power_of_two(n as nat) ==> r == Ok::<TransformStrategy, DftError>(
                TransformStrategy::PrimeFactor {
                    n1: pow_nat(p, e) as usize,
                    n2: ((n as nat) / pow_nat(p, e)) as usize,
                },
            ),
        forall|p: nat, e: nat|
            #![trigger is_smallest_prime_factor(p, n as nat), is_full_power(p, e, n as nat)]
            is_smallest_prime_factor(p, n as nat) && is_full_power(p, e, n as nat) && !power_of_two(
                n as nat,
            ) && !(n == 3 || n == 5 || n == 7 || n == 11 || n == 13) && (pow_nat(p, e) == n || n
                > THRESHOLD_PFA) ==> match r {
                Ok(TransformStrategy::Bluestein { m }) => 2 * n - 1 <= usize::MAX / 2 + 1 ==> {
                    &&& power_of_two(m as nat)
                    &&& 2 * n - 1 <= m
                    &&& m / 2 < 2 * n - 1
                },
                _ => false,
            },
{
    proof {
        assert forall|k: nat| #[trigger] pow_nat(2, k) == n implies strategy_for(n as nat)
            == (TransformStrategy::Radix2 { log2n: k as usize }) by {
            lemma_strategy_power_of_two(n as nat, k);
        }
        lemma_strategy_winograd(n as nat);
        assert forall|p: nat, e: nat|
            #![trigger is_smallest_prime_factor(p, n as nat), is_full_power(p, e, n as nat)]
            is_smallest_prime_factor(p, n as nat) && is_full_power(p, e, n as nat) implies {
                &&& pow_nat(p, e) < n && n <= THRESHOLD_PFA && !power_of_two(n as nat) ==> strategy_for(
                    n as nat,
                ) == (TransformStrategy::PrimeFactor {
                    n1: pow_nat(p, e) as usize,
                    n2: ((n as nat) / pow_nat(p, e)) as usize,
                })
                &&& !power_of_two(n as nat) && !(n == 3 || n == 5 || n == 7 || n == 11 || n == 13) && (
                pow_nat(p, e) == n || n > THRESHOLD_PFA) ==> match strategy_for(n as nat) {
                    TransformStrategy::Bluestein { m } => 2 * n - 1 <= usize::MAX / 2 + 1 ==> {
                        &&& power_of_two(m as nat)
                        &&& 2 * n - 1 <= m
                        &&& m / 2 < 2 * n - 1
                    },
                    _ => false,
                }
            } by {
            lemma_strategy_prime_factor(n as nat, p, e);
            lemma_strategy_bluestein(n as nat, p, e);
        }
    }
    if n == 1 {
        return Ok(TransformStrategy::Radix2 { log2n: 0 });
    }

    if is_power_of_two(n) {
        return Ok(TransformStrategy::Radix2 { log2n: trailing_zeros(n) });
    }

    if n == 3 || n == 5 || n == 7 || n == 11 || n == 13 {
        return Ok(TransformStrategy::WinogradShort { n });
    }

    if is_prime(n) {
        if n <= THRESHOLD_RADER {
            proof {
                lemma_no_rader_length(n as nat);
            }
            let alpha = match primitive_root(n) {
                Some(a) => a,
                None => {
                    return Err(DftError::NoPrimitiveRoot(n));
                },
            };
            return Ok(TransformStrategy::Rader { p: n, primitive_root: alpha });
        } else {
            proof {
                if n <= THRESHOLD_PFA {
                    crate::primes::lemma_prime_factorization_of_prime(n as nat);
                }
            }
            let m = next_power_of_two(2 * n - 1);
            return Ok(TransformStrategy::Bluestein { m });
        }
    }

    if n <= THRESHOLD_PFA {
        if let Some((n1, n2)) = find_coprime_factors(n) {
            return Ok(TransformStrategy::PrimeFactor { n1, n2 });
        }
    }

    let m = next_power_of_two(2 * n - 1);
    Ok(TransformStrategy::Bluestein { m })
}

/// Every prime length up to `THRESHOLD_RADER` is a
/// power of two or one of the Winograd lengths, so the Rader branch of
/// `choose_strategy` is never taken.
proof fn lemma_no_rader_length(n: nat)
    requires
        2 <= n <= 13,
        prime(n),
        !power_of_two(n),
    ensures
        n == 3 || n == 5 || n == 7 || n == 11 || n == 13,
{
    assert(pow_nat(2, 0) == 1);
    assert(pow_nat(2, 1) == 2);
    assert(pow_nat(2, 2) == 4);
    assert(pow_nat(2, 3) == 8);
    if n == 2 || n == 4 || n == 8 {
    } else if n == 6 || n == 10 || n == 12 {
        assert(n % 2 == 0);
    } else if n == 9 {
        assert(n % 3 == 0);
    }
}

/// A base that passes the primitive-root test modulo a prime `p` has no power
/// `g^e ≡ 1` with `1 <= e < p - 1`.
proof fn lemma_order_is_p_minus_one(p: nat, g: nat, e: nat)
    requires
        prime(p),
        p > 2,
        2 <= g < p,
        primitive_root_test(g, p),
        1 <= e < p - 1,
    ensures
        pow_nat(g, e) % p != 1,
    decreases e,
{
    if pow_nat(g, e) % p == 1 {
        let phi = (p - 1) as nat;
        let q = phi / e;
        let r = phi % e;
        vstd::arithmetic::div_mod::lemma_fundamental_div_mod(phi as int, e as int);
        vstd::arithmetic::div_mod::lemma_small_mod(g, p);
        crate::fermat::lemma_fermat_little(p, g);
        crate::fermat::lemma_pow_one_multiple(g, e, q, p);
        crate::fermat::lemma_pow_nat_adds(g, e * q, r);
        assert(phi == e * q + r);
        vstd::arithmetic::div_mod::lemma_mul_mod_noop_left(
            pow_nat(g, e * q) as int,
            pow_nat(g, r) as int,
            p as int,
        );
        vstd::arithmetic::mul::lemma_mul_basics(pow_nat(g, r) as int);
        assert(pow_nat(g, r) % p == 1);
        if r > 0 {
            vstd::arithmetic::div_mod::lemma_mod_bound(phi as int, e as int);
            lemma_order_is_p_minus_one(p, g, r);
        } else {
            // e divides phi with cofactor q >= 2; a prime q0 of q gives a
            // tested exponent phi / q0 that is a multiple of e
            assert(q >= 2) by (nonlinear_arith)
                requires
                    phi == e * q,
                    1 <= e < phi,
            ;
            crate::primes::lemma_smallest_factor_divides(q);
            crate::primes::lemma_smallest_factor_prime(q);
            let q0 = crate::primes::smallest_factor(q);
            let k = q / q0;
            vstd::arithmetic::div_mod::lemma_fundamental_div_mod(q as int, q0 as int);
            assert(phi == q0 * (e * k)) by (nonlinear_arith)
                requires
                    phi == e * q,
                    q == q0 * k,
            ;
            vstd::arithmetic::div_mod::lemma_div_multiples_vanish((e * k) as int, q0 as int);
            assert(phi / q0 == e * k);
            vstd::arithmetic::div_mod::lemma_mod_multiples_basic((e * k) as int, q0 as int);
            vstd::arithmetic::mul::lemma_mul_is_commutative(q0 as int, (e * k) as int);
            assert(phi % q0 == 0);
            crate::fermat::lemma_prime_divisor_listed(phi, q0);
            crate::fermat::lemma_pow_one_multiple(g, e, k, p);
            let f = prime_factorization(phi);
            let i = choose|i: int| 0 <= i < f.len() && #[trigger] f[i].0 == q0;
            assert(mod_pow_spec(g, (phi / f[i].0) as nat, p) != 1);
            assert(k >= 1) by (nonlinear_arith)
                requires
                    q == q0 * k,
                    q >= 2,
            ;
            assert(e * k >= 1) by (nonlinear_arith)
                requires
                    e >= 1,
                    k >= 1,
            ;
            crate::fermat::lemma_pow_agrees(g, e * k);
        }
    }
}

/// The powers `g^0, ..., g^(p-2)` of a base that passes the primitive-root
/// test modulo a prime `p > 2` are nonzero and pairwise distinct modulo `p`,
/// so they run through every nonzero residue: `g` generates the
/// multiplicative group, which is what Rader's re-indexing relies on.
pub proof fn lemma_primitive_root_generates(p: nat, g: nat)
    requires
        prime(p),
        p > 2,
        2 <= g < p,
        primitive_root_test(g, p),
    ensures
        forall|i: nat| i < p - 1 ==> #[trigger] pow_nat(g, i) % p != 0,
        forall|i: nat, j: nat| i < j < p - 1 ==> #[trigger] pow_nat(g, i) % p != #[trigger] pow_nat(g, j) % p,
{
    vstd::arithmetic::div_mod::lemma_small_mod(g, p);
    assert forall|i: nat| i < p - 1 implies #[trigger] pow_nat(g, i) % p != 0 by {
        crate::fermat::lemma_prime_not_divides_power(p, g, i);
    }
    assert forall|i: nat, j: nat| i < j < p - 1 implies #[trigger] pow_nat(g, i) % p != #[trigger] pow_nat(g, j) % p by {
        if pow_nat(g, i) % p == pow_nat(g, j) % p {
            let a = pow_nat(g, i);
            let b = pow_nat(g, (j - i) as nat);
            crate::fermat::lemma_pow_nat_adds(g, i, (j - i) as nat);
            assert(pow_nat(g, j) == a * b);
            lemma_pow_nat_positive(g, (j - i) as nat);
            assert(a * b - a == a * (b - 1)) by (nonlinear_arith)
                requires
                    b >= 1,
            ;
            assert(a * b >= a) by (nonlinear_arith)
                requires
                    b >= 1,
            ;
            assert(((a * b - a) as int) % (p as int) == 0) by {
                vstd::arithmetic::div_mod::lemma_sub_mod_noop((a * b) as int, a as int, p as int);
                vstd::arithmetic::div_mod::lemma_mod_self_0(p as int);
                vstd::arithmetic::div_mod::lemma_small_mod(0, p);
            }
            crate::number_theory::lemma_euclid(p, a, (b - 1) as nat);
            crate::fermat::lemma_prime_not_divides_power(p, g, i);
            vstd::arithmetic::div_mod::lemma_fundamental_div_mod((b - 1) as int, p as int);
            assert((b - 1) as nat % p == 0);
            assert(b as int == (p as int) * (((b - 1) as int) / (p as int)) + 1);
            vstd::arithmetic::div_mod::lemma_fundamental_div_mod_converse_mod(
                b as int,
                p as int,
                ((b - 1) as int) / (p as int),
                1,
            );
            lemma_order_is_p_minus_one(p, g, (j - i) as nat);
        }
    }
}

/// The primality test accepts every prime, and below `41 * 41` it accepts
/// nothing else.
pub proof fn lemma_is_prime_decides_primality(n: nat)
    ensures
        prime(n) ==> passes_primality_test(n),
        n < 1681 ==> (passes_primality_test(n) <==> prime(n)),
{
    if prime(n) {
        crate::fermat::lemma_primality_test_complete(n);
    }
    if n < 1681 && passes_primality_test(n) {
        crate::primality::lemma_primality_test_sound_below_1681(n);
    }
}

/// The chosen strategy fits the length: a radix-2 FFT only for `n == 2^log2n`,
/// a Winograd short DFT only for the primes 3 to 13, the prime factor algorithm
/// only for a split into two coprime factors above 1 (for `n <= 500`), and
/// Bluestein with a power-of-two size of at least `2n - 1` and below
/// `2 * (2n - 1)` (when one fits); Rader's algorithm is never chosen.
pub proof fn lemma_strategy_consistent(n: nat)
    requires
        1 <= n <= usize::MAX,
        n <= usize::MAX / 2 || power_of_two(n),
    ensures
        match strategy_for(n) {
            TransformStrategy::Radix2 { log2n } => pow_nat(2, log2n as nat) == n,
            TransformStrategy::WinogradShort { n: w } => w == n && prime(n) && n <= 13,
            TransformStrategy::PrimeFactor { n1, n2 } => {
                &&& n1 * n2 == n
                &&& gcd_spec(n1 as nat, n2 as nat) == 1
                &&& n1 >= 2
                &&& n2 >= 2
                &&& n <= THRESHOLD_PFA
            },
            TransformStrategy::Bluestein { m } => 2 * n - 1 <= usize::MAX / 2 + 1 ==> {
                &&& power_of_two(m as nat)
                &&& 2 * n - 1 <= m
                &&& m / 2 < 2 * n - 1
            },
            TransformStrategy::Rader { .. } => false,
        },
{
    if n == 1 {
        assert(pow_nat(2, 0) == 1);
    } else if power_of_two(n) {
        lemma_two_exponent_of_power(n);
        crate::primality::lemma_two_exponent_bound(n);
        let t = two_exponent(n);
        assert(strategy_for(n) == TransformStrategy::Radix2 { log2n: t as usize });
        assert((t as usize) as nat == t);
    } else if n == 3 || n == 5 || n == 7 || n == 11 || n == 13 {
        crate::primality::lemma_winograd_lengths_prime(n);
        assert(strategy_for(n) == TransformStrategy::WinogradShort { n: n as usize });
    } else if n <= THRESHOLD_PFA && coprime_split(n) is Some {
        lemma_coprime_split(n);
        let (a, b) = coprime_split(n).unwrap();
        assert(a * b == n);
        assert(a <= n && b <= n) by (nonlinear_arith)
            requires
                a * b == n,
                a >= 2,
                b >= 2,
        ;
        assert(strategy_for(n) == TransformStrategy::PrimeFactor { n1: a as usize, n2: b as usize });
        assert((a as usize) as nat == a);
        assert((b as usize) as nat == b);
    } else {
        let k = (2 * n - 1) as nat;
        if k <= usize::MAX / 2 + 1 {
            lemma_next_power_of_two(k);
            assert(strategy_for(n) == TransformStrategy::Bluestein { m: next_power_of_two_spec(k) as usize });
        }
    }
}

// ---------------------------------------------------------------------------
// What the strategy is, case by case
// ---------------------------------------------------------------------------

/// `p` is the smallest prime factor of `n`: a prime dividing `n`, with no
/// divisor of `n` between 2 and `p`.
pub open spec fn is_smallest_prime_factor(p: nat, n: nat) -> bool {
    &&& prime(p)
    &&& n % p == 0
    &&& forall|d: nat| 2 <= d < p ==> #[trigger] (n % d) != 0
}

/// `p^e` is the full power of `p` in `n`: it divides `n` and `p^(e+1)` does not.
pub open spec fn is_full_power(p: nat, e: nat, n: nat) -> bool {
    n % pow_nat(p, e) == 0 && n % pow_nat(p, e + 1) != 0
}

/// `p^a` divides `p^b` for `a <= b`.
proof fn lemma_pow_divides_pow(p: nat, a: nat, b: nat)
    requires
        p >= 1,
        a <= b,
    ensures
        pow_nat(p, b) % pow_nat(p, a) == 0,
{
    crate::fermat::lemma_pow_nat_adds(p, a, (b - a) as nat);
    lemma_pow_nat_positive(p, a);
    vstd::arithmetic::div_mod::lemma_mod_multiples_basic(pow_nat(p, (b - a) as nat) as int, pow_nat(p, a) as int);
    vstd::arithmetic::mul::lemma_mul_is_commutative(pow_nat(p, a) as int, pow_nat(p, (b - a) as nat) as int);
}

/// The first entry of the prime factorization of `n` is the smallest prime
/// factor of `n` with its full exponent, and the entries after it are the
/// factorization of `n / p^e`.
proof fn lemma_first_prime_power(n: nat, p: nat, e: nat)
    requires
        n >= 1,
        is_smallest_prime_factor(p, n),
        is_full_power(p, e, n),
    ensures
        n >= 2,
        e >= 1,
        prime_factorization(n)[0] == (p, e),
        pow_nat(p, e) <= n,
        n % pow_nat(p, e) == 0,
        prime_factorization(n).len() >= 2 <==> pow_nat(p, e) < n,
{
    if n < 2 {
        vstd::arithmetic::div_mod::lemma_small_mod(n, p);
    }
    if e == 0 {
        assert(pow_nat(p, 1) == p * pow_nat(p, 0));
        assert(pow_nat(p, 0) == 1);
    }
    crate::primes::lemma_smallest_factor_is(n, p);
    let m = multiplicity(n, p);
    let s = strip(n, p);
    lemma_strip_value(n, p);
    lemma_pow_nat_positive(p, m);
    lemma_pow_nat_positive(p, e);
    // p^m divides n, and p^(m+1) does not
    vstd::arithmetic::div_mod::lemma_mod_multiples_basic(s as int, pow_nat(p, m) as int);
    vstd::arithmetic::mul::lemma_mul_is_commutative(s as int, pow_nat(p, m) as int);
    assert(n % pow_nat(p, m + 1) != 0) by {
        if n % pow_nat(p, m + 1) == 0 {
            lemma_pow_nat_positive(p, m + 1);
            vstd::arithmetic::div_mod::lemma_fundamental_div_mod(n as int, pow_nat(p, m + 1) as int);
            let t = n / pow_nat(p, m + 1);
            assert(pow_nat(p, m + 1) == p * pow_nat(p, m));
            let a = pow_nat(p, m);
            assert(a * s == a * (p * t)) by (nonlinear_arith)
                requires
                    n == a * s,
                    n == (p * a) * t,
            ;
            vstd::arithmetic::mul::lemma_mul_equality_converse(a as int, s as int, (p * t) as int);
            vstd::arithmetic::div_mod::lemma_mod_multiples_basic(t as int, p as int);
            vstd::arithmetic::mul::lemma_mul_is_commutative(t as int, p as int);
        }
    }
    // hence e == m
    if e < m {
        lemma_pow_divides_pow(p, e + 1, m);
        crate::primes::lemma_pow_nat_positive(p, e + 1);
        crate::primes::lemma_mod_transitive(n, pow_nat(p, m), pow_nat(p, e + 1));
    }
    if m < e {
        lemma_pow_divides_pow(p, m + 1, e);
        crate::primes::lemma_pow_nat_positive(p, m + 1);
        crate::primes::lemma_mod_transitive(n, pow_nat(p, e), pow_nat(p, m + 1));
    }
    assert(m == e);
    let f = prime_factorization(n);
    assert(f == seq![(p, m)] + prime_factorization(s));
    vstd::arithmetic::mul::lemma_mul_increases(s as int, pow_nat(p, e) as int);
    vstd::arithmetic::mul::lemma_mul_is_commutative(s as int, pow_nat(p, e) as int);
    if s == 1 {
        assert(prime_factorization(s).len() == 0);
        vstd::arithmetic::mul::lemma_mul_basics(pow_nat(p, e) as int);
    } else {
        assert(prime_factorization(s).len() >= 1);
        assert(pow_nat(p, e) < n) by (nonlinear_arith)
            requires
                n == pow_nat(p, e) * s,
                s >= 2,
                pow_nat(p, e) >= 1,
        ;
    }
}

/// A power of two `n == 2^k` is transformed by the radix-2 FFT with
/// `log2n == k`.
pub proof fn lemma_strategy_power_of_two(n: nat, k: nat)
    requires
        1 <= n <= usize::MAX,
    ensures
        pow_nat(2, k) == n ==> strategy_for(n) == (TransformStrategy::Radix2 { log2n: k as usize }),
{
    if pow_nat(2, k) == n {
        assert(power_of_two(n));
        if n == 1 {
            if k > 0 {
                lemma_pow_nat_positive(2, (k - 1) as nat);
                assert(pow_nat(2, k) == 2 * pow_nat(2, (k - 1) as nat));
            }
        } else {
            lemma_two_exponent_of_power(n);
            let t = two_exponent(n);
            if t < k {
                lemma_pow_nat_monotone(2, t + 1, k);
                lemma_pow_nat_positive(2, t);
                assert(pow_nat(2, t + 1) == 2 * pow_nat(2, t));
            } else if k < t {
                lemma_pow_nat_monotone(2, k + 1, t);
                lemma_pow_nat_positive(2, k);
                assert(pow_nat(2, k + 1) == 2 * pow_nat(2, k));
            }
        }
    }
}

/// The Winograd short DFT is chosen exactly for the lengths 3, 5, 7, 11 and 13,
/// and with the length itself.
pub proof fn lemma_strategy_winograd(n: nat)
    requires
        1 <= n <= usize::MAX,
    ensures
        (n == 3 || n == 5 || n == 7 || n == 11 || n == 13) ==> strategy_for(n)
            == (TransformStrategy::WinogradShort { n: n as usize }),
        strategy_for(n) is WinogradShort ==> (n == 3 || n == 5 || n == 7 || n == 11 || n == 13),
{
    if n == 3 || n == 5 || n == 7 || n == 11 || n == 13 {
        lemma_odd_not_power_of_two(n);
    }
}

/// A length `n <= THRESHOLD_PFA` that is not a power of two and has a prime
/// factor other than its smallest one `p` is transformed by the prime factor
/// algorithm with `n1 == p^e`, the full power of `p` in `n`, and
/// `n2 == n / p^e`.
pub proof fn lemma_strategy_prime_factor(n: nat, p: nat, e: nat)
    requires
        1 <= n <= usize::MAX,
    ensures
        is_smallest_prime_factor(p, n) && is_full_power(p, e, n) && pow_nat(p, e) < n && n
            <= THRESHOLD_PFA && !power_of_two(n) ==> strategy_for(n) == (TransformStrategy::PrimeFactor {
            n1: pow_nat(p, e) as usize,
            n2: (n / pow_nat(p, e)) as usize,
        }),
{
    if is_smallest_prime_factor(p, n) && is_full_power(p, e, n) && pow_nat(p, e) < n && n
        <= THRESHOLD_PFA && !power_of_two(n) {
        lemma_first_prime_power(n, p, e);
        // the Winograd lengths are prime, so their full prime power is n itself
        if n == 3 || n == 5 || n == 7 || n == 11 || n == 13 {
            crate::primality::lemma_winograd_lengths_prime(n);
            crate::primes::lemma_prime_factorization_of_prime(n);
        }
        assert(coprime_split(n) == Some((pow_nat(p, e), n / pow_nat(p, e))));
    }
}

/// Every other length that is not a power of two and not a Winograd length
/// (a power of an odd prime, or a length above `THRESHOLD_PFA`) is transformed
/// by Bluestein's algorithm, with a power-of-two size `m` at least `2n - 1`
/// and below `2 * (2n - 1)` (when one fits in a `usize`).
pub proof fn lemma_strategy_bluestein(n: nat, p: nat, e: nat)
    requires
        1 <= n <= usize::MAX,
    ensures
        is_smallest_prime_factor(p, n) && is_full_power(p, e, n) && !power_of_two(n) && !(n == 3
            || n == 5 || n == 7 || n == 11 || n == 13) && (pow_nat(p, e) == n || n > THRESHOLD_PFA)
            ==> match strategy_for(n) {
            TransformStrategy::Bluestein { m } => 2 * n - 1 <= usize::MAX / 2 + 1 ==> {
                &&& power_of_two(m as nat)
                &&& 2 * n - 1 <= m
                &&& m / 2 < 2 * n - 1
            },
            _ => false,
        },
{
    if is_smallest_prime_factor(p, n) && is_full_power(p, e, n) && !power_of_two(n) && !(n == 3
        || n == 5 || n == 7 || n == 11 || n == 13) && (pow_nat(p, e) == n || n > THRESHOLD_PFA) {
        lemma_first_prime_power(n, p, e);
        assert(n <= THRESHOLD_PFA ==> coprime_split(n) is None);
        if 2 * n - 1 <= usize::MAX / 2 + 1 {
            lemma_strategy_consistent(n);
        }
    }
}

} // verus!
