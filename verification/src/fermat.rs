//! Fermat's little theorem, by the binomial theorem, and its consequence that
//! the Miller–Rabin rounds accept every prime.
use vstd::arithmetic::div_mod::*;
use vstd::arithmetic::mul::*;
use vstd::prelude::*;
use crate::primes::{
    prime, pow_nat, lemma_pow_nat_positive, prime_factorization, smallest_factor, multiplicity, strip,
};
use crate::number_theory::lemma_euclid;
use crate::modular::mod_pow_spec;
use crate::primality::{
    odd_part, two_exponent, square_chain, strong_probable_prime_round, passes_primality_test,
    small_primes, witness_bases, lemma_small_primes_coprime,
};

verus! {

/// The binomial coefficient `n choose k`, by Pascal's rule.
pub open spec fn binom(n: nat, k: nat) -> nat
    decreases n, k,
{
    if k == 0 {
        1
    } else if n == 0 {
        0
    } else {
        binom((n - 1) as nat, (k - 1) as nat) + binom((n - 1) as nat, k)
    }
}

/// `sum_{i < k} binom(n, i) * x^i`.
pub open spec fn binom_sum(n: nat, x: nat, k: nat) -> nat
    decreases k,
{
    if k == 0 {
        0
    } else {
        binom_sum(n, x, (k - 1) as nat) + binom(n, (k - 1) as nat) * pow_nat(x, (k - 1) as nat)
    }
}

/// `binom(n, k) == 0` for `k > n`.
pub proof fn lemma_binom_zero(n: nat, k: nat)
    requires
        k > n,
    ensures
        binom(n, k) == 0,
    decreases n,
{
    if n > 0 {
        lemma_binom_zero((n - 1) as nat, (k - 1) as nat);
        lemma_binom_zero((n - 1) as nat, k);
    }
}

/// One step of Pascal's rule lifted to the partial sums.
proof fn lemma_binom_sum_step(n: nat, x: nat, k: nat)
    ensures
        binom_sum(n + 1, x, k + 1) == x * binom_sum(n, x, k) + binom_sum(n, x, k + 1),
    decreases k,
{
    if k == 0 {
        assert(binom_sum(n + 1, x, 0) == 0);
        assert(binom_sum(n, x, 0) == 0);
        assert(binom_sum(n + 1, x, 1) == binom(n + 1, 0) * pow_nat(x, 0));
        assert(pow_nat(x, 0) == 1);
        assert(binom_sum(n, x, 1) == binom(n, 0) * pow_nat(x, 0));
        lemma_mul_basics(x as int);
    } else {
        lemma_binom_sum_step(n, x, (k - 1) as nat);
        let a = binom_sum(n, x, (k - 1) as nat);
        let b = binom_sum(n, x, k);
        let pk = pow_nat(x, k);
        let pk1 = pow_nat(x, (k - 1) as nat);
        assert(pk == x * pk1);
        assert(binom(n + 1, k) == binom(n, (k - 1) as nat) + binom(n, k));
        assert(b == a + binom(n, (k - 1) as nat) * pk1);
        assert(binom_sum(n, x, k + 1) == b + binom(n, k) * pk);
        assert(binom_sum(n + 1, x, k + 1) == binom_sum(n + 1, x, k) + binom(n + 1, k) * pk);
        let c0 = binom(n, (k - 1) as nat);
        let c1 = binom(n, k);
        assert(x * a + b + (c0 + c1) * pk == x * b + (b + c1 * pk)) by (nonlinear_arith)
            requires
                b == a + c0 * pk1,
                pk == x * pk1,
        ;
    }
}

/// The binomial theorem for `(x + 1)^n`.
pub proof fn lemma_binomial_theorem(n: nat, x: nat)
    ensures
        pow_nat(x + 1, n) == binom_sum(n, x, n + 1),
    decreases n,
{
    if n == 0 {
        assert(binom_sum(0, x, 0) == 0);
        assert(binom_sum(0, x, 1) == binom(0, 0) * pow_nat(x, 0));
        assert(pow_nat(x + 1, 0) == 1);
        assert(pow_nat(x, 0) == 1);
        assert(binom(0, 0) == 1);
        lemma_mul_basics(pow_nat(x, 0) as int);
        assert(binom_sum(0, x, 1) == 1);
        assert(pow_nat(x + 1, n) == binom_sum(n, x, n + 1));
    } else {
        let m = (n - 1) as nat;
        lemma_binomial_theorem(m, x);
        lemma_binom_sum_step(m, x, m + 1);
        lemma_binom_zero(m, m + 1);
        assert(binom_sum(m, x, m + 2) == binom_sum(m, x, m + 1) + binom(m, m + 1) * pow_nat(x, m + 1));
        let s = binom_sum(m, x, m + 1);
        assert(pow_nat(x + 1, n) == (x + 1) * s);
        assert((x + 1) * s == x * s + s) by (nonlinear_arith);
        assert(binom(m, m + 1) * pow_nat(x, m + 1) == 0);
        assert(binom_sum(m + 1, x, m + 1 + 1) == x * s + binom_sum(m, x, m + 1 + 1));
        assert(m + 1 == n);
    }
}

/// Absorption: `k * binom(n, k) == n * binom(n - 1, k - 1)` for `n, k >= 1`.
pub proof fn lemma_binom_absorption(n: nat, k: nat)
    requires
        n >= 1,
        k >= 1,
    ensures
        k * binom(n, k) == n * binom((n - 1) as nat, (k - 1) as nat),
    decreases n,
{
    if n == 1 {
        if k == 1 {
            assert(binom(1, 1) == binom(0, 0) + binom(0, 1));
        } else {
            lemma_binom_zero(1, k);
            lemma_binom_zero(0, (k - 1) as nat);
            lemma_mul_basics(k as int);
        }
    } else {
        let m = (n - 1) as nat;
        // binom(n, k) == binom(m, k - 1) + binom(m, k)
        assert(binom(n, k) == binom(m, (k - 1) as nat) + binom(m, k));
        // k * binom(m, k) == m * binom(m - 1, k - 1)
        lemma_binom_absorption(m, k);
        if k == 1 {
            assert(binom(m, 0) == 1);
            assert(binom((m - 1) as nat, 0) == 1);
            assert(k * binom(n, k) == binom(m, 0) + binom(m, 1));
            lemma_binom_one(m);
        } else {
            // (k - 1) * binom(m, k - 1) == m * binom(m - 1, k - 2)
            lemma_binom_absorption(m, (k - 1) as nat);
            assert(binom(m, (k - 1) as nat) == binom((m - 1) as nat, (k - 2) as nat) + binom(
                (m - 1) as nat,
                (k - 1) as nat,
            ));
            let a = binom(m, (k - 1) as nat);
            let b = binom(m, k);
            let c = binom((m - 1) as nat, (k - 2) as nat);
            let d = binom((m - 1) as nat, (k - 1) as nat);
            assert(k * (a + b) == n * a) by (nonlinear_arith)
                requires
                    k * b == m * d,
                    (k - 1) * a == m * c,
                    a == c + d,
                    n == m + 1,
                    k >= 2,
            ;
        }
    }
}

/// `binom(n, 1) == n`.
proof fn lemma_binom_one(n: nat)
    ensures
        binom(n, 1) == n,
    decreases n,
{
    if n > 0 {
        lemma_binom_one((n - 1) as nat);
        assert(binom((n - 1) as nat, 0) == 1);
        assert(binom(n, 1) == binom((n - 1) as nat, 0) + binom((n - 1) as nat, 1));
    }
}

/// A prime `p` divides `binom(p, k)` for `0 < k < p`.
pub proof fn lemma_prime_divides_binom(p: nat, k: nat)
    requires
        prime(p),
        0 < k < p,
    ensures
        binom(p, k) % p == 0,
{
    lemma_binom_absorption(p, k);
    let c = binom((p - 1) as nat, (k - 1) as nat);
    lemma_mod_multiples_basic(c as int, p as int);
    lemma_mul_is_commutative(p as int, c as int);
    assert((k * binom(p, k)) % p == 0);
    lemma_euclid(p, k, binom(p, k));
    lemma_small_mod(k, p);
}

/// Modulo a prime `p`, the middle terms of `(x + 1)^p` vanish.
proof fn lemma_binom_sum_mod_prime(p: nat, x: nat, k: nat)
    requires
        prime(p),
        1 <= k <= p,
    ensures
        binom_sum(p, x, k) % p == 1nat % p,
    decreases k,
{
    if k == 1 {
        assert(binom_sum(p, x, 0) == 0);
        assert(binom_sum(p, x, 1) == binom(p, 0) * pow_nat(x, 0));
        assert(pow_nat(x, 0) == 1);
        assert(binom(p, 0) == 1);
        lemma_mul_basics(pow_nat(x, 0) as int);
        assert(binom_sum(p, x, 1) == 1);
    } else {
        let j = (k - 1) as nat;
        lemma_binom_sum_mod_prime(p, x, j);
        lemma_prime_divides_binom(p, j);
        let t = binom(p, j) * pow_nat(x, j);
        lemma_mul_mod_noop_left(binom(p, j) as int, pow_nat(x, j) as int, p as int);
        assert(0 * pow_nat(x, j) == 0);
        lemma_small_mod(0, p);
        assert(t % p == 0);
        assert(binom_sum(p, x, k) == binom_sum(p, x, j) + t);
        lemma_add_mod_noop(binom_sum(p, x, j) as int, t as int, p as int);
        assert(binom_sum(p, x, k) % p == ((1nat % p) + 0) % p);
        lemma_mod_twice(1, p as int);
    }
}

/// `(x + 1)^p ≡ x^p + 1 (mod p)` for a prime `p`.
pub proof fn lemma_freshman(p: nat, x: nat)
    requires
        prime(p),
    ensures
        pow_nat(x + 1, p) % p == (pow_nat(x, p) + 1) % p,
{
    lemma_binomial_theorem(p, x);
    lemma_binom_sum_mod_prime(p, x, p);
    assert(binom(p, p) == 1) by {
        lemma_binom_diag(p);
    }
    assert(binom_sum(p, x, p + 1) == binom_sum(p, x, p) + binom(p, p) * pow_nat(x, p));
    lemma_add_mod_noop(binom_sum(p, x, p) as int, pow_nat(x, p) as int, p as int);
    lemma_add_mod_noop(1, pow_nat(x, p) as int, p as int);
}

/// `binom(n, n) == 1`.
pub proof fn lemma_binom_diag(n: nat)
    ensures
        binom(n, n) == 1,
    decreases n,
{
    if n > 0 {
        lemma_binom_diag((n - 1) as nat);
        lemma_binom_zero((n - 1) as nat, n);
    }
}

/// Fermat: `x^p ≡ x (mod p)` for a prime `p`.
pub proof fn lemma_fermat_power(p: nat, x: nat)
    requires
        prime(p),
    ensures
        pow_nat(x, p) % p == x % p,
    decreases x,
{
    if x == 0 {
        assert(pow_nat(0, p) == 0 * pow_nat(0, (p - 1) as nat));
    } else {
        let y = (x - 1) as nat;
        lemma_fermat_power(p, y);
        lemma_freshman(p, y);
        lemma_add_mod_noop(pow_nat(y, p) as int, 1, p as int);
        lemma_add_mod_noop(y as int, 1, p as int);
    }
}

/// Fermat's little theorem: `x^(p-1) ≡ 1 (mod p)` for a prime `p` not dividing `x`.
pub proof fn lemma_fermat_little(p: nat, x: nat)
    requires
        prime(p),
        x % p != 0,
    ensures
        pow_nat(x, (p - 1) as nat) % p == 1,
{
    lemma_fermat_power(p, x);
    let q = pow_nat(x, (p - 1) as nat);
    assert(pow_nat(x, p) == x * q);
    assert(x > 0) by {
        if x == 0 {
            lemma_small_mod(0, p);
        }
    }
    lemma_pow_nat_positive(x, (p - 1) as nat);
    // p divides x * q - x == x * (q - 1)
    assert(x * q >= x) by (nonlinear_arith)
        requires
            q >= 1,
    ;
    assert((x * q - x) as int % p as int == 0) by {
        lemma_sub_mod_noop((x * q) as int, x as int, p as int);
        lemma_mod_self_0(p as int);
        lemma_small_mod(0, p);
    }
    assert(x * q - x == x * (q - 1)) by (nonlinear_arith);
    lemma_euclid(p, x, (q - 1) as nat);
    // q - 1 ≡ 0, so q ≡ 1
    lemma_fundamental_div_mod((q - 1) as int, p as int);
    lemma_fundamental_div_mod_converse_mod(q as int, p as int, ((q - 1) as int) / (p as int), 1);
}

/// Modulo a prime, the only square roots of 1 are 1 and -1.
pub proof fn lemma_square_root_of_one(p: nat, y: nat)
    requires
        prime(p),
        y < p,
        (y * y) % p == 1,
    ensures
        y == 1 || y == p - 1,
{
    if y == 0 {
        lemma_small_mod(0, p);
    } else {
        assert((y * y - 1) as int % p as int == 0) by {
            lemma_sub_mod_noop((y * y) as int, 1, p as int);
            lemma_small_mod(1, p);
            lemma_mod_self_0(p as int);
            lemma_small_mod(0, p);
        }
        assert(y * y - 1 == (y - 1) * (y + 1)) by (nonlinear_arith)
            requires
                y >= 1,
        ;
        lemma_euclid(p, (y - 1) as nat, y + 1);
        if (y - 1) as nat % p == 0 {
            lemma_small_mod((y - 1) as nat, p);
        } else {
            if y + 1 < p {
                lemma_small_mod(y + 1, p);
            }
        }
    }
}

/// `b^(e1 + e2) == b^e1 * b^e2`.
pub proof fn lemma_pow_nat_adds(b: nat, e1: nat, e2: nat)
    ensures
        pow_nat(b, e1 + e2) == pow_nat(b, e1) * pow_nat(b, e2),
    decreases e1,
{
    if e1 == 0 {
        assert(pow_nat(b, 0) == 1);
        lemma_mul_basics(pow_nat(b, e2) as int);
    } else {
        lemma_pow_nat_adds(b, (e1 - 1) as nat, e2);
        assert(pow_nat(b, e1 + e2) == b * pow_nat(b, (e1 - 1 + e2) as nat));
        lemma_mul_is_associative(b as int, pow_nat(b, (e1 - 1) as nat) as int, pow_nat(b, e2) as int);
    }
}

/// The standard library's `pow` agrees with `pow_nat` on naturals.
pub proof fn lemma_pow_agrees(b: nat, e: nat)
    ensures
        vstd::arithmetic::power::pow(b as int, e) == pow_nat(b, e) as int,
    decreases e,
{
    reveal(vstd::arithmetic::power::pow);
    if e > 0 {
        lemma_pow_agrees(b, (e - 1) as nat);
    }
}

/// `m == odd_part(m) * 2^two_exponent(m)` and the odd part of `m >= 1` is odd.
pub proof fn lemma_odd_part(m: nat)
    requires
        m >= 1,
    ensures
        m == odd_part(m) * pow_nat(2, two_exponent(m)),
        odd_part(m) % 2 == 1,
    decreases m,
{
    if m % 2 == 0 {
        lemma_odd_part(m / 2);
        let o = odd_part(m / 2);
        let t = pow_nat(2, two_exponent(m / 2));
        assert(pow_nat(2, two_exponent(m)) == 2 * t);
        assert(m == o * (2 * t)) by (nonlinear_arith)
            requires
                m / 2 == o * t,
                m % 2 == 0,
                m == 2 * (m / 2) + m % 2,
        ;
    } else {
        assert(pow_nat(2, 0) == 1);
        lemma_mul_basics(m as int);
    }
}

/// Repeated squaring of `a^d mod n` gives `a^(d * 2^r) mod n`.
pub proof fn lemma_square_chain(a: nat, d: nat, r: nat, n: nat)
    requires
        n >= 1,
    ensures
        square_chain(pow_nat(a, d) % n, r, n) == pow_nat(a, d * pow_nat(2, r)) % n,
    decreases r,
{
    if r == 0 {
        assert(pow_nat(2, 0) == 1);
        lemma_mul_basics(d as int);
    } else {
        let rr = (r - 1) as nat;
        lemma_square_chain(a, d, rr, n);
        let e = d * pow_nat(2, rr);
        let y = pow_nat(a, e);
        lemma_mul_mod_noop_general(y as int, y as int, n as int);
        lemma_pow_nat_adds(a, e, e);
        assert(d * pow_nat(2, r) == e + e) by (nonlinear_arith)
            requires
                pow_nat(2, r) == 2 * pow_nat(2, rr),
                e == d * pow_nat(2, rr),
        ;
    }
}

/// A Miller–Rabin round accepts every prime `n >= 3` for every base `2 <= a < n`.
pub proof fn lemma_miller_rabin_accepts_prime(a: nat, n: nat)
    requires
        prime(n),
        n >= 3,
        2 <= a < n,
    ensures
        strong_probable_prime_round(a, odd_part((n - 1) as nat), two_exponent((n - 1) as nat), n),
{
    let m = (n - 1) as nat;
    let d = odd_part(m);
    let s = two_exponent(m);
    lemma_odd_part(m);
    assert(d >= 1);
    lemma_pow_agrees(a, d);
    let x0 = mod_pow_spec(a, d, n);
    assert(x0 == pow_nat(a, d) % n);
    if !(x0 == 1 || x0 == n - 1 || exists|r: nat| 1 <= r < s && #[trigger] square_chain(x0, r, n) == n - 1) {
        // every element of the chain up to s differs from 1
        lemma_chain_avoids_one(x0, s, n, s);
        // but the last one is a^(n-1) mod n == 1
        lemma_square_chain(a, d, s, n);
        lemma_small_mod(a, n);
        lemma_fermat_little(n, a);
        assert(d * pow_nat(2, s) == m) by {
            lemma_mul_is_commutative(d as int, pow_nat(2, s) as int);
        }
        assert(false);
    }
}

/// If neither `x0` nor any of its first `s - 1` squares is `-1`, and `x0 != 1`,
/// then no square up to the `k`-th is 1 (modulo a prime `n`).
proof fn lemma_chain_avoids_one(x0: nat, s: nat, n: nat, k: nat)
    requires
        prime(n),
        x0 < n,
        x0 != 1,
        x0 != n - 1,
        forall|r: nat| 1 <= r < s ==> #[trigger] square_chain(x0, r, n) != n - 1,
        k <= s,
    ensures
        square_chain(x0, k, n) != 1,
    decreases k,
{
    if k > 0 {
        let j = (k - 1) as nat;
        lemma_chain_avoids_one(x0, s, n, j);
        let y = square_chain(x0, j, n);
        assert(y < n) by {
            if j > 0 {
                let z = square_chain(x0, (j - 1) as nat, n);
                lemma_mod_bound((z * z) as int, n as int);
            }
        }
        if square_chain(x0, k, n) == 1 {
            lemma_square_root_of_one(n, y);
            if j > 0 {
                assert(square_chain(x0, j, n) != n - 1);
            }
        }
    }
}

/// The primality test accepts every prime.
pub proof fn lemma_primality_test_complete(n: nat)
    requires
        prime(n),
    ensures
        passes_primality_test(n),
{
    if n >= 4 {
        assert(n % 2 != 0);
        assert(n % 3 != 0);
        let sp = small_primes();
        lemma_small_primes_coprime();
        if !sp.contains(n) {
            assert forall|i: int| 0 <= i < 10 implies n % #[trigger] sp[i] != 0 by {
                if n % sp[i] == 0 {
                    crate::primes::lemma_mod_is_zero_ge(n, sp[i]);
                    assert(sp[i] != n);
                    assert(2 <= sp[i] < n);
                }
            }
            let w = witness_bases();
            assert forall|i: int| 0 <= i < 12 && #[trigger] w[i] < n implies strong_probable_prime_round(
                w[i],
                odd_part((n - 1) as nat),
                two_exponent((n - 1) as nat),
                n,
            ) by {
                assert(w[i] >= 2) by {
                    lemma_witness_bases_at_least_two(i);
                }
                lemma_miller_rabin_accepts_prime(w[i], n);
            }
        }
    }
}

/// Every Miller–Rabin base is at least 2.
proof fn lemma_witness_bases_at_least_two(i: int)
    requires
        0 <= i < 12,
    ensures
        witness_bases()[i] >= 2,
{
    let w = witness_bases();
    assert(w[0] == 2 && w[1] == 3 && w[2] == 5 && w[3] == 7 && w[4] == 11 && w[5] == 13 && w[6] == 17
        && w[7] == 19 && w[8] == 23 && w[9] == 29 && w[10] == 31 && w[11] == 37);
    if i == 0 {
    } else if i == 1 {
    } else if i == 2 {
    } else if i == 3 {
    } else if i == 4 {
    } else if i == 5 {
    } else if i == 6 {
    } else if i == 7 {
    } else if i == 8 {
    } else if i == 9 {
    } else if i == 10 {
    } else {
    }
}

/// `(g^e)^k == g^(e * k)`.
pub proof fn lemma_pow_nat_multiplies(g: nat, e: nat, k: nat)
    ensures
        pow_nat(pow_nat(g, e), k) == pow_nat(g, e * k),
    decreases k,
{
    if k == 0 {
        assert(e * 0 == 0);
    } else {
        lemma_pow_nat_multiplies(g, e, (k - 1) as nat);
        lemma_pow_nat_adds(g, e, e * (k - 1) as nat);
        assert(e + e * (k - 1) as nat == e * k) by (nonlinear_arith)
            requires
                k >= 1,
        ;
    }
}

/// If `g^e ≡ 1 (mod p)` then `g^(e * k) ≡ 1 (mod p)`.
pub proof fn lemma_pow_one_multiple(g: nat, e: nat, k: nat, p: nat)
    requires
        p >= 2,
        pow_nat(g, e) % p == 1,
    ensures
        pow_nat(g, e * k) % p == 1,
    decreases k,
{
    if k == 0 {
        assert(e * 0 == 0);
        assert(pow_nat(g, 0) == 1);
        lemma_small_mod(1, p);
    } else {
        lemma_pow_one_multiple(g, e, (k - 1) as nat, p);
        lemma_pow_nat_adds(g, e, e * (k - 1) as nat);
        assert(e + e * (k - 1) as nat == e * k) by (nonlinear_arith)
            requires
                k >= 1,
        ;
        lemma_mul_mod_noop_general(pow_nat(g, e) as int, pow_nat(g, e * (k - 1) as nat) as int, p as int);
        lemma_small_mod(1, p);
    }
}

/// A prime that does not divide `g` does not divide any power of `g`.
pub proof fn lemma_prime_not_divides_power(p: nat, g: nat, e: nat)
    requires
        prime(p),
        g % p != 0,
    ensures
        pow_nat(g, e) % p != 0,
    decreases e,
{
    if e == 0 {
        assert(pow_nat(g, 0) == 1);
        lemma_small_mod(1, p);
    } else {
        lemma_prime_not_divides_power(p, g, (e - 1) as nat);
        if pow_nat(g, e) % p == 0 {
            lemma_euclid(p, g, pow_nat(g, (e - 1) as nat));
        }
    }
}

/// Every prime divisor of `n >= 1` occurs in its prime factorization.
pub proof fn lemma_prime_divisor_listed(n: nat, q: nat)
    requires
        n >= 1,
        prime(q),
        n % q == 0,
    ensures
        exists|i: int| 0 <= i < prime_factorization(n).len()
            && #[trigger] prime_factorization(n)[i].0 == q,
    decreases n,
{
    if n == 1 {
        lemma_small_mod(1, q);
    } else {
        let p0 = smallest_factor(n);
        crate::primes::lemma_smallest_factor_divides(n);
        crate::primes::lemma_smallest_factor_prime(n);
        let f = prime_factorization(n);
        assert(f[0].0 == p0);
        if q != p0 {
            let m = multiplicity(n, p0);
            let st = strip(n, p0);
            crate::primes::lemma_strip_value(n, p0);
            crate::primes::lemma_strip_decreases(n, p0);
            lemma_euclid(q, pow_nat(p0, m), st);
            if pow_nat(p0, m) % q == 0 {
                crate::primes::lemma_prime_divides_prime_power(q, p0, m);
            }
            lemma_prime_divisor_listed(st, q);
            let i = choose|i: int| 0 <= i < prime_factorization(st).len()
                && #[trigger] prime_factorization(st)[i].0 == q;
            assert(f[i + 1] == prime_factorization(st)[i]);
        }
    }
}

} // verus!
