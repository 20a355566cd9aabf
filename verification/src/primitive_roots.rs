//! Every prime has a primitive root.
//!
//! The proof avoids polynomials: the power sums `sum_{a<p} a^k` vanish modulo
//! `p` for `k <= p - 2` (by telescoping `(a + 1)^(k+1) - a^(k+1)` with the
//! binomial theorem), so `x^k = 1` cannot hold for every nonzero residue.
//! That gives, for each prime power `q^e` exactly dividing `p - 1`, an element
//! of order `q^e`, and the product of these elements has order `p - 1`.
use vstd::arithmetic::div_mod::*;
use vstd::arithmetic::mul::*;
use vstd::prelude::*;
use crate::primes::{
    prime, pow_nat, lemma_pow_nat_positive, prime_factorization, factorization_value,
    lemma_prime_factorization, lemma_prime_divides_prime_power, lemma_mod_transitive,
};
use crate::fermat::{lemma_pow_agrees, lemma_pow_nat_multiplies, lemma_pow_one_multiple, lemma_pow_nat_adds, lemma_fermat_little};
use crate::fermat::{binom, binom_sum, lemma_binomial_theorem, lemma_binom_diag};
use crate::number_theory::lemma_euclid;
use crate::modular::mod_pow_spec;
use crate::factorization::primitive_root_test;

verus! {

/// `sum_{a < n} a^k`.
pub open spec fn power_sum(k: nat, n: nat) -> nat
    decreases n,
{
    if n == 0 {
        0
    } else {
        power_sum(k, (n - 1) as nat) + pow_nat((n - 1) as nat, k)
    }
}

/// `sum_{a < n} binom_sum(m, a, j)`.
spec fn binom_sum_total(m: nat, n: nat, j: nat) -> nat
    decreases n,
{
    if n == 0 {
        0
    } else {
        binom_sum_total(m, (n - 1) as nat, j) + binom_sum(m, (n - 1) as nat, j)
    }
}

/// `sum_{i < j} binom(m, i) * power_sum(i, n)`.
spec fn weighted_power_sums(m: nat, n: nat, j: nat) -> nat
    decreases j,
{
    if j == 0 {
        0
    } else {
        weighted_power_sums(m, n, (j - 1) as nat) + binom(m, (j - 1) as nat) * power_sum(
            (j - 1) as nat,
            n,
        )
    }
}

/// With no terms, the total is zero.
proof fn lemma_total_zero(m: nat, n: nat)
    ensures
        binom_sum_total(m, n, 0) == 0,
    decreases n,
{
    if n > 0 {
        lemma_total_zero(m, (n - 1) as nat);
    }
}

/// Adding the term `j` to every inner sum adds `binom(m, j)` times a power sum.
proof fn lemma_total_step(m: nat, n: nat, j: nat)
    ensures
        binom_sum_total(m, n, j + 1) == binom_sum_total(m, n, j) + binom(m, j) * power_sum(j, n),
    decreases n,
{
    if n > 0 {
        let n1 = (n - 1) as nat;
        lemma_total_step(m, n1, j);
        let c = binom(m, j);
        let s1 = power_sum(j, n1);
        let t = pow_nat(n1, j);
        assert(c * (s1 + t) == c * s1 + c * t) by (nonlinear_arith);
        assert(binom_sum(m, n1, j + 1) == binom_sum(m, n1, j) + c * t);
        assert(power_sum(j, n) == s1 + t);
        assert(binom_sum_total(m, n, j + 1) == binom_sum_total(m, n1, j + 1) + binom_sum(m, n1, j + 1));
        assert(binom_sum_total(m, n, j) == binom_sum_total(m, n1, j) + binom_sum(m, n1, j));
    } else {
        lemma_mul_basics(binom(m, j) as int);
    }
}

/// Exchanging the two sums.
proof fn lemma_total_is_weighted(m: nat, n: nat, j: nat)
    ensures
        binom_sum_total(m, n, j) == weighted_power_sums(m, n, j),
    decreases j,
{
    if j == 0 {
        lemma_total_zero(m, n);
    } else {
        lemma_total_is_weighted(m, n, (j - 1) as nat);
        lemma_total_step(m, n, (j - 1) as nat);
    }
}

/// Telescoping: `sum_{a < n} ((a + 1)^m - a^m) == n^m` for `m >= 1`.
proof fn lemma_total_telescopes(m: nat, n: nat)
    requires
        m >= 1,
    ensures
        binom_sum_total(m, n, m) == pow_nat(n, m),
    decreases n,
{
    if n == 0 {
        assert(pow_nat(0, m) == 0 * pow_nat(0, (m - 1) as nat));
    } else {
        let n1 = (n - 1) as nat;
        lemma_total_telescopes(m, n1);
        lemma_binomial_theorem(m, n1);
        lemma_binom_diag(m);
        assert(binom_sum(m, n1, m + 1) == binom_sum(m, n1, m) + binom(m, m) * pow_nat(n1, m));
        assert(n1 + 1 == n);
    }
}

/// `sum_{a < n} a^0 == n`.
proof fn lemma_power_sum_zero(n: nat)
    ensures
        power_sum(0, n) == n,
    decreases n,
{
    if n > 0 {
        lemma_power_sum_zero((n - 1) as nat);
        assert(pow_nat((n - 1) as nat, 0) == 1);
    }
}

/// `binom(k + 1, k) == k + 1`.
proof fn lemma_binom_pred(k: nat)
    ensures
        binom(k + 1, k) == k + 1,
    decreases k,
{
    if k == 0 {
        assert(binom(1, 0) == 1);
    } else {
        lemma_binom_pred((k - 1) as nat);
        lemma_binom_diag(k);
        assert(binom(k + 1, k) == binom(k, (k - 1) as nat) + binom(k, k));
    }
}

/// `x + c * y` is a multiple of `p` when `x` and `y` are.
proof fn lemma_sum_of_multiples(x: nat, c: nat, y: nat, p: nat)
    requires
        p > 0,
        x % p == 0,
        y % p == 0,
    ensures
        (x + c * y) % p == 0,
{
    lemma_fundamental_div_mod(x as int, p as int);
    lemma_fundamental_div_mod(y as int, p as int);
    let u = x / p;
    let v = y / p;
    assert(x + c * y == p * (u + c * v)) by (nonlinear_arith)
        requires
            x == p * u,
            y == p * v,
    ;
    lemma_mod_multiples_basic((u + c * v) as int, p as int);
    lemma_mul_is_commutative(p as int, (u + c * v) as int);
}

/// Weighted sums of power sums that are multiples of `p` are multiples of `p`.
proof fn lemma_weighted_mod(m: nat, n: nat, j: nat, p: nat)
    requires
        p > 0,
        forall|i: nat| i < j ==> #[trigger] power_sum(i, n) % p == 0,
    ensures
        weighted_power_sums(m, n, j) % p == 0,
    decreases j,
{
    if j == 0 {
        lemma_small_mod(0, p);
    } else {
        let j1 = (j - 1) as nat;
        lemma_weighted_mod(m, n, j1, p);
        assert(power_sum(j1, n) % p == 0);
        lemma_sum_of_multiples(weighted_power_sums(m, n, j1), binom(m, j1), power_sum(j1, n), p);
    }
}

/// Modulo a prime `p`, `sum_{a < p} a^k` vanishes for `k <= p - 2`.
pub proof fn lemma_power_sum_vanishes(p: nat, k: nat)
    requires
        prime(p),
        k + 2 <= p,
    ensures
        power_sum(k, p) % p == 0,
    decreases k,
{
    if k == 0 {
        lemma_power_sum_zero(p);
        lemma_mod_self_0(p as int);
    } else {
        assert forall|i: nat| i < k implies #[trigger] power_sum(i, p) % p == 0 by {
            lemma_power_sum_vanishes(p, i);
        }
        let m = k + 1;
        lemma_total_telescopes(m, p);
        lemma_total_is_weighted(m, p, m);
        lemma_weighted_mod(m, p, k, p);
        lemma_binom_pred(k);
        let w = weighted_power_sums(m, p, k);
        let s = power_sum(k, p);
        assert(weighted_power_sums(m, p, m) == w + (k + 1) * s);
        // p^m is a multiple of p
        assert(pow_nat(p, m) == p * pow_nat(p, k));
        lemma_mod_multiples_basic(pow_nat(p, k) as int, p as int);
        lemma_mul_is_commutative(p as int, pow_nat(p, k) as int);
        assert((w + (k + 1) * s) % p == 0);
        lemma_add_mod_noop(w as int, ((k + 1) * s) as int, p as int);
        lemma_small_mod(((k + 1) * s % p) as nat, p);
        assert(((k + 1) * s) % p == 0);
        lemma_euclid(p, k + 1, s);
        lemma_small_mod(k + 1, p);
    }
}

/// If `a^k ≡ 1` for every `1 <= a < n`, then `sum_{a < n} a^k ≡ n - 1`.
proof fn lemma_power_sum_of_ones(k: nat, n: nat, p: nat)
    requires
        k >= 1,
        n >= 1,
        p > 0,
        forall|a: nat| 1 <= a < n ==> #[trigger] (pow_nat(a, k) % p) == 1,
    ensures
        power_sum(k, n) % p == (n - 1) as nat % p,
    decreases n,
{
    if n == 1 {
        assert(pow_nat(0, k) == 0 * pow_nat(0, (k - 1) as nat));
        assert(power_sum(k, 1) == power_sum(k, 0) + pow_nat(0, k));
        lemma_small_mod(0, p);
    } else {
        let n1 = (n - 1) as nat;
        lemma_power_sum_of_ones(k, n1, p);
        assert(pow_nat(n1, k) % p == 1);
        lemma_add_mod_noop(power_sum(k, n1) as int, pow_nat(n1, k) as int, p as int);
        lemma_add_mod_noop((n1 - 1) as int, 1, p as int);
        lemma_small_mod(1, p);
        if p == 1 {
            lemma_small_mod(0, 1);
        }
    }
}

/// Modulo a prime `p`, for `1 <= k <= p - 2` some nonzero residue `a` has
/// `a^k ≢ 1`.
pub proof fn lemma_non_root_exists(p: nat, k: nat)
    requires
        prime(p),
        1 <= k,
        k + 2 <= p,
    ensures
        exists|a: nat| 1 <= a < p && #[trigger] (pow_nat(a, k) % p) != 1,
{
    if !(exists|a: nat| 1 <= a < p && #[trigger] (pow_nat(a, k) % p) != 1) {
        assert forall|a: nat| 1 <= a < p implies #[trigger] (pow_nat(a, k) % p) == 1 by {
        }
        lemma_power_sum_of_ones(k, p, p);
        lemma_power_sum_vanishes(p, k);
        lemma_small_mod((p - 1) as nat, p);
    }
}

// ---------------------------------------------------------------------------
// Powers modulo p
// ---------------------------------------------------------------------------

/// `(x mod p)^e ≡ x^e (mod p)`.
proof fn lemma_pow_mod_base(x: nat, e: nat, p: nat)
    requires
        p > 0,
    ensures
        pow_nat(x % p, e) % p == pow_nat(x, e) % p,
{
    lemma_pow_agrees(x % p, e);
    lemma_pow_agrees(x, e);
    vstd::arithmetic::power::lemma_pow_mod_noop(x as int, e, p as int);
}

/// `(b^s mod p)^x ≡ b^(s x) (mod p)`.
proof fn lemma_pow_of_pow_mod(b: nat, s: nat, x: nat, p: nat)
    requires
        p > 0,
    ensures
        pow_nat(pow_nat(b, s) % p, x) % p == pow_nat(b, s * x) % p,
{
    lemma_pow_mod_base(pow_nat(b, s), x, p);
    lemma_pow_nat_multiplies(b, s, x);
}

/// `((g b) mod p)^t ≡ g^t b^t (mod p)`.
proof fn lemma_pow_of_product(g: nat, b: nat, t: nat, p: nat)
    requires
        p > 0,
    ensures
        pow_nat((g * b) % p, t) % p == ((pow_nat(g, t) % p) * (pow_nat(b, t) % p)) % p,
{
    lemma_pow_mod_base(g * b, t, p);
    lemma_pow_agrees(g * b, t);
    lemma_pow_agrees(g, t);
    lemma_pow_agrees(b, t);
    vstd::arithmetic::power::lemma_pow_distributes(g as int, b as int, t);
    lemma_mul_mod_noop_general(pow_nat(g, t) as int, pow_nat(b, t) as int, p as int);
}

/// A product whose one factor is `≡ 1` is `≡` the other factor.
proof fn lemma_product_with_one(x: nat, y: nat, p: nat)
    requires
        p >= 2,
        x % p == 1,
    ensures
        ((x % p) * (y % p)) % p == y % p,
        ((y % p) * (x % p)) % p == y % p,
{
    lemma_mod_bound(y as int, p as int);
    lemma_small_mod(y % p, p);
    lemma_mul_basics((y % p) as int);
}

/// If `c^q ≡ 1` and `c^x ≡ 1` for a prime `q` not dividing `x`, then `c ≡ 1`.
proof fn lemma_coprime_exponent(p: nat, c: nat, q: nat, x: nat)
    requires
        p >= 2,
        prime(q),
        x % q != 0,
        pow_nat(c, q) % p == 1,
        pow_nat(c, x) % p == 1,
    ensures
        c % p == 1,
{
    // x^(q-1) = 1 + w q by Fermat, and x^(q-1) = x * x^(q-2)
    lemma_fermat_little(q, x);
    let big = pow_nat(x, (q - 1) as nat);
    lemma_fundamental_div_mod(big as int, q as int);
    let w = big / q;
    assert(big == q * w + 1);
    assert(big == x * pow_nat(x, (q - 2) as nat));
    // c^big ≡ 1 from c^x ≡ 1
    lemma_pow_one_multiple(c, x, pow_nat(x, (q - 2) as nat), p);
    // c^big = c * c^(q w) ≡ c
    lemma_pow_one_multiple(c, q, w, p);
    lemma_pow_nat_adds(c, 1, q * w);
    assert(pow_nat(c, 1) == c * pow_nat(c, 0));
    assert(pow_nat(c, 0) == 1);
    lemma_mul_basics(c as int);
    assert(pow_nat(c, 1) == c);
    assert(1 + q * w == big);
    lemma_mul_mod_noop_general(c as int, pow_nat(c, q * w) as int, p as int);
    lemma_product_with_one(pow_nat(c, q * w), c, p);
}

/// If `b^(s q) ≡ 1` but `b^s ≢ 1` for a prime `q`, then `b^(s x) ≢ 1` for every
/// `x` that `q` does not divide.
proof fn lemma_power_stays_not_one(p: nat, b: nat, s: nat, q: nat, x: nat)
    requires
        p >= 2,
        prime(q),
        x % q != 0,
        pow_nat(b, s * q) % p == 1,
        pow_nat(b, s) % p != 1,
    ensures
        pow_nat(b, s * x) % p != 1,
{
    let c = pow_nat(b, s) % p;
    lemma_pow_of_pow_mod(b, s, q, p);
    lemma_pow_of_pow_mod(b, s, x, p);
    lemma_mod_bound(pow_nat(b, s) as int, p as int);
    lemma_small_mod(c, p);
    if pow_nat(b, s * x) % p == 1 {
        lemma_coprime_exponent(p, c, q, x);
    }
}

// ---------------------------------------------------------------------------
// The prime powers of p - 1
// ---------------------------------------------------------------------------

/// The product of the prime powers of `f` from index `i` on.
spec fn rest(f: Seq<(nat, nat)>, i: nat) -> nat {
    factorization_value(f.skip(i as int))
}

/// The entries of `f` are ascending primes with positive exponents.
spec fn good_factorization(f: Seq<(nat, nat)>) -> bool {
    &&& forall|i: int| 0 <= i < f.len() ==> prime(#[trigger] f[i].0) && f[i].1 >= 1
    &&& forall|i: int, j: int| 0 <= i < j < f.len() ==> #[trigger] f[i].0 < #[trigger] f[j].0
}

/// `rest(f, i) == f[i].0^f[i].1 * rest(f, i + 1)`.
proof fn lemma_rest_step(f: Seq<(nat, nat)>, i: nat)
    requires
        i < f.len(),
    ensures
        rest(f, i) == pow_nat(f[i as int].0, f[i as int].1) * rest(f, i + 1),
{
    let s = f.skip(i as int);
    assert(s.drop_first() =~= f.skip((i + 1) as int));
    assert(s[0] == f[i as int]);
}

/// The empty tail multiplies to 1.
proof fn lemma_rest_end(f: Seq<(nat, nat)>)
    ensures
        rest(f, f.len()) == 1,
{
    assert(f.skip(f.len() as int).len() == 0);
}

/// The tails multiply to at least 1.
proof fn lemma_rest_positive(f: Seq<(nat, nat)>, i: nat)
    requires
        good_factorization(f),
        i <= f.len(),
    ensures
        rest(f, i) >= 1,
    decreases f.len() - i,
{
    if i == f.len() {
        lemma_rest_end(f);
    } else {
        lemma_rest_positive(f, i + 1);
        lemma_rest_step(f, i);
        lemma_pow_nat_positive(f[i as int].0, f[i as int].1);
        assert(rest(f, i) >= 1) by (nonlinear_arith)
            requires
                rest(f, i) == pow_nat(f[i as int].0, f[i as int].1) * rest(f, i + 1),
                pow_nat(f[i as int].0, f[i as int].1) >= 1,
                rest(f, i + 1) >= 1,
        ;
    }
}

/// A multiple of a multiple of `m` is a multiple of `m`.
proof fn lemma_multiple_of_multiple(a: nat, b: nat, m: nat)
    requires
        m > 0,
        b % m == 0,
    ensures
        (a * b) % m == 0,
{
    lemma_fundamental_div_mod(b as int, m as int);
    let t = b / m;
    assert(a * b == m * (a * t)) by (nonlinear_arith)
        requires
            b == m * t,
    ;
    lemma_mod_multiples_basic((a * t) as int, m as int);
    lemma_mul_is_commutative(m as int, (a * t) as int);
}

/// Every prime power of the tail from `k` divides `rest(f, k)`.
proof fn lemma_rest_divisible(f: Seq<(nat, nat)>, k: nat, i: nat)
    requires
        good_factorization(f),
        k <= i < f.len(),
    ensures
        rest(f, k) % pow_nat(f[i as int].0, f[i as int].1) == 0,
    decreases i - k,
{
    lemma_rest_step(f, k);
    lemma_pow_nat_positive(f[i as int].0, f[i as int].1);
    let qk = pow_nat(f[k as int].0, f[k as int].1);
    let r1 = rest(f, k + 1);
    if k == i {
        lemma_mod_multiples_basic(r1 as int, qk as int);
        lemma_mul_is_commutative(r1 as int, qk as int);
    } else {
        lemma_rest_divisible(f, k + 1, i);
        lemma_multiple_of_multiple(qk, r1, pow_nat(f[i as int].0, f[i as int].1));
    }
}

/// Every prime of the tail from `k` divides `rest(f, k)`.
proof fn lemma_rest_prime_divisible(f: Seq<(nat, nat)>, k: nat, j: nat)
    requires
        good_factorization(f),
        k <= j < f.len(),
    ensures
        rest(f, k) % f[j as int].0 == 0,
{
    let q = f[j as int].0;
    let e = f[j as int].1;
    lemma_rest_divisible(f, k, j);
    assert(pow_nat(q, e) == q * pow_nat(q, (e - 1) as nat));
    lemma_mod_multiples_basic(pow_nat(q, (e - 1) as nat) as int, q as int);
    lemma_mul_is_commutative(q as int, pow_nat(q, (e - 1) as nat) as int);
    lemma_pow_nat_positive(q, e);
    lemma_mod_transitive(rest(f, k), pow_nat(q, e), q);
}

/// A prime outside the tail from `k` does not divide `rest(f, k)`.
proof fn lemma_rest_not_divisible(f: Seq<(nat, nat)>, k: nat, q: nat)
    requires
        good_factorization(f),
        k <= f.len(),
        prime(q),
        forall|j: int| k <= j < f.len() ==> #[trigger] f[j].0 != q,
    ensures
        rest(f, k) % q != 0,
    decreases f.len() - k,
{
    if k == f.len() {
        lemma_rest_end(f);
        lemma_small_mod(1, q);
    } else {
        lemma_rest_step(f, k);
        lemma_rest_not_divisible(f, k + 1, q);
        if rest(f, k) % q == 0 {
            lemma_euclid(q, pow_nat(f[k as int].0, f[k as int].1), rest(f, k + 1));
            if pow_nat(f[k as int].0, f[k as int].1) % q == 0 {
                lemma_prime_divides_prime_power(q, f[k as int].0, f[k as int].1);
            }
        }
    }
}

// ---------------------------------------------------------------------------
// Elements of prescribed order
// ---------------------------------------------------------------------------

/// For a prime power `q^e` dividing `p - 1`, some `b < p` has `b^(q^e) ≡ 1`
/// but `b^(q^(e-1)) ≢ 1`.
proof fn lemma_prime_power_order(p: nat, q: nat, e: nat) -> (b: nat)
    requires
        prime(p),
        p > 2,
        prime(q),
        e >= 1,
        (p - 1) as nat % pow_nat(q, e) == 0,
    ensures
        b < p,
        pow_nat(b, pow_nat(q, e)) % p == 1,
        pow_nat(b, pow_nat(q, (e - 1) as nat)) % p != 1,
{
    let n = (p - 1) as nat;
    let big_q = pow_nat(q, e);
    let v = pow_nat(q, (e - 1) as nat);
    assert(big_q == q * v);
    lemma_pow_nat_positive(q, e);
    lemma_pow_nat_positive(q, (e - 1) as nat);
    // n = u * Q = u * v * q
    lemma_fundamental_div_mod(n as int, big_q as int);
    let u = n / big_q;
    assert(n == big_q * u);
    let k = u * v;
    assert(n == k * q) by (nonlinear_arith)
        requires
            n == big_q * u,
            big_q == q * v,
            k == u * v,
    ;
    // 1 <= k <= p - 2
    assert(k >= 1) by (nonlinear_arith)
        requires
            n == k * q,
            n >= 2,
    ;
    assert(k + 2 <= p) by (nonlinear_arith)
        requires
            n == k * q,
            q >= 2,
            n == p - 1,
            k >= 1,
    ;
    lemma_non_root_exists(p, k);
    let a = choose|a: nat| 1 <= a < p && #[trigger] (pow_nat(a, k) % p) != 1;
    let b = pow_nat(a, u) % p;
    // b^Q ≡ a^(u Q) = a^n ≡ 1
    lemma_pow_of_pow_mod(a, u, big_q, p);
    lemma_small_mod(a, p);
    lemma_fermat_little(p, a);
    lemma_mul_is_commutative(u as int, big_q as int);
    // b^v ≡ a^(u v) = a^k ≢ 1
    lemma_pow_of_pow_mod(a, u, v, p);
    lemma_mod_bound(pow_nat(a, u) as int, p as int);
    b
}

/// `g` has order exactly `rest(f, i)` modulo `p`: `g^rest ≡ 1`, and
/// `g^(rest / q) ≢ 1` for every prime `q` of the tail from `i`.
spec fn order_witness(g: nat, p: nat, f: Seq<(nat, nat)>, i: nat) -> bool {
    &&& 1 <= g < p
    &&& pow_nat(g, rest(f, i)) % p == 1
    &&& forall|j: int| i <= j < f.len() ==> #[trigger] (pow_nat(g, rest(f, i) / f[j].0) % p) != 1
}

/// `1^e == 1`.
proof fn lemma_pow_nat_one(e: nat)
    ensures
        pow_nat(1, e) == 1,
    decreases e,
{
    if e > 0 {
        lemma_pow_nat_one((e - 1) as nat);
    }
}

/// The exponent `rest(f, i) / f[i].0` is `q^(e-1) * rest(f, i + 1)`.
proof fn lemma_exponent_same(q: nat, v: nat, r1: nat)
    requires
        q >= 1,
    ensures
        (q * v * r1) / q == v * r1,
{
    assert(q * v * r1 == q * (v * r1)) by (nonlinear_arith);
    vstd::arithmetic::div_mod::lemma_div_multiples_vanish((v * r1) as int, q as int);
}

/// The exponent `rest(f, i) / f[j].0` for `j > i` is `f[i].0^f[i].1 * w`
/// where `rest(f, i + 1) == f[j].0 * w`.
proof fn lemma_exponent_other(big_q: nat, qj: nat, w: nat)
    requires
        qj >= 1,
    ensures
        (big_q * (qj * w)) / qj == big_q * w,
{
    assert(big_q * (qj * w) == qj * (big_q * w)) by (nonlinear_arith);
    vstd::arithmetic::div_mod::lemma_div_multiples_vanish((big_q * w) as int, qj as int);
}

/// Multiplying an element of order `rest(f, i + 1)` by one of order
/// `f[i].0^f[i].1` gives an element of order `rest(f, i)`.
proof fn lemma_step_witness(p: nat, f: Seq<(nat, nat)>, i: nat, g0: nat, b: nat)
    requires
        prime(p),
        p > 2,
        good_factorization(f),
        i < f.len(),
        order_witness(g0, p, f, i + 1),
        b < p,
        pow_nat(b, pow_nat(f[i as int].0, f[i as int].1)) % p == 1,
        pow_nat(b, pow_nat(f[i as int].0, (f[i as int].1 - 1) as nat)) % p != 1,
    ensures
        order_witness((g0 * b) % p, p, f, i),
{
    let q = f[i as int].0;
    let e = f[i as int].1;
    let big_q = pow_nat(q, e);
    let v = pow_nat(q, (e - 1) as nat);
    assert(big_q == q * v);
    let r1 = rest(f, i + 1);
    let r = rest(f, i);
    lemma_rest_step(f, i);
    lemma_rest_positive(f, i);
    let g = (g0 * b) % p;
    lemma_mod_bound((g0 * b) as int, p as int);
    // g^r ≡ 1
    lemma_pow_one_multiple(g0, r1, big_q, p);
    lemma_pow_one_multiple(b, big_q, r1, p);
    lemma_mul_is_commutative(r1 as int, big_q as int);
    lemma_pow_of_product(g0, b, r, p);
    lemma_product_with_one(pow_nat(g0, r), pow_nat(b, r), p);
    lemma_small_mod(1, p);
    // g >= 1
    if g == 0 {
        assert(pow_nat(0, r) == 0 * pow_nat(0, (r - 1) as nat));
        lemma_small_mod(0, p);
    }
    assert forall|j: int| i <= j < f.len() implies #[trigger] (pow_nat(g, r / f[j].0) % p) != 1 by {
        if j == i {
            // r / q == v * r1
            assert(r == q * v * r1) by (nonlinear_arith)
                requires
                    r == big_q * r1,
                    big_q == q * v,
            ;
            lemma_exponent_same(q, v, r1);
            let t = v * r1;
            assert forall|jj: int| i + 1 <= jj < f.len() implies #[trigger] f[jj].0 != q by {
                assert(f[i as int].0 < f[jj].0);
            }
            lemma_rest_not_divisible(f, i + 1, q);
            lemma_mul_is_commutative(v as int, q as int);
            lemma_power_stays_not_one(p, b, v, q, r1);
            lemma_pow_one_multiple(g0, r1, v, p);
            lemma_mul_is_commutative(r1 as int, v as int);
            lemma_pow_of_product(g0, b, t, p);
            lemma_product_with_one(pow_nat(g0, t), pow_nat(b, t), p);
        } else {
            let qj = f[j].0;
            lemma_rest_prime_divisible(f, i + 1, j as nat);
            lemma_fundamental_div_mod(r1 as int, qj as int);
            let w = r1 / qj;
            assert(r1 == qj * w);
            lemma_exponent_other(big_q, qj, w);
            let t = big_q * w;
            assert(r / qj == t);
            // g0^w ≢ 1 by the witness for i + 1, and g0^(w qj) = g0^r1 ≡ 1
            assert(pow_nat(g0, r1 / qj) % p != 1);
            lemma_mul_is_commutative(w as int, qj as int);
            if big_q % qj == 0 {
                lemma_prime_divides_prime_power(qj, q, e);
                assert(f[i as int].0 < f[j].0);
            }
            lemma_power_stays_not_one(p, g0, w, qj, big_q);
            lemma_mul_is_commutative(w as int, big_q as int);
            lemma_pow_one_multiple(b, big_q, w, p);
            lemma_pow_of_product(g0, b, t, p);
            lemma_product_with_one(pow_nat(b, t), pow_nat(g0, t), p);
        }
    }
}

/// For every tail of the factorization of `p - 1` there is an element whose
/// order is the product of the tail.
proof fn lemma_order_witness_exists(p: nat, f: Seq<(nat, nat)>, i: nat)
    requires
        prime(p),
        p > 2,
        f == prime_factorization((p - 1) as nat),
        i <= f.len(),
    ensures
        exists|g: nat| #[trigger] order_witness(g, p, f, i),
    decreases f.len() - i,
{
    lemma_prime_factorization((p - 1) as nat);
    assert(good_factorization(f));
    if i == f.len() {
        lemma_rest_end(f);
        lemma_pow_nat_one(1);
        lemma_small_mod(1, p);
        assert(order_witness(1, p, f, i));
    } else {
        lemma_order_witness_exists(p, f, i + 1);
        let g0 = choose|g: nat| #[trigger] order_witness(g, p, f, i + 1);
        let q = f[i as int].0;
        let e = f[i as int].1;
        assert(f.skip(0) =~= f);
        lemma_rest_divisible(f, 0, i);
        let b = lemma_prime_power_order(p, q, e);
        lemma_step_witness(p, f, i, g0, b);
    }
}

/// Every prime `p > 2` has a primitive root: some `2 <= g < p` passes the
/// primitive-root test, so `g^((p - 1) / q) ≢ 1 (mod p)` for every prime `q`
/// of `p - 1`.
pub proof fn lemma_primitive_root_exists(p: nat)
    requires
        prime(p),
        p > 2,
    ensures
        exists|g: nat| 2 <= g < p && #[trigger] primitive_root_test(g, p),
{
    let n = (p - 1) as nat;
    let f = prime_factorization(n);
    lemma_prime_factorization(n);
    lemma_order_witness_exists(p, f, 0);
    let g = choose|g: nat| #[trigger] order_witness(g, p, f, 0);
    assert(f.skip(0) =~= f);
    assert(rest(f, 0) == n);
    // p - 1 >= 2 has a prime factor
    if f.len() == 0 {
        assert(factorization_value(f) == 1);
    }
    // g != 1, since 1^x == 1
    if g == 1 {
        lemma_pow_nat_one(n / f[0].0);
        lemma_small_mod(1, p);
        assert(pow_nat(g, rest(f, 0) / f[0].0) % p != 1);
    }
    assert forall|i: int| 0 <= i < f.len() implies #[trigger] mod_pow_spec(g, (n / f[i].0) as nat, p) != 1 by {
        let q = f[i].0;
        assert(pow_nat(g, rest(f, 0) / f[i].0) % p != 1);
        lemma_fundamental_div_mod(n as int, q as int);
        assert(n / q >= 1) by (nonlinear_arith)
            requires
                n == q * (n / q) + n % q,
                n % q == 0,
                n >= 1,
                q >= 1,
        ;
        lemma_pow_agrees(g, n / q);
    }
    assert(primitive_root_test(g, p));
}

} // verus!
